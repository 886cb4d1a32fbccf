//! Character classification for Tibetan text.
//!
//! Every Unicode code point is assigned a syllable-role category. The
//! mapping is a fixed table: transparent (space-like) characters first,
//! then the Tibetan block (U+0F00..=U+0FFF), then Latin and CJK ranges,
//! and `Other` for everything else.

use vstd::prelude::*;
use crate::strutil::str_chars;

verus! {

/// Syllable-role category of a single character.
#[derive(Clone, Copy, Debug, PartialEq, Eq, Structural)]
pub enum CharCategory {
    /// Tibetan consonant
    Cons,
    /// Sub-joined consonant (used in consonant stacks)
    SubCons,
    /// Tibetan vowel sign
    Vow,
    /// Tsek, the syllable separator
    Tsek,
    /// Normal punctuation (shad and friends)
    NormalPunct,
    /// Special punctuation (head marks and similar)
    SpecialPunct,
    /// Tibetan numeral
    Numeral,
    /// Symbol
    Symbol,
    /// Transparent character (spaces and similar), skipped over in
    /// syllable processing
    Transparent,
    /// Sanskrit vowel sign
    SkrtVow,
    /// Sanskrit consonant
    SkrtCons,
    /// Sanskrit sub-joined consonant
    SkrtSubCons,
    /// Sanskrit long vowel (visarga)
    SkrtLongVow,
    /// In-syllable mark
    InSylMark,
    /// Pre-composed character that canonical normalization would expand
    Nfc,
    /// Letter-like sign that is neither Tibetan nor Sanskrit
    NonBoNonSkrt,
    /// Latin character
    Latin,
    /// CJK character
    Cjk,
    /// Other or unknown character
    Other,
}

/// Space-like code points that are skipped over while reading syllables.
#[verifier::opaque]
pub open spec fn spec_is_transparent_code(u: u32) -> bool {
    u == 0x20 || u == 0x9 || u == 0xA || u == 0xD || u == 0xA0 || u == 0x1680
        || (0x2000 <= u && u <= 0x200B) || u == 0x202F || u == 0x205F || u == 0x3000
        || u == 0xFEFF
}

/// Category of a code point inside the Tibetan block (U+0F00..=U+0FFF).
#[verifier::opaque]
pub open spec fn spec_tibetan_category(u: u32) -> CharCategory
    recommends
        0x0F00 <= u && u <= 0x0FFF,
{
    if u == 0x0F00 {
        CharCategory::Symbol
    } else if 0x0F01 <= u && u <= 0x0F0A {
        CharCategory::SpecialPunct
    } else if u == 0x0F0B || u == 0x0F0C {
        CharCategory::Tsek
    } else if 0x0F0D <= u && u <= 0x0F14 {
        CharCategory::NormalPunct
    } else if 0x0F15 <= u && u <= 0x0F1F {
        CharCategory::Symbol
    } else if 0x0F20 <= u && u <= 0x0F33 {
        CharCategory::Numeral
    } else if u == 0x0F34 || u == 0x0F36 || u == 0x0F38 {
        CharCategory::Symbol
    } else if u == 0x0F35 || u == 0x0F37 || u == 0x0F39 {
        CharCategory::InSylMark
    } else if 0x0F3A <= u && u <= 0x0F3D {
        CharCategory::NormalPunct
    } else if u == 0x0F3E || u == 0x0F3F {
        CharCategory::Symbol
    } else if u == 0x0F43 || u == 0x0F4D || u == 0x0F52 || u == 0x0F57 || u == 0x0F5C
        || u == 0x0F69 || u == 0x0F73 || (0x0F75 <= u && u <= 0x0F79) || u == 0x0F81 {
        CharCategory::Nfc
    } else if u == 0x0F4A || u == 0x0F4B || u == 0x0F4C || u == 0x0F4E || u == 0x0F65 {
        CharCategory::SkrtCons
    } else if 0x0F40 <= u && u <= 0x0F6C && u != 0x0F48 {
        CharCategory::Cons
    } else if u == 0x0F71 || u == 0x0F7B || u == 0x0F7D || u == 0x0F80 {
        CharCategory::SkrtVow
    } else if u == 0x0F72 || u == 0x0F74 || u == 0x0F7A || u == 0x0F7C {
        CharCategory::Vow
    } else if u == 0x0F7F {
        CharCategory::SkrtLongVow
    } else if u == 0x0F7E || u == 0x0F82 || u == 0x0F83 || u == 0x0F84 || u == 0x0F86
        || u == 0x0F87 {
        CharCategory::InSylMark
    } else if 0x0F88 <= u && u <= 0x0F8C {
        CharCategory::NonBoNonSkrt
    } else if u == 0x0F9A || u == 0x0F9B || u == 0x0F9C || u == 0x0F9E || u == 0x0FB5 {
        CharCategory::SkrtSubCons
    } else if 0x0F90 <= u && u <= 0x0FBC && u != 0x0F98 {
        CharCategory::SubCons
    } else if 0x0FBE <= u && u <= 0x0FCF {
        CharCategory::Symbol
    } else if 0x0FD0 <= u && u <= 0x0FD4 {
        CharCategory::NormalPunct
    } else if 0x0FD5 <= u && u <= 0x0FD8 {
        CharCategory::Symbol
    } else {
        CharCategory::Other
    }
}

/// Category of an arbitrary code point: transparent characters first,
/// then the Tibetan block, then the Latin and CJK ranges.
#[verifier::opaque]
pub open spec fn spec_category_code(u: u32) -> CharCategory {
    if spec_is_transparent_code(u) {
        CharCategory::Transparent
    } else if 0x0F00 <= u && u <= 0x0FFF {
        spec_tibetan_category(u)
    } else if (0x0020 <= u && u <= 0x036F) || (0x1E00 <= u && u <= 0x20CF) {
        CharCategory::Latin
    } else if (0x4E00 <= u && u <= 0x9FFF) || (0x3400 <= u && u <= 0x4DBF)
        || (0x2E80 <= u && u <= 0x2EFF) || (0x3000 <= u && u <= 0x303F) {
        CharCategory::Cjk
    } else {
        CharCategory::Other
    }
}

/// Category of a character.
pub open spec fn spec_char_category(c: char) -> CharCategory {
    spec_category_code(c as u32)
}

/// True for the categories that can stand inside a syllable.
pub open spec fn spec_is_syllable_part(cat: CharCategory) -> bool {
    cat == CharCategory::Cons || cat == CharCategory::SubCons || cat == CharCategory::Vow
        || cat == CharCategory::SkrtVow || cat == CharCategory::SkrtCons
        || cat == CharCategory::SkrtSubCons || cat == CharCategory::SkrtLongVow
        || cat == CharCategory::InSylMark || cat == CharCategory::Nfc
        || cat == CharCategory::NonBoNonSkrt
}

impl CharCategory {
    /// Whether a character of this category can be part of a syllable.
    pub fn is_syllable_part(&self) -> (r: bool)
        ensures
            r == spec_is_syllable_part(*self),
    {
        matches!(
            self,
            CharCategory::Cons
                | CharCategory::SubCons
                | CharCategory::Vow
                | CharCategory::SkrtVow
                | CharCategory::SkrtCons
                | CharCategory::SkrtSubCons
                | CharCategory::SkrtLongVow
                | CharCategory::InSylMark
                | CharCategory::Nfc
                | CharCategory::NonBoNonSkrt
        )
    }

    /// Whether this category belongs to the Tibetan script proper
    /// (everything except Latin, CJK and Other).
    pub fn is_tibetan(&self) -> (r: bool)
        ensures
            r == (*self != CharCategory::Latin && *self != CharCategory::Cjk && *self
                != CharCategory::Other),
    {
        !matches!(self, CharCategory::Latin | CharCategory::Cjk | CharCategory::Other)
    }
}

/// Look up the category of a character in the fixed table.
pub fn get_char_category(c: char) -> (r: CharCategory)
    ensures
        r == spec_char_category(c),
{
    proof {
        reveal(spec_category_code);
        reveal(spec_is_transparent_code);
    }
    let u = c as u32;
    if u == 0x20 || u == 0x9 || u == 0xA || u == 0xD || u == 0xA0 || u == 0x1680
        || (0x2000 <= u && u <= 0x200B) || u == 0x202F || u == 0x205F || u == 0x3000
        || u == 0xFEFF {
        return CharCategory::Transparent;
    }
    if 0x0F00 <= u && u <= 0x0FFF {
        return tibetan_category(u);
    }
    if (0x0020 <= u && u <= 0x036F) || (0x1E00 <= u && u <= 0x20CF) {
        return CharCategory::Latin;
    }
    if (0x4E00 <= u && u <= 0x9FFF) || (0x3400 <= u && u <= 0x4DBF)
        || (0x2E80 <= u && u <= 0x2EFF) || (0x3000 <= u && u <= 0x303F) {
        return CharCategory::Cjk;
    }
    CharCategory::Other
}

/// Table for the Tibetan block.
fn tibetan_category(u: u32) -> (r: CharCategory)
    requires
        0x0F00 <= u && u <= 0x0FFF,
    ensures
        r == spec_tibetan_category(u),
{
    proof {
        reveal(spec_tibetan_category);
    }
    if u == 0x0F00 {
        CharCategory::Symbol
    } else if 0x0F01 <= u && u <= 0x0F0A {
        CharCategory::SpecialPunct
    } else if u == 0x0F0B || u == 0x0F0C {
        CharCategory::Tsek
    } else if 0x0F0D <= u && u <= 0x0F14 {
        CharCategory::NormalPunct
    } else if 0x0F15 <= u && u <= 0x0F1F {
        CharCategory::Symbol
    } else if 0x0F20 <= u && u <= 0x0F33 {
        CharCategory::Numeral
    } else if u == 0x0F34 || u == 0x0F36 || u == 0x0F38 {
        CharCategory::Symbol
    } else if u == 0x0F35 || u == 0x0F37 || u == 0x0F39 {
        CharCategory::InSylMark
    } else if 0x0F3A <= u && u <= 0x0F3D {
        CharCategory::NormalPunct
    } else if u == 0x0F3E || u == 0x0F3F {
        CharCategory::Symbol
    } else if u == 0x0F43 || u == 0x0F4D || u == 0x0F52 || u == 0x0F57 || u == 0x0F5C
        || u == 0x0F69 || u == 0x0F73 || (0x0F75 <= u && u <= 0x0F79) || u == 0x0F81 {
        CharCategory::Nfc
    } else if u == 0x0F4A || u == 0x0F4B || u == 0x0F4C || u == 0x0F4E || u == 0x0F65 {
        CharCategory::SkrtCons
    } else if 0x0F40 <= u && u <= 0x0F6C && u != 0x0F48 {
        CharCategory::Cons
    } else if u == 0x0F71 || u == 0x0F7B || u == 0x0F7D || u == 0x0F80 {
        CharCategory::SkrtVow
    } else if u == 0x0F72 || u == 0x0F74 || u == 0x0F7A || u == 0x0F7C {
        CharCategory::Vow
    } else if u == 0x0F7F {
        CharCategory::SkrtLongVow
    } else if u == 0x0F7E || u == 0x0F82 || u == 0x0F83 || u == 0x0F84 || u == 0x0F86
        || u == 0x0F87 {
        CharCategory::InSylMark
    } else if 0x0F88 <= u && u <= 0x0F8C {
        CharCategory::NonBoNonSkrt
    } else if u == 0x0F9A || u == 0x0F9B || u == 0x0F9C || u == 0x0F9E || u == 0x0FB5 {
        CharCategory::SkrtSubCons
    } else if 0x0F90 <= u && u <= 0x0FBC && u != 0x0F98 {
        CharCategory::SubCons
    } else if 0x0FBE <= u && u <= 0x0FCF {
        CharCategory::Symbol
    } else if 0x0FD0 <= u && u <= 0x0FD4 {
        CharCategory::NormalPunct
    } else if 0x0FD5 <= u && u <= 0x0FD8 {
        CharCategory::Symbol
    } else {
        CharCategory::Other
    }
}

/// A string together with the category of each of its characters.
pub struct BoString {
    /// The underlying text
    pub string: String,
    /// Category of each character, in character order
    pub categories: Vec<CharCategory>,
}

impl BoString {
    /// The categories are exactly those of the string's characters.
    pub open spec fn wf(&self) -> bool {
        &&& self.categories@.len() == self.string@.len()
        &&& forall|i: int|
            0 <= i < self.string@.len() ==> self.categories@[i] == spec_char_category(
                self.string@[i],
            )
    }

    /// Analyze a string: record the category of every character.
    pub fn new(s: &str) -> (r: BoString)
        ensures
            r.wf(),
            r.string@ == s@,
    {
        let chars = str_chars(s);
        let mut categories: Vec<CharCategory> = Vec::new();
        let mut i: usize = 0;
        while i < chars.len()
            invariant
                i <= chars@.len(),
                chars@ == s@,
                categories@.len() == i,
                forall|j: int|
                    0 <= j < i ==> categories@[j] == spec_char_category(s@[j]),
            decreases chars@.len() - i,
        {
            categories.push(get_char_category(chars[i]));
            i = i + 1;
        }
        BoString { string: s.to_owned(), categories }
    }

    /// Number of characters.
    pub fn len(&self) -> (r: usize)
        requires
            self.wf(),
        ensures
            r == self.string@.len(),
    {
        self.categories.len()
    }

    /// Whether the string is empty.
    pub fn is_empty(&self) -> (r: bool)
        requires
            self.wf(),
        ensures
            r == (self.string@.len() == 0),
    {
        self.categories.len() == 0
    }

    /// Category of the character at the given index, if any.
    pub fn get_category(&self, idx: usize) -> (r: Option<CharCategory>)
        requires
            self.wf(),
        ensures
            idx < self.string@.len() ==> r == Some(spec_char_category(self.string@[idx as int])),
            idx >= self.string@.len() ==> r is None,
    {
        if idx < self.categories.len() {
            Some(self.categories[idx])
        } else {
            None
        }
    }

    /// Copy of the categories in the given character range; the range end
    /// is clamped to the end of the string.
    pub fn get_categories(&self, start: usize, len: usize) -> (r: Vec<CharCategory>)
        requires
            self.wf(),
            start + len <= usize::MAX,
        ensures
            r@ == self.categories@.subrange(
                if start as int <= self.categories@.len() {
                    start as int
                } else {
                    self.categories@.len() as int
                },
                if start + len <= self.categories@.len() {
                    start + len
                } else {
                    self.categories@.len() as int
                },
            ),
    {
        let n = self.categories.len();
        let lo = if start <= n {
            start
        } else {
            n
        };
        let hi = if start + len <= n {
            start + len
        } else {
            n
        };
        let mut r: Vec<CharCategory> = Vec::new();
        let mut i: usize = lo;
        while i < hi
            invariant
                lo <= i <= hi <= self.categories@.len(),
                r@ == self.categories@.subrange(lo as int, i as int),
            decreases hi - i,
        {
            r.push(self.categories[i]);
            proof {
                assert(r@ =~= self.categories@.subrange(lo as int, i + 1 as int));
            }
            i = i + 1;
        }
        r
    }
}

} // verus!
