//! Syllable analysis and the affix system.
//!
//! A closed table of eleven grammatical particles can attach to a host
//! syllable. A syllable may host a particle ("thame") when it is a known
//! root, ends in one of a closed set of affixable suffixes, or ends in a
//! final a-chung. `get_all_affixed` enumerates every affixed form.

use vstd::prelude::*;
use crate::strutil::{chars_end_with, chars_eq, concat_chars, str_chars, string_from_chars, str_eq};
use crate::token::{views_of, TSEK};

verus! {

/// The a-chung letter, elided when a vowel-initial particle attaches.
pub const AA_CHUNG: char = 'འ';

/// Information about one affix attached to a syllable.
#[derive(Debug, Clone)]
pub struct AffixData {
    /// Length of the affix in characters
    pub len: usize,
    /// Name of the affix kind
    pub affix_type: String,
    /// Whether a final a-chung was removed before affixation
    pub aa: bool,
}

/// The closed particle table: particle characters, particle length in
/// characters, and the name of the affix kind.
pub open spec fn spec_affix_table() -> Seq<(Seq<char>, int, Seq<char>)> {
    seq![
        (seq!['ར'], 1int, "la"@),
        (seq!['ས'], 1int, "gis"@),
        (seq!['འ', 'ི'], 2int, "gi"@),
        (seq!['འ', 'མ'], 2int, "am"@),
        (seq!['འ', 'ང'], 2int, "ang"@),
        (seq!['འ', 'ོ'], 2int, "o"@),
        (seq!['འ', 'ི', 'འ', 'ོ'], 4int, "gi+o"@),
        (seq!['འ', 'ི', 'འ', 'མ'], 4int, "gi+am"@),
        (seq!['འ', 'ི', 'འ', 'ང'], 4int, "gi+ang"@),
        (seq!['འ', 'ོ', 'འ', 'མ'], 4int, "o+am"@),
        (seq!['འ', 'ོ', 'འ', 'ང'], 4int, "o+ang"@),
    ]
}

/// The particle endings that mark a syllable as already affixed.
pub open spec fn spec_affix_particles() -> Seq<Seq<char>> {
    seq![
        seq!['འ', 'ི'],
        seq!['འ', 'ོ'],
        seq!['འ', 'མ'],
        seq!['འ', 'ང'],
        seq!['འ', 'ི', 'འ', 'ོ'],
        seq!['འ', 'ི', 'འ', 'མ'],
        seq!['འ', 'ི', 'འ', 'ང'],
        seq!['འ', 'ོ', 'འ', 'མ'],
        seq!['འ', 'ོ', 'འ', 'ང'],
    ]
}

/// The closed set of syllable endings that can host a particle: the bare
/// consonantal suffixes, each suffix with a preceding vowel sign, the
/// vowel signs alone, and the standalone suffixes sa and ra.
pub open spec fn spec_affixable_suffixes() -> Seq<Seq<char>> {
    seq![
        seq!['འ'], seq!['ག'], seq!['ང'], seq!['ད'], seq!['ན'], seq!['བ'], seq!['མ'], seq!['ལ'],
        seq!['ི', 'ག'], seq!['ི', 'ང'], seq!['ི', 'ད'], seq!['ི', 'ན'],
        seq!['ི', 'བ'], seq!['ི', 'མ'], seq!['ི', 'ལ'], seq!['ི', 'ས'],
        seq!['ུ', 'ག'], seq!['ུ', 'ང'], seq!['ུ', 'ད'], seq!['ུ', 'ན'],
        seq!['ུ', 'བ'], seq!['ུ', 'མ'], seq!['ུ', 'ལ'], seq!['ུ', 'ས'],
        seq!['ེ', 'ག'], seq!['ེ', 'ང'], seq!['ེ', 'ད'], seq!['ེ', 'ན'],
        seq!['ེ', 'བ'], seq!['ེ', 'མ'], seq!['ེ', 'ལ'], seq!['ེ', 'ས'],
        seq!['ོ', 'ག'], seq!['ོ', 'ང'], seq!['ོ', 'ད'], seq!['ོ', 'ན'],
        seq!['ོ', 'བ'], seq!['ོ', 'མ'], seq!['ོ', 'ལ'], seq!['ོ', 'ས'],
        seq!['ི'], seq!['ུ'], seq!['ེ'], seq!['ོ'],
        seq!['ས'], seq!['ར'],
    ]
}

/// The dagdra particles, in cleaned form (with trailing tsek).
pub open spec fn spec_dagdra() -> Seq<Seq<char>> {
    seq![
        seq!['པ', TSEK],
        seq!['པ', 'ོ', TSEK],
        seq!['བ', TSEK],
        seq!['བ', 'ོ', TSEK],
    ]
}

/// Whether `s` ends with `suffix`.
pub open spec fn spec_ends_with(s: Seq<char>, suffix: Seq<char>) -> bool {
    s.len() >= suffix.len() && s.skip(s.len() - suffix.len()) == suffix
}

/// Whether the syllable ends with an affixable suffix that is shorter
/// than the syllable itself.
pub open spec fn spec_has_affixable_suffix(syl: Seq<char>) -> bool {
    exists|i: int|
        0 <= i < spec_affixable_suffixes().len() && syl.len() > spec_affixable_suffixes()[i].len()
            && spec_ends_with(syl, spec_affixable_suffixes()[i])
}

/// Whether the syllable already carries one of the particle endings
/// (and is longer than the particle itself).
pub open spec fn spec_ends_with_particle(syl: Seq<char>) -> bool {
    exists|i: int|
        0 <= i < spec_affix_particles().len() && syl.len() > spec_affix_particles()[i].len()
            && spec_ends_with(syl, spec_affix_particles()[i])
}

/// Whether the syllable can host a particle: a known root, an affixable
/// suffix, or a final a-chung on a longer syllable.
pub open spec fn spec_is_thame(roots: Seq<Seq<char>>, syl: Seq<char>) -> bool {
    roots.contains(syl) || spec_has_affixable_suffix(syl) || (syl.len() > 1 && syl.last()
        == AA_CHUNG)
}

/// Whether the syllable can take a particle now: it can host one and
/// does not already carry one.
pub open spec fn spec_is_affixable(roots: Seq<Seq<char>>, syl: Seq<char>) -> bool {
    !spec_ends_with_particle(syl) && spec_is_thame(roots, syl)
}

/// The host form a particle attaches to: the syllable with a final
/// a-chung removed.
pub open spec fn spec_affix_base(syl: Seq<char>) -> Seq<char> {
    if syl.len() > 1 && syl.last() == AA_CHUNG {
        syl.drop_last()
    } else {
        syl
    }
}

/// Whether a final a-chung is elided when a particle attaches.
pub open spec fn spec_affix_aa(syl: Seq<char>) -> bool {
    syl.len() > 1 && syl.last() == AA_CHUNG
}

/// The roots embedded in this crate: suffix-less onset clusters that can
/// host a particle although no suffix rule covers them.
pub open spec fn spec_default_roots() -> Seq<Seq<char>> {
    seq![
        seq!['བ', 'ཀ', 'ྲ'],
        seq!['ད', 'ཀ', 'ྲ'],
        seq!['བ', 'ས', 'ྒ', 'ྲ'],
        seq!['ས', 'ྒ', 'ྲ'],
        seq!['ག', 'ྲ'],
        seq!['ཁ', 'ྲ'],
        seq!['ཕ', 'ྲ'],
        seq!['བ', 'ྲ'],
    ]
}

/// One row of the executable particle table.
pub(crate) struct AffixEntry {
    pub particle: Vec<char>,
    pub len: usize,
    pub affix_type: String,
}

/// Build the executable particle table, mirroring `spec_affix_table`.
pub(crate) fn affix_table() -> (r: Vec<AffixEntry>)
    ensures
        r@.len() == spec_affix_table().len(),
        forall|i: int|
            0 <= i < r@.len() ==> {
                &&& (#[trigger] r@[i]).particle@ == spec_affix_table()[i].0
                &&& r@[i].len as int == spec_affix_table()[i].1
                &&& r@[i].affix_type@ == spec_affix_table()[i].2
            },
{
    let mut r: Vec<AffixEntry> = Vec::new();
    r.push(AffixEntry { particle: chars1('ར'), len: 1, affix_type: "la".to_owned() });
    r.push(AffixEntry { particle: chars1('ས'), len: 1, affix_type: "gis".to_owned() });
    r.push(AffixEntry { particle: chars2('འ', 'ི'), len: 2, affix_type: "gi".to_owned() });
    r.push(AffixEntry { particle: chars2('འ', 'མ'), len: 2, affix_type: "am".to_owned() });
    r.push(AffixEntry { particle: chars2('འ', 'ང'), len: 2, affix_type: "ang".to_owned() });
    r.push(AffixEntry { particle: chars2('འ', 'ོ'), len: 2, affix_type: "o".to_owned() });
    r.push(AffixEntry { particle: chars4('འ', 'ི', 'འ', 'ོ'), len: 4, affix_type: "gi+o".to_owned() });
    r.push(AffixEntry { particle: chars4('འ', 'ི', 'འ', 'མ'), len: 4, affix_type: "gi+am".to_owned() });
    r.push(AffixEntry { particle: chars4('འ', 'ི', 'འ', 'ང'), len: 4, affix_type: "gi+ang".to_owned() });
    r.push(AffixEntry { particle: chars4('འ', 'ོ', 'འ', 'མ'), len: 4, affix_type: "o+am".to_owned() });
    r.push(AffixEntry { particle: chars4('འ', 'ོ', 'འ', 'ང'), len: 4, affix_type: "o+ang".to_owned() });
    r
}

/// Build the executable particle-ending list, mirroring
/// `spec_affix_particles`.
pub(crate) fn affix_particles() -> (r: Vec<Vec<char>>)
    ensures
        r@.len() == spec_affix_particles().len(),
        forall|i: int|
            0 <= i < r@.len() ==> (#[trigger] r@[i])@ == spec_affix_particles()[i],
{
    let mut r: Vec<Vec<char>> = Vec::new();
    r.push(chars2('འ', 'ི'));
    r.push(chars2('འ', 'ོ'));
    r.push(chars2('འ', 'མ'));
    r.push(chars2('འ', 'ང'));
    r.push(chars4('འ', 'ི', 'འ', 'ོ'));
    r.push(chars4('འ', 'ི', 'འ', 'མ'));
    r.push(chars4('འ', 'ི', 'འ', 'ང'));
    r.push(chars4('འ', 'ོ', 'འ', 'མ'));
    r.push(chars4('འ', 'ོ', 'འ', 'ང'));
    r
}

/// Build the executable affixable-suffix list, mirroring
/// `spec_affixable_suffixes`.
pub(crate) fn affixable_suffixes() -> (r: Vec<Vec<char>>)
    ensures
        r@.len() == spec_affixable_suffixes().len(),
        forall|i: int|
            0 <= i < r@.len() ==> (#[trigger] r@[i])@ == spec_affixable_suffixes()[i],
{
    let mut r: Vec<Vec<char>> = Vec::new();
    r.push(chars1('འ'));
    r.push(chars1('ག'));
    r.push(chars1('ང'));
    r.push(chars1('ད'));
    r.push(chars1('ན'));
    r.push(chars1('བ'));
    r.push(chars1('མ'));
    r.push(chars1('ལ'));
    r.push(chars2('ི', 'ག'));
    r.push(chars2('ི', 'ང'));
    r.push(chars2('ི', 'ད'));
    r.push(chars2('ི', 'ན'));
    r.push(chars2('ི', 'བ'));
    r.push(chars2('ི', 'མ'));
    r.push(chars2('ི', 'ལ'));
    r.push(chars2('ི', 'ས'));
    r.push(chars2('ུ', 'ག'));
    r.push(chars2('ུ', 'ང'));
    r.push(chars2('ུ', 'ད'));
    r.push(chars2('ུ', 'ན'));
    r.push(chars2('ུ', 'བ'));
    r.push(chars2('ུ', 'མ'));
    r.push(chars2('ུ', 'ལ'));
    r.push(chars2('ུ', 'ས'));
    r.push(chars2('ེ', 'ག'));
    r.push(chars2('ེ', 'ང'));
    r.push(chars2('ེ', 'ད'));
    r.push(chars2('ེ', 'ན'));
    r.push(chars2('ེ', 'བ'));
    r.push(chars2('ེ', 'མ'));
    r.push(chars2('ེ', 'ལ'));
    r.push(chars2('ེ', 'ས'));
    r.push(chars2('ོ', 'ག'));
    r.push(chars2('ོ', 'ང'));
    r.push(chars2('ོ', 'ད'));
    r.push(chars2('ོ', 'ན'));
    r.push(chars2('ོ', 'བ'));
    r.push(chars2('ོ', 'མ'));
    r.push(chars2('ོ', 'ལ'));
    r.push(chars2('ོ', 'ས'));
    r.push(chars1('ི'));
    r.push(chars1('ུ'));
    r.push(chars1('ེ'));
    r.push(chars1('ོ'));
    r.push(chars1('ས'));
    r.push(chars1('ར'));
    r
}

fn chars1(a: char) -> (r: Vec<char>)
    ensures
        r@ == seq![a],
{
    let mut r: Vec<char> = Vec::new();
    r.push(a);
    proof {
        assert(r@ =~= seq![a]);
    }
    r
}

fn chars2(a: char, b: char) -> (r: Vec<char>)
    ensures
        r@ == seq![a, b],
{
    let mut r: Vec<char> = Vec::new();
    r.push(a);
    r.push(b);
    proof {
        assert(r@ =~= seq![a, b]);
    }
    r
}

fn chars3(a: char, b: char, c: char) -> (r: Vec<char>)
    ensures
        r@ == seq![a, b, c],
{
    let mut r: Vec<char> = Vec::new();
    r.push(a);
    r.push(b);
    r.push(c);
    proof {
        assert(r@ =~= seq![a, b, c]);
    }
    r
}

fn chars4(a: char, b: char, c: char, d: char) -> (r: Vec<char>)
    ensures
        r@ == seq![a, b, c, d],
{
    let mut r: Vec<char> = Vec::new();
    r.push(a);
    r.push(b);
    r.push(c);
    r.push(d);
    proof {
        assert(r@ =~= seq![a, b, c, d]);
    }
    r
}

/// The syllable analyzer: a root list plus the closed suffix rules.
pub struct SylComponents {
    /// Roots that can host a particle although no suffix rule covers them
    roots: Vec<String>,
}

impl SylComponents {
    /// The embedded root list of this analyzer.
    pub closed spec fn spec_roots(&self) -> Seq<Seq<char>> {
        views_of(self.roots@)
    }

    /// A fresh analyzer holding the default embedded root list.
    pub fn new() -> (r: SylComponents)
        ensures
            r.spec_roots() == spec_default_roots(),
    {
        let mut roots: Vec<String> = Vec::new();
        roots.push(string_from_chars(&chars3('བ', 'ཀ', 'ྲ')));
        roots.push(string_from_chars(&chars3('ད', 'ཀ', 'ྲ')));
        roots.push(string_from_chars(&chars4('བ', 'ས', 'ྒ', 'ྲ')));
        roots.push(string_from_chars(&chars3('ས', 'ྒ', 'ྲ')));
        roots.push(string_from_chars(&chars2('ག', 'ྲ')));
        roots.push(string_from_chars(&chars2('ཁ', 'ྲ')));
        roots.push(string_from_chars(&chars2('ཕ', 'ྲ')));
        roots.push(string_from_chars(&chars2('བ', 'ྲ')));
        let r = SylComponents { roots };
        proof {
            assert(r.spec_roots() =~= spec_default_roots());
        }
        r
    }

    /// Whether the syllable can host a particle: a known root, an
    /// affixable suffix, or a final a-chung.
    pub fn is_thame(&self, syl: &str) -> (r: bool)
        ensures
            r == spec_is_thame(self.spec_roots(), syl@),
    {
        let mut i: usize = 0;
        while i < self.roots.len()
            invariant
                i <= self.roots@.len(),
                forall|j: int| 0 <= j < i ==> views_of(self.roots@)[j] != syl@,
            decreases self.roots@.len() - i,
        {
            if str_eq(self.roots[i].as_str(), syl) {
                proof {
                    assert(views_of(self.roots@)[i as int] == syl@);
                }
                return true;
            }
            i = i + 1;
        }
        proof {
            assert(!self.spec_roots().contains(syl@)) by {
                if self.spec_roots().contains(syl@) {
                    let j = choose|j: int|
                        0 <= j < self.spec_roots().len() && self.spec_roots()[j] == syl@;
                    assert(views_of(self.roots@)[j] != syl@);
                }
            }
        }
        let chars = str_chars(syl);
        let suffixes = affixable_suffixes();
        let mut k: usize = 0;
        while k < suffixes.len()
            invariant
                k <= suffixes@.len(),
                chars@ == syl@,
                suffixes@.len() == spec_affixable_suffixes().len(),
                forall|i: int|
                    0 <= i < suffixes@.len() ==> (#[trigger] suffixes@[i])@
                        == spec_affixable_suffixes()[i],
                forall|j: int|
                    0 <= j < k ==> !(syl@.len() > spec_affixable_suffixes()[j].len()
                        && spec_ends_with(syl@, spec_affixable_suffixes()[j])),
            decreases suffixes@.len() - k,
        {
            if chars.len() > suffixes[k].len() && chars_end_with(&chars, &suffixes[k]) {
                proof {
                    assert(syl@.len() > spec_affixable_suffixes()[k as int].len()
                        && spec_ends_with(syl@, spec_affixable_suffixes()[k as int]));
                }
                return true;
            }
            k = k + 1;
        }
        if chars.len() > 1 && chars[chars.len() - 1] == AA_CHUNG {
            proof {
                assert(syl@.last() == AA_CHUNG);
            }
            return true;
        }
        proof {
            assert(!spec_has_affixable_suffix(syl@));
            if syl@.len() > 1 {
                assert(chars@[chars@.len() - 1] == syl@.last());
            }
        }
        false
    }

    /// Whether the syllable can take a particle now: it can host one and
    /// does not already end in one.
    pub fn is_affixable(&self, syl: &str) -> (r: bool)
        ensures
            r == spec_is_affixable(self.spec_roots(), syl@),
    {
        let chars = str_chars(syl);
        let particles = affix_particles();
        let mut k: usize = 0;
        while k < particles.len()
            invariant
                k <= particles@.len(),
                chars@ == syl@,
                particles@.len() == spec_affix_particles().len(),
                forall|i: int|
                    0 <= i < particles@.len() ==> (#[trigger] particles@[i])@
                        == spec_affix_particles()[i],
                forall|j: int|
                    0 <= j < k ==> !(syl@.len() > spec_affix_particles()[j].len()
                        && spec_ends_with(syl@, spec_affix_particles()[j])),
            decreases particles@.len() - k,
        {
            if chars.len() > particles[k].len() && chars_end_with(&chars, &particles[k]) {
                proof {
                    assert(syl@.len() > spec_affix_particles()[k as int].len() && spec_ends_with(
                        syl@,
                        spec_affix_particles()[k as int],
                    ));
                }
                return false;
            }
            k = k + 1;
        }
        proof {
            assert(!spec_ends_with_particle(syl@));
        }
        self.is_thame(syl)
    }

    /// All affixed forms of the syllable, with their affix data, or
    /// nothing when the syllable cannot take a particle.
    pub fn get_all_affixed(&self, syl: &str) -> (r: Option<Vec<(String, AffixData)>>)
        ensures
            r is Some <==> spec_is_affixable(self.spec_roots(), syl@),
            r is Some ==> {
                &&& r->0@.len() == spec_affix_table().len()
                &&& forall|i: int|
                    0 <= i < r->0@.len() ==> {
                        &&& (#[trigger] r->0@[i]).0@ == spec_affix_base(syl@)
                            + spec_affix_table()[i].0
                        &&& r->0@[i].1.len as int == spec_affix_table()[i].1
                        &&& r->0@[i].1.affix_type@ == spec_affix_table()[i].2
                        &&& r->0@[i].1.aa == spec_affix_aa(syl@)
                    }
            },
    {
        if !self.is_affixable(syl) {
            return None;
        }
        let mut chars = str_chars(syl);
        let mut aa = false;
        if chars.len() > 1 && chars[chars.len() - 1] == AA_CHUNG {
            proof {
                assert(chars@[chars@.len() - 1] == syl@.last());
            }
            chars.pop();
            aa = true;
            proof {
                assert(chars@ =~= spec_affix_base(syl@));
            }
        } else {
            proof {
                if syl@.len() > 1 {
                    assert(chars@[chars@.len() - 1] == syl@.last());
                }
                assert(chars@ == spec_affix_base(syl@));
            }
        }
        let table = affix_table();
        let mut out: Vec<(String, AffixData)> = Vec::new();
        let mut i: usize = 0;
        while i < table.len()
            invariant
                i <= table@.len(),
                chars@ == spec_affix_base(syl@),
                aa == spec_affix_aa(syl@),
                table@.len() == spec_affix_table().len(),
                forall|j: int|
                    0 <= j < table@.len() ==> {
                        &&& (#[trigger] table@[j]).particle@ == spec_affix_table()[j].0
                        &&& table@[j].len as int == spec_affix_table()[j].1
                        &&& table@[j].affix_type@ == spec_affix_table()[j].2
                    },
                out@.len() == i,
                forall|j: int|
                    0 <= j < i ==> {
                        &&& (#[trigger] out@[j]).0@ == spec_affix_base(syl@)
                            + spec_affix_table()[j].0
                        &&& out@[j].1.len as int == spec_affix_table()[j].1
                        &&& out@[j].1.affix_type@ == spec_affix_table()[j].2
                        &&& out@[j].1.aa == spec_affix_aa(syl@)
                    },
            decreases table@.len() - i,
        {
            let form = concat_chars(&chars, &table[i].particle);
            let data = AffixData {
                len: table[i].len,
                affix_type: table[i].affix_type.clone(),
                aa,
            };
            out.push((string_from_chars(&form), data));
            i = i + 1;
        }
        Some(out)
    }
}

/// Whether the text, once given a trailing tsek, is one of the dagdra
/// particles.
pub open spec fn spec_is_dagdra(text: Seq<char>) -> bool {
    let cleaned = if text.len() > 0 && text.last() == TSEK {
        text
    } else {
        text + seq![TSEK]
    };
    spec_dagdra().contains(cleaned)
}

/// Whether a word is a dagdra particle.
pub fn is_dagdra(text: &str) -> (r: bool)
    ensures
        r == spec_is_dagdra(text@),
{
    let mut chars = str_chars(text);
    if chars.len() == 0 || chars[chars.len() - 1] != TSEK {
        proof {
            if chars@.len() > 0 {
                assert(chars@[chars@.len() - 1] == text@.last());
            }
        }
        chars.push(TSEK);
        proof {
            assert(chars@ =~= text@ + seq![TSEK]);
        }
    } else {
        proof {
            assert(chars@[chars@.len() - 1] == text@.last());
        }
    }
    let ghost cleaned = if text@.len() > 0 && text@.last() == TSEK {
        text@
    } else {
        text@ + seq![TSEK]
    };
    proof {
        assert(chars@ == cleaned);
    }
    let d0 = chars2('པ', TSEK);
    let d1 = chars3('པ', 'ོ', TSEK);
    let d2 = chars2('བ', TSEK);
    let d3 = chars3('བ', 'ོ', TSEK);
    if chars_eq(&chars, &d0) {
        proof {
            assert(spec_dagdra()[0] == cleaned);
        }
        return true;
    }
    if chars_eq(&chars, &d1) {
        proof {
            assert(spec_dagdra()[1] == cleaned);
        }
        return true;
    }
    if chars_eq(&chars, &d2) {
        proof {
            assert(spec_dagdra()[2] == cleaned);
        }
        return true;
    }
    if chars_eq(&chars, &d3) {
        proof {
            assert(spec_dagdra()[3] == cleaned);
        }
        return true;
    }
    proof {
        assert(!spec_dagdra().contains(cleaned)) by {
            if spec_dagdra().contains(cleaned) {
                let j = choose|j: int|
                    0 <= j < spec_dagdra().len() && spec_dagdra()[j] == cleaned;
                assert(j == 0 || j == 1 || j == 2 || j == 3);
            }
        }
    }
    false
}

} // verus!
