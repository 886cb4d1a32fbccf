//! Tokens: the output units of tokenization.
//!
//! A token carries the raw text of a segment, its byte position, its
//! chunk type, and the dictionary information attached to the matched
//! word, if any.

use vstd::prelude::*;
use crate::strutil::{str_chars, string_from_chars};

verus! {

/// The tsek, the Tibetan syllable separator.
pub const TSEK: char = '\u{0F0B}';

/// The kind of text a chunk or token spans.
#[derive(Clone, Copy, Debug, PartialEq, Eq, Structural)]
pub enum ChunkType {
    /// Tibetan text (syllables and words)
    Text,
    /// Punctuation
    Punct,
    /// Number
    Num,
    /// Symbol
    Sym,
    /// Latin text
    Latin,
    /// CJK text
    Cjk,
    /// Other or unknown
    Other,
}

/// Upper-case name of a chunk type.
pub open spec fn spec_chunk_type_str(t: ChunkType) -> Seq<char> {
    match t {
        ChunkType::Text => "TEXT"@,
        ChunkType::Punct => "PUNCT"@,
        ChunkType::Num => "NUM"@,
        ChunkType::Sym => "SYM"@,
        ChunkType::Latin => "LATIN"@,
        ChunkType::Cjk => "CJK"@,
        ChunkType::Other => "OTHER"@,
    }
}

impl ChunkType {
    /// The upper-case name of this chunk type.
    pub fn as_str(&self) -> (r: &'static str)
        ensures
            r@ == spec_chunk_type_str(*self),
    {
        match self {
            ChunkType::Text => "TEXT",
            ChunkType::Punct => "PUNCT",
            ChunkType::Num => "NUM",
            ChunkType::Sym => "SYM",
            ChunkType::Latin => "LATIN",
            ChunkType::Cjk => "CJK",
            ChunkType::Other => "OTHER",
        }
    }
}

/// One dictionary sense of a word.
#[derive(Debug, Clone)]
pub struct Sense {
    /// Part of speech for this sense
    pub pos: Option<String>,
    /// Lemma for this sense
    pub lemma: Option<String>,
    /// Frequency for this sense
    pub freq: Option<u32>,
    /// Sense gloss
    pub sense: Option<String>,
    /// Meaning gloss
    pub meaning: Option<String>,
    /// Whether this sense belongs to an affixed inflection
    pub affixed: bool,
}

/// Affixation recorded on a token: particle length in characters and
/// whether a final a-chung was elided when the particle attached.
#[derive(Debug, Clone)]
pub struct AffixationInfo {
    /// Length of the affix in characters
    pub len: usize,
    /// Whether a final a-chung was removed before affixation
    pub aa: bool,
}

/// A single output token.
#[derive(Debug, Clone)]
pub struct Token {
    /// The raw text of the token
    pub text: String,
    /// Starting byte offset in the tokenized string
    pub start: usize,
    /// Length in bytes
    pub len: usize,
    /// The kind of text this token spans
    pub chunk_type: ChunkType,
    /// Part-of-speech tag, if known
    pub pos: Option<String>,
    /// Lemma (base form), if known
    pub lemma: Option<String>,
    /// Dictionary frequency, if known
    pub freq: Option<u32>,
    /// The syllables that make up this token
    pub syls: Vec<String>,
    /// Whether this token is a split-off particle
    pub is_affix: bool,
    /// Whether this token hosts a split-off particle
    pub is_affix_host: bool,
    /// Whether the matched word is Sanskrit
    pub is_skrt: bool,
    /// Dictionary senses of the matched word
    pub senses: Vec<Sense>,
    /// Affixation information, if the matched word is an inflection
    pub affixation: Option<AffixationInfo>,
    /// Whether a dagdra particle was merged into this token
    pub has_merged_dagdra: bool,
}

/// Views of a sequence of strings.
pub open spec fn views_of(v: Seq<String>) -> Seq<Seq<char>> {
    Seq::new(v.len(), |i: int| v[i]@)
}

/// Syllables joined with a tsek between each pair.
pub open spec fn spec_join_tsek(syls: Seq<Seq<char>>) -> Seq<char>
    decreases syls.len(),
{
    if syls.len() == 0 {
        Seq::empty()
    } else if syls.len() == 1 {
        syls[0]
    } else {
        spec_join_tsek(syls.drop_last()) + seq![TSEK] + syls.last()
    }
}

/// The cleaned text of a token: syllables joined by tsek, with a trailing
/// tsek unless the token is an affix host without being an affix.
pub open spec fn spec_text_cleaned(
    syls: Seq<Seq<char>>,
    is_affix_host: bool,
    is_affix: bool,
) -> Seq<char> {
    if syls.len() == 0 {
        Seq::empty()
    } else if is_affix_host && !is_affix {
        spec_join_tsek(syls)
    } else {
        spec_join_tsek(syls) + seq![TSEK]
    }
}

/// Join syllables with tseks into a character vector.
pub fn join_syls_chars(syls: &Vec<String>) -> (r: Vec<char>)
    ensures
        r@ == spec_join_tsek(views_of(syls@)),
{
    let ghost vs = views_of(syls@);
    let mut acc: Vec<char> = Vec::new();
    let mut i: usize = 0;
    while i < syls.len()
        invariant
            i <= syls@.len(),
            vs == views_of(syls@),
            acc@ == spec_join_tsek(vs.take(i as int)),
        decreases syls@.len() - i,
    {
        if i > 0 {
            acc.push(TSEK);
        }
        let mut cs = str_chars(syls[i].as_str());
        acc.append(&mut cs);
        proof {
            assert(vs.take(i + 1).drop_last() =~= vs.take(i as int));
            assert(vs.take(i + 1).last() == vs[i as int]);
            assert(vs[i as int] == syls@[i as int]@);
            if i == 0 {
                assert(acc@ =~= spec_join_tsek(vs.take(i + 1)));
            } else {
                assert(acc@ =~= spec_join_tsek(vs.take(i as int)) + seq![TSEK] + vs[i as int]);
            }
        }
        i = i + 1;
    }
    proof {
        assert(vs.take(syls@.len() as int) =~= vs);
    }
    acc
}

/// Position of the first tsek at or after `i`, or the end of the text.
pub open spec fn spec_first_tsek(s: Seq<char>, i: int) -> int
    decreases s.len() - i,
{
    if 0 <= i < s.len() {
        if s[i] == TSEK {
            i
        } else {
            spec_first_tsek(s, i + 1)
        }
    } else {
        s.len() as int
    }
}

/// Bounds and characterization of `spec_first_tsek`.
pub proof fn lemma_first_tsek(s: Seq<char>, i: int)
    requires
        0 <= i <= s.len(),
    ensures
        i <= spec_first_tsek(s, i) <= s.len(),
        forall|k: int| i <= k < spec_first_tsek(s, i) ==> s[k] != TSEK,
        spec_first_tsek(s, i) < s.len() ==> s[spec_first_tsek(s, i)] == TSEK,
    decreases s.len() - i,
{
    if i < s.len() && s[i] != TSEK {
        lemma_first_tsek(s, i + 1);
    }
}

/// The syllables of a word: maximal non-empty runs between tseks.
pub open spec fn spec_split_tsek(s: Seq<char>, i: int) -> Seq<Seq<char>>
    decreases s.len() - i,
        via spec_split_tsek_dec
{
    if 0 <= i < s.len() {
        let k = spec_first_tsek(s, i);
        let head = s.subrange(i, k);
        let rest = if k + 1 <= s.len() {
            spec_split_tsek(s, k + 1)
        } else {
            Seq::empty()
        };
        if head.len() > 0 {
            seq![head] + rest
        } else {
            rest
        }
    } else {
        Seq::empty()
    }
}

#[via_fn]
proof fn spec_split_tsek_dec(s: Seq<char>, i: int) {
    if 0 <= i < s.len() {
        lemma_first_tsek(s, i);
    }
}

/// Split a word into its syllables: tsek-separated, empty runs dropped.
pub fn split_syllables(word: &str) -> (r: Vec<String>)
    ensures
        views_of(r@) == spec_split_tsek(word@, 0),
{
    let chars = str_chars(word);
    let n = chars.len();
    let mut out: Vec<String> = Vec::new();
    let mut p: usize = 0;
    while p < n
        invariant
            0 <= p <= n,
            n == chars@.len(),
            chars@ == word@,
            views_of(out@) + spec_split_tsek(word@, p as int) == spec_split_tsek(word@, 0),
        decreases n - p,
    {
        let mut k: usize = p;
        while k < n && chars[k] != TSEK
            invariant
                p <= k <= n,
                n == chars@.len(),
                chars@ == word@,
                forall|m: int| p <= m < k ==> word@[m] != TSEK,
            decreases n - k,
        {
            k = k + 1;
        }
        proof {
            lemma_first_tsek(word@, p as int);
            assert(k as int == spec_first_tsek(word@, p as int)) by {
                let f = spec_first_tsek(word@, p as int);
                if f < k {
                    assert(word@[f] != TSEK);
                } else if k < f {
                    assert(word@[k as int] != TSEK);
                    assert(k < n);
                }
            }
        }
        if k > p {
            let mut piece: Vec<char> = Vec::new();
            let mut m: usize = p;
            while m < k
                invariant
                    p <= m <= k <= n,
                    n == chars@.len(),
                    chars@ == word@,
                    piece@ == word@.subrange(p as int, m as int),
                decreases k - m,
            {
                piece.push(chars[m]);
                proof {
                    assert(piece@ =~= word@.subrange(p as int, m + 1 as int));
                }
                m = m + 1;
            }
            let ghost out_prev = out@;
            out.push(string_from_chars(&piece));
            proof {
                let w = word@;
                let pi = p as int;
                let ki = k as int;
                let head = w.subrange(pi, ki);
                assert(head.len() > 0);
                if ki + 1 <= w.len() {
                    assert(spec_split_tsek(w, pi) == seq![head] + spec_split_tsek(w, ki + 1));
                } else {
                    assert(spec_split_tsek(w, pi) == seq![head] + Seq::<Seq<char>>::empty());
                    assert(spec_split_tsek(w, ki + 1) =~= Seq::<Seq<char>>::empty());
                    assert(spec_split_tsek(w, pi) =~= seq![head] + spec_split_tsek(w, ki + 1));
                }
                assert(views_of(out@) =~= views_of(out_prev).push(head));
                assert(views_of(out_prev).push(head) + spec_split_tsek(w, ki + 1)
                    =~= views_of(out_prev) + (seq![head] + spec_split_tsek(w, ki + 1)));
            }
        } else {
            proof {
                let w = word@;
                let pi = p as int;
                let head = w.subrange(pi, pi);
                assert(head.len() == 0);
                if pi + 1 <= w.len() {
                    assert(spec_split_tsek(w, pi) == spec_split_tsek(w, pi + 1));
                }
            }
        }
        if k < n {
            p = k + 1;
        } else {
            p = n;
            proof {
                assert(spec_split_tsek(word@, n as int) =~= Seq::<Seq<char>>::empty());
                assert(spec_split_tsek(word@, n + 1 as int) =~= Seq::<Seq<char>>::empty());
            }
        }
    }
    proof {
        assert(spec_split_tsek(word@, p as int) =~= Seq::<Seq<char>>::empty());
        assert(views_of(out@) =~= views_of(out@) + Seq::<Seq<char>>::empty());
    }
    out
}

impl Token {
    /// An empty token: no text, zero position, `Text` type, no
    /// dictionary information.
    pub fn new() -> (r: Token)
        ensures
            r.text@ == Seq::<char>::empty(),
            r.start == 0,
            r.len == 0,
            r.chunk_type == ChunkType::Text,
            r.pos is None,
            r.lemma is None,
            r.freq is None,
            r.syls@.len() == 0,
            !r.is_affix,
            !r.is_affix_host,
            !r.is_skrt,
            r.senses@.len() == 0,
            r.affixation is None,
            !r.has_merged_dagdra,
    {
        Token {
            text: String::new(),
            start: 0,
            len: 0,
            chunk_type: ChunkType::Text,
            pos: None,
            lemma: None,
            freq: None,
            syls: Vec::new(),
            is_affix: false,
            is_affix_host: false,
            is_skrt: false,
            senses: Vec::new(),
            affixation: None,
            has_merged_dagdra: false,
        }
    }

    /// A token with the given text, position and type, and no
    /// dictionary information.
    pub fn with_text(text: String, start: usize, len: usize, chunk_type: ChunkType) -> (r: Token)
        ensures
            r.text == text,
            r.start == start,
            r.len == len,
            r.chunk_type == chunk_type,
            r.pos is None,
            r.lemma is None,
            r.freq is None,
            r.syls@.len() == 0,
            !r.is_affix,
            !r.is_affix_host,
            !r.is_skrt,
            r.senses@.len() == 0,
            r.affixation is None,
            !r.has_merged_dagdra,
    {
        Token {
            text,
            start,
            len,
            chunk_type,
            pos: None,
            lemma: None,
            freq: None,
            syls: Vec::new(),
            is_affix: false,
            is_affix_host: false,
            is_skrt: false,
            senses: Vec::new(),
            affixation: None,
            has_merged_dagdra: false,
        }
    }

    /// The cleaned text: syllables joined by tsek, with a trailing tsek
    /// unless this token is an affix host without being an affix.
    pub fn text_cleaned(&self) -> (r: String)
        ensures
            r@ == spec_text_cleaned(views_of(self.syls@), self.is_affix_host, self.is_affix),
    {
        if self.syls.len() == 0 {
            return String::new();
        }
        let mut cs = join_syls_chars(&self.syls);
        if self.is_affix_host && !self.is_affix {
            // no trailing tsek
        } else {
            cs.push(TSEK);
            proof {
                assert(cs@ =~= spec_join_tsek(views_of(self.syls@)) + seq![TSEK]);
            }
        }
        string_from_chars(&cs)
    }

    /// Whether this is a word token: `Text` type with at least one
    /// syllable.
    pub fn is_word(&self) -> (r: bool)
        ensures
            r == (self.chunk_type == ChunkType::Text && self.syls@.len() > 0),
    {
        self.chunk_type == ChunkType::Text && self.syls.len() > 0
    }

    /// Whether this is a punctuation token.
    pub fn is_punct(&self) -> (r: bool)
        ensures
            r == (self.chunk_type == ChunkType::Punct),
    {
        self.chunk_type == ChunkType::Punct
    }

    /// The token's text, followed by a slash and its part of speech when
    /// one is set.
    pub fn display_string(&self) -> (r: String)
        ensures
            r@ == match self.pos {
                Some(p) => self.text@ + seq!['/'] + p@,
                None => self.text@,
            },
    {
        let mut s = self.text.clone();
        match &self.pos {
            Some(p) => {
                s.append("/");
                s.append(p.as_str());
                proof {
                    reveal_strlit("/");
                    assert(s@ =~= self.text@ + seq!['/'] + self.pos->0@);
                }
            },
            None => {},
        }
        s
    }
}

} // verus!
