//! Sentence and paragraph grouping over the token stream.
//!
//! Boundaries are lexical: an ending particle, clause boundary or
//! ending verb before punctuation cuts a sentence; long stretches are
//! also cut at verb-plus-clause-boundary; short verb-less stretches are
//! joined to a neighbor. Paragraphs aggregate sentences with a soft
//! threshold of seventy word tokens and a hard one of one hundred and
//! fifty.

use vstd::prelude::*;
use crate::strutil::{str_eq, string_from_chars, str_chars};
use crate::token::{views_of, ChunkType, Token, TSEK};
use crate::tokenizer::{tmodel, tmodels, TokenModel};

verus! {

/// The sentence-ending particles, in cleaned form.
pub open spec fn spec_ending_particles() -> Seq<Seq<char>> {
    seq![
        seq!['ག', 'ོ', TSEK],
        seq!['ང', 'ོ', TSEK],
        seq!['ད', 'ོ', TSEK],
        seq!['ན', 'ོ', TSEK],
        seq!['བ', 'ོ', TSEK],
        seq!['མ', 'ོ', TSEK],
        seq!['འ', 'ོ', TSEK],
        seq!['ར', 'ོ', TSEK],
        seq!['ལ', 'ོ', TSEK],
        seq!['ས', 'ོ', TSEK],
        seq!['ཏ', 'ོ', TSEK],
    ]
}

/// The sentence-ending words, in cleaned form.
pub open spec fn spec_ending_words() -> Seq<Seq<char>> {
    seq![seq!['ཅ', 'ི', 'ག', TSEK], seq!['ཤ', 'ོ', 'ག', TSEK]]
}

/// The sentence-ending verbs, in cleaned form.
pub open spec fn spec_ending_verbs() -> Seq<Seq<char>> {
    seq![
        seq!['ཡ', 'ི', 'ན', TSEK],
        seq!['ཡ', 'ོ', 'ད', TSEK],
        seq!['མ', 'ི', 'ན', TSEK],
        seq!['མ', 'ེ', 'ད', TSEK],
        seq!['འ', 'ག', 'ྱ', 'ུ', 'ར', TSEK],
        seq!['ལ', 'ྡ', 'ན', TSEK],
        seq!['བ', 'ག', 'ྱ', 'ི', TSEK],
        seq!['བ', 'ྱ', TSEK],
        seq!['བ', 'ཞ', 'ུ', 'ག', 'ས', TSEK],
        seq!['འ', 'ད', 'ུ', 'ག', TSEK],
        seq!['ས', 'ོ', 'ང', TSEK],
    ]
}

/// The clause-boundary particles, in cleaned form.
pub open spec fn spec_clause_boundaries() -> Seq<Seq<char>> {
    seq![
        seq!['ས', 'ྟ', 'ེ', TSEK],
        seq!['ཏ', 'ེ', TSEK],
        seq!['ད', 'ེ', TSEK],
        seq!['ན', 'ས', TSEK],
        seq!['ན', TSEK],
        seq!['ལ', TSEK],
        seq!['ཞ', 'ི', 'ང', TSEK],
    ]
}

/// The dagdra particles, in cleaned form.
pub open spec fn spec_dagdra_syls() -> Seq<Seq<char>> {
    seq![
        seq!['པ', TSEK],
        seq!['བ', TSEK],
        seq!['པ', 'ོ', TSEK],
        seq!['བ', 'ོ', TSEK],
    ]
}

/// The last syllable of a token with a trailing tsek, or nothing.
pub open spec fn spec_last_syl(m: TokenModel) -> Option<Seq<char>> {
    if m.syls.len() == 0 {
        None
    } else {
        Some(m.syls.last() + seq![TSEK])
    }
}

/// Whether the token's last syllable, with a trailing tsek, is one of
/// the given patterns.
pub open spec fn spec_has_last_syl(m: TokenModel, patterns: Seq<Seq<char>>) -> bool {
    match spec_last_syl(m) {
        Some(y) => exists|i: int| 0 <= i < patterns.len() && patterns[i] == y,
        None => false,
    }
}

/// Whether a token is a word token.
pub open spec fn spec_is_word(m: TokenModel) -> bool {
    m.chunk_type == ChunkType::Text
}

/// Whether a token is a sentence-ending particle.
pub open spec fn spec_is_ending_particle(m: TokenModel) -> bool {
    m.pos == Some("PART"@) && spec_has_last_syl(m, spec_ending_particles())
}

/// An ending particle followed by punctuation.
pub open spec fn spec_ending_particle_and_punct(a: TokenModel, b: TokenModel) -> bool {
    spec_is_ending_particle(a) && b.chunk_type == ChunkType::Punct
}

/// A clause boundary or ending word followed by punctuation.
pub open spec fn spec_clause_boundary_and_punct(a: TokenModel, b: TokenModel) -> bool {
    (spec_has_last_syl(a, spec_clause_boundaries()) || spec_has_last_syl(
        a,
        spec_ending_words(),
    )) && b.chunk_type == ChunkType::Punct
}

/// Whether a token counts as a verb for sentence cutting.
pub open spec fn spec_is_verbish(m: TokenModel) -> bool {
    (m.pos == Some("VERB"@) && !spec_has_last_syl(m, spec_dagdra_syls())) || spec_has_last_syl(
        m,
        spec_ending_verbs(),
    )
}

/// A verb followed by punctuation.
pub open spec fn spec_verb_and_punct(a: TokenModel, b: TokenModel) -> bool {
    spec_is_verbish(a) && b.chunk_type == ChunkType::Punct
}

/// A verb followed by a clause boundary.
pub open spec fn spec_verb_and_clause_boundary(a: TokenModel, b: TokenModel) -> bool {
    spec_is_verbish(a) && spec_has_last_syl(b, spec_clause_boundaries())
}

/// Number of word tokens in `[a, b)`.
pub open spec fn spec_word_count(ts: Seq<Token>, a: int, b: int) -> int
    decreases b - a,
{
    if a >= b {
        0
    } else {
        (if spec_is_word(tmodel(ts[a])) {
            1int
        } else {
            0int
        }) + spec_word_count(ts, a + 1, b)
    }
}

/// The word count over a range is non-negative and bounded by the
/// range's length.
pub proof fn lemma_word_count_bounds(ts: Seq<Token>, a: int, b: int)
    ensures
        0 <= spec_word_count(ts, a, b),
        spec_word_count(ts, a, b) <= (if b >= a {
            b - a
        } else {
            0int
        }),
    decreases b - a,
{
    if a < b {
        lemma_word_count_bounds(ts, a + 1, b);
    }
}

/// A partition of `[0, n)` into contiguous non-empty index ranges,
/// each given as its first and last index.
pub open spec fn ranges_partition(bs: Seq<(usize, usize)>, n: nat) -> bool {
    &&& (bs.len() == 0 <==> n == 0)
    &&& (bs.len() > 0 ==> bs[0].0 == 0 && bs[bs.len() - 1].1 + 1 == n)
    &&& forall|k: int| 0 <= k < bs.len() ==> (#[trigger] bs[k]).0 <= bs[k].1 < n
    &&& forall|k: int| 0 <= k < bs.len() - 1 ==> (#[trigger] bs[k + 1]).0 == bs[k].1 + 1
}

/// A sentence: a contiguous run of tokens with its word count and its
/// index range in the token list.
pub struct Sentence {
    /// The tokens of this sentence
    pub tokens: Vec<Token>,
    /// Number of word tokens among them
    pub word_count: usize,
    /// First index in the token list
    pub start_idx: usize,
    /// Last index in the token list
    pub end_idx: usize,
}

/// A paragraph: a run of sentences with its word count.
pub struct Paragraph {
    /// The sentences of this paragraph
    pub sentences: Vec<Sentence>,
    /// Total number of word tokens
    pub word_count: usize,
}

/// Concatenation of the texts of a token list.
pub open spec fn texts_concat(ts: Seq<Token>) -> Seq<char>
    decreases ts.len(),
{
    if ts.len() == 0 {
        Seq::empty()
    } else {
        ts[0].text@ + texts_concat(ts.drop_first())
    }
}

/// The text with every enumeration shad replaced by a plain shad.
pub open spec fn spec_replace_shad(s: Seq<char>) -> Seq<char> {
    Seq::new(
        s.len(),
        |i: int|
            if s[i] == '\u{0F11}' {
                '\u{0F0D}'
            } else {
                s[i]
            },
    )
}

/// End of the whitespace-free run that starts at `i`.
pub open spec fn ws_run_end(s: Seq<char>, i: int) -> int
    decreases s.len() - i,
{
    if 0 <= i && i < s.len() && !crate::trie::spec_is_ws(s[i]) {
        ws_run_end(s, i + 1)
    } else {
        i
    }
}

/// The run's end stays within the text and past its start.
proof fn lemma_ws_run_end_bounds(s: Seq<char>, i: int)
    requires
        0 <= i <= s.len(),
    ensures
        i <= ws_run_end(s, i) <= s.len(),
        i < s.len() && !crate::trie::spec_is_ws(s[i]) ==> i < ws_run_end(s, i),
        ws_run_end(s, i) < s.len() ==> crate::trie::spec_is_ws(s[ws_run_end(s, i)]),
    decreases s.len() - i,
{
    if 0 <= i && i < s.len() && !crate::trie::spec_is_ws(s[i]) {
        lemma_ws_run_end_bounds(s, i + 1);
    }
}

/// The whitespace-separated words of the text, scanning from `i`.
pub open spec fn spec_split_ws(s: Seq<char>, i: int) -> Seq<Seq<char>>
    decreases s.len() - i when 0 <= i via spec_split_ws_dec
{
    if i >= s.len() {
        Seq::empty()
    } else if crate::trie::spec_is_ws(s[i]) {
        spec_split_ws(s, i + 1)
    } else {
        seq![s.subrange(i, ws_run_end(s, i))] + spec_split_ws(s, ws_run_end(s, i))
    }
}

#[via_fn]
proof fn spec_split_ws_dec(s: Seq<char>, i: int) {
    if 0 <= i && i < s.len() && !crate::trie::spec_is_ws(s[i]) {
        lemma_ws_run_end_bounds(s, i);
    }
}

/// The words joined by single spaces.
pub open spec fn spec_join_ws(ws: Seq<Seq<char>>) -> Seq<char>
    decreases ws.len(),
{
    if ws.len() == 0 {
        Seq::empty()
    } else if ws.len() == 1 {
        ws[0]
    } else {
        ws[0] + seq![' '] + spec_join_ws(ws.drop_first())
    }
}

/// What the scan still owes once it stands at `i` with words already
/// written or not.
pub open spec fn rest_join(s: Seq<char>, i: int, started: bool) -> Seq<char> {
    if !started {
        spec_join_ws(spec_split_ws(s, i))
    } else if spec_split_ws(s, i).len() == 0 {
        Seq::empty()
    } else {
        seq![' '] + spec_join_ws(spec_split_ws(s, i))
    }
}

/// Whether a character is whitespace for word splitting.
fn is_space(c: char) -> (r: bool)
    ensures
        r == crate::trie::spec_is_ws(c),
{
    let u = c as u32;
    u == 0x20 || u == 0x9 || u == 0xA || u == 0xD || u == 0xB || u == 0xC || u == 0x85
        || u == 0xA0 || u == 0x1680 || (0x2000 <= u && u <= 0x200A) || u == 0x2028
        || u == 0x2029 || u == 0x202F || u == 0x205F || u == 0x3000
}

impl Sentence {
    /// The text of this sentence: its tokens' texts, concatenated.
    pub fn text(&self) -> (r: String)
        ensures
            r@ == texts_concat(self.tokens@),
    {
        concat_token_texts(&self.tokens)
    }

    /// The sentence's text with every enumeration shad made a plain
    /// shad and every whitespace run between words a single space.
    pub fn normalized_text(&self) -> (r: String)
        ensures
            r@ == spec_join_ws(
                spec_split_ws(spec_replace_shad(texts_concat(self.tokens@)), 0),
            ),
    {
        let t = self.text();
        let cs = crate::strutil::str_chars(t.as_str());
        let mut rep: Vec<char> = Vec::new();
        let mut k: usize = 0;
        let n = cs.len();
        while k < n
            invariant
                k <= n,
                n == cs@.len(),
                rep@ == spec_replace_shad(cs@).take(k as int),
            decreases n - k,
        {
            let c = cs[k];
            if c == '\u{0F11}' {
                rep.push('\u{0F0D}');
            } else {
                rep.push(c);
            }
            proof {
                assert(rep@ =~= spec_replace_shad(cs@).take(k + 1));
            }
            k = k + 1;
        }
        proof {
            assert(spec_replace_shad(cs@).take(n as int) =~= spec_replace_shad(cs@));
        }
        let ghost rc = spec_replace_shad(cs@);
        let mut out: Vec<char> = Vec::new();
        let mut i: usize = 0;
        let mut started = false;
        while i < n
            invariant
                i <= n,
                n == rep@.len(),
                rc == rep@,
                started == (out@.len() > 0),
                spec_join_ws(spec_split_ws(rc, 0)) == out@ + rest_join(rc, i as int, started),
            decreases n - i,
        {
            if is_space(rep[i]) {
                proof {
                    assert(spec_split_ws(rc, i as int) == spec_split_ws(rc, i + 1));
                }
                i = i + 1;
            } else {
                proof {
                    lemma_ws_run_end_bounds(rc, i as int);
                }
                let ghost e = ws_run_end(rc, i as int);
                let ghost word = rc.subrange(i as int, e);
                let ghost base0 = out@;
                if started {
                    out.push(' ');
                }
                let ghost base = out@;
                let mut j = i;
                let mut stop = false;
                while j < n && !stop
                    invariant
                        i <= j <= n,
                        n == rep@.len(),
                        rc == rep@,
                        e == ws_run_end(rc, i as int),
                        i as int <= e <= n,
                        e == ws_run_end(rc, j as int),
                        stop ==> j < n && crate::trie::spec_is_ws(rc[j as int]),
                        forall|x: int| i <= x < j ==> !crate::trie::spec_is_ws(rc[x]),
                        out@ == base + rc.subrange(i as int, j as int),
                        base == base0 + (if started {
                            seq![' ']
                        } else {
                            Seq::<char>::empty()
                        }),
                    decreases n - j, (if stop {
                        0int
                    } else {
                        1int
                    }),
                {
                    if is_space(rep[j]) {
                        stop = true;
                    } else {
                        out.push(rep[j]);
                        proof {
                            assert(out@ =~= base + rc.subrange(i as int, j + 1));
                            assert(ws_run_end(rc, j as int) == ws_run_end(rc, j + 1));
                            lemma_ws_run_end_bounds(rc, j + 1);
                        }
                        j = j + 1;
                    }
                }
                proof {
                    lemma_ws_run_end_equal(rc, i as int, j as int);
                    assert(e == j as int);
                    assert(out@ == base + word);
                    assert(spec_split_ws(rc, i as int) == seq![word] + spec_split_ws(rc, e));
                    let tailw = spec_split_ws(rc, e);
                    if tailw.len() == 0 {
                        assert(spec_join_ws(seq![word] + tailw) == (seq![word] + tailw)[0]);
                        assert((seq![word] + tailw)[0] == word);
                        assert(rest_join(rc, i as int, started) == (if started {
                            seq![' ']
                        } else {
                            Seq::<char>::empty()
                        }) + word + rest_join(rc, e, true));
                    } else {
                        assert((seq![word] + tailw).drop_first() =~= tailw);
                        assert((seq![word] + tailw)[0] == word);
                        assert(spec_join_ws(seq![word] + tailw) == word + seq![' ']
                            + spec_join_ws(tailw));
                        assert(word + seq![' '] + spec_join_ws(tailw) =~= word + (seq![' ']
                            + spec_join_ws(tailw)));
                        assert(rest_join(rc, i as int, started) == (if started {
                            seq![' ']
                        } else {
                            Seq::<char>::empty()
                        }) + word + rest_join(rc, e, true));
                    }
                    assert(out@ + rest_join(rc, e, true) =~= base0 + (rest_join(
                        rc,
                        i as int,
                        started,
                    )));
                    assert(out@.len() > 0);
                }
                started = true;
                i = j;
            }
        }
        proof {
            assert(spec_split_ws(rc, n as int) =~= Seq::<Seq<char>>::empty());
            assert(rest_join(rc, n as int, started) =~= Seq::<char>::empty());
            assert(out@ + Seq::<char>::empty() =~= out@);
            assert(rc == spec_replace_shad(texts_concat(self.tokens@)));
        }
        crate::strutil::string_from_chars(&out)
    }
}

/// Scanning from anywhere inside a whitespace-free run ends at the
/// same place.
proof fn lemma_ws_run_end_equal(s: Seq<char>, i: int, j: int)
    requires
        0 <= i <= j <= s.len(),
        forall|x: int| i <= x < j ==> !crate::trie::spec_is_ws(s[x]),
        j == s.len() || crate::trie::spec_is_ws(s[j]),
    ensures
        ws_run_end(s, i) == j,
    decreases j - i,
{
    if i < j {
        lemma_ws_run_end_equal(s, i + 1, j);
    }
}

/// Concatenation of the texts of a run of sentences.
pub open spec fn sentences_text(ss: Seq<Sentence>) -> Seq<char>
    decreases ss.len(),
{
    if ss.len() == 0 {
        Seq::empty()
    } else {
        sentences_text(ss.drop_last()) + texts_concat(ss.last().tokens@)
    }
}

impl Paragraph {
    /// The text of this paragraph: its sentences' texts, concatenated.
    pub fn text(&self) -> (r: String)
        ensures
            r@ == sentences_text(self.sentences@),
    {
        let mut out = String::new();
        let mut i: usize = 0;
        proof {
            assert(sentences_text(self.sentences@.take(0)) =~= Seq::<char>::empty());
        }
        while i < self.sentences.len()
            invariant
                i <= self.sentences@.len(),
                out@ == sentences_text(self.sentences@.take(i as int)),
            decreases self.sentences@.len() - i,
        {
            let piece = self.sentences[i].text();
            out.append(piece.as_str());
            proof {
                assert(self.sentences@.take(i + 1).drop_last() =~= self.sentences@.take(
                    i as int,
                ));
                assert(self.sentences@.take(i + 1).last() == self.sentences@[i as int]);
            }
            i = i + 1;
        }
        proof {
            assert(self.sentences@.take(self.sentences@.len() as int)
                =~= self.sentences@);
        }
        out
    }
}

/// The texts of a token list, concatenated.
fn concat_token_texts(ts: &Vec<Token>) -> (r: String)
    ensures
        r@ == texts_concat(ts@),
{
    let mut out = String::new();
    let mut i: usize = 0;
    proof {
        assert(texts_concat(ts@.take(0)) =~= Seq::<char>::empty());
    }
    while i < ts.len()
        invariant
            i <= ts@.len(),
            out@ == texts_concat(ts@.take(i as int)),
        decreases ts@.len() - i,
    {
        out.append(ts[i].text.as_str());
        proof {
            lemma_texts_concat_take(ts@, i as int);
        }
        i = i + 1;
    }
    proof {
        assert(ts@.take(ts@.len() as int) =~= ts@);
    }
    out
}

/// Extending a prefix by one token appends that token's text.
proof fn lemma_texts_concat_take(ts: Seq<Token>, i: int)
    requires
        0 <= i < ts.len(),
    ensures
        texts_concat(ts.take(i + 1)) == texts_concat(ts.take(i)) + ts[i].text@,
    decreases i,
{
    if i == 0 {
        assert(ts.take(1)[0] == ts[0]);
        assert(ts.take(1).drop_first() =~= Seq::<Token>::empty());
        assert(texts_concat(ts.take(1)) == ts[0].text@ + texts_concat(Seq::<Token>::empty()));
        assert(ts[0].text@ + Seq::<char>::empty() =~= ts[0].text@);
        assert(texts_concat(ts.take(0)) + ts[0].text@ =~= ts[0].text@);
    } else {
        assert(ts.take(i + 1)[0] == ts[0]);
        assert(ts.take(i)[0] == ts[0]);
        assert(ts.take(i + 1).drop_first() =~= ts.drop_first().take(i));
        assert(ts.take(i).drop_first() =~= ts.drop_first().take(i - 1));
        lemma_texts_concat_take(ts.drop_first(), i - 1);
        assert(ts.drop_first()[i - 1] == ts[i]);
        assert(ts[0].text@ + (texts_concat(ts.drop_first().take(i - 1)) + ts[i].text@)
            =~= (ts[0].text@ + texts_concat(ts.drop_first().take(i - 1))) + ts[i].text@);
    }
}

/// Whether the token's last syllable, with a trailing tsek, is one of
/// the given patterns.
pub fn has_last_syl(token: &Token, patterns: &Vec<String>) -> (r: bool)
    ensures
        r == spec_has_last_syl(
            tmodel(*token),
            Seq::new(patterns@.len(), |i: int| patterns@[i]@),
        ),
{
    let ghost pv = Seq::new(patterns@.len(), |i: int| patterns@[i]@);
    let n = token.syls.len();
    if n == 0 {
        return false;
    }
    let mut last = str_chars(token.syls[n - 1].as_str());
    last.push(TSEK);
    proof {
        assert(tmodel(*token).syls.last() == token.syls@[n - 1]@);
        assert(last@ =~= tmodel(*token).syls.last() + seq![TSEK]);
    }
    let lw = string_from_chars(&last);
    let mut i: usize = 0;
    while i < patterns.len()
        invariant
            i <= patterns@.len(),
            lw@ == spec_last_syl(tmodel(*token))->0,
            spec_last_syl(tmodel(*token)) is Some,
            pv == Seq::new(patterns@.len(), |i: int| patterns@[i]@),
            forall|j: int| 0 <= j < i ==> pv[j] != lw@,
        decreases patterns@.len() - i,
    {
        if str_eq(patterns[i].as_str(), lw.as_str()) {
            proof {
                assert(pv[i as int] == lw@);
            }
            return true;
        }
        i = i + 1;
    }
    proof {
        assert(!spec_has_last_syl(tmodel(*token), pv)) by {
            if spec_has_last_syl(tmodel(*token), pv) {
                let j = choose|j: int| 0 <= j < pv.len() && pv[j] == spec_last_syl(
                    tmodel(*token),
                )->0;
                assert(pv[j] != lw@);
            }
        }
    }
    false
}



fn pat(cs: Vec<char>) -> (r: String)
    ensures
        r@ == cs@,
{
    string_from_chars(&cs)
}

fn c2(a: char, b: char) -> (r: Vec<char>)
    ensures
        r@ == seq![a, b],
{
    let mut v: Vec<char> = Vec::new();
    v.push(a);
    v.push(b);
    proof {
        assert(v@ =~= seq![a, b]);
    }
    v
}

fn c3(a: char, b: char, c: char) -> (r: Vec<char>)
    ensures
        r@ == seq![a, b, c],
{
    let mut v = c2(a, b);
    v.push(c);
    proof {
        assert(v@ =~= seq![a, b, c]);
    }
    v
}

fn c4(a: char, b: char, c: char, d: char) -> (r: Vec<char>)
    ensures
        r@ == seq![a, b, c, d],
{
    let mut v = c3(a, b, c);
    v.push(d);
    proof {
        assert(v@ =~= seq![a, b, c, d]);
    }
    v
}

fn c5(a: char, b: char, c: char, d: char, e: char) -> (r: Vec<char>)
    ensures
        r@ == seq![a, b, c, d, e],
{
    let mut v = c4(a, b, c, d);
    v.push(e);
    proof {
        assert(v@ =~= seq![a, b, c, d, e]);
    }
    v
}

fn c6(a: char, b: char, c: char, d: char, e: char, f: char) -> (r: Vec<char>)
    ensures
        r@ == seq![a, b, c, d, e, f],
{
    let mut v = c5(a, b, c, d, e);
    v.push(f);
    proof {
        assert(v@ =~= seq![a, b, c, d, e, f]);
    }
    v
}

/// The ending-particle patterns, as strings.
pub fn ending_particles() -> (r: Vec<String>)
    ensures
        Seq::new(r@.len(), |i: int| r@[i]@) == spec_ending_particles(),
{
    let mut r: Vec<String> = Vec::new();
    r.push(pat(c3('ག', 'ོ', TSEK)));
    r.push(pat(c3('ང', 'ོ', TSEK)));
    r.push(pat(c3('ད', 'ོ', TSEK)));
    r.push(pat(c3('ན', 'ོ', TSEK)));
    r.push(pat(c3('བ', 'ོ', TSEK)));
    r.push(pat(c3('མ', 'ོ', TSEK)));
    r.push(pat(c3('འ', 'ོ', TSEK)));
    r.push(pat(c3('ར', 'ོ', TSEK)));
    r.push(pat(c3('ལ', 'ོ', TSEK)));
    r.push(pat(c3('ས', 'ོ', TSEK)));
    r.push(pat(c3('ཏ', 'ོ', TSEK)));
    proof {
        assert(Seq::new(r@.len(), |i: int| r@[i]@) =~= spec_ending_particles());
    }
    r
}

/// The ending-word patterns, as strings.
fn ending_words() -> (r: Vec<String>)
    ensures
        Seq::new(r@.len(), |i: int| r@[i]@) == spec_ending_words(),
{
    let mut r: Vec<String> = Vec::new();
    r.push(pat(c4('ཅ', 'ི', 'ག', TSEK)));
    r.push(pat(c4('ཤ', 'ོ', 'ག', TSEK)));
    proof {
        assert(Seq::new(r@.len(), |i: int| r@[i]@) =~= spec_ending_words());
    }
    r
}

/// The ending-verb patterns, as strings.
fn ending_verbs() -> (r: Vec<String>)
    ensures
        Seq::new(r@.len(), |i: int| r@[i]@) == spec_ending_verbs(),
{
    let mut r: Vec<String> = Vec::new();
    r.push(pat(c4('ཡ', 'ི', 'ན', TSEK)));
    r.push(pat(c4('ཡ', 'ོ', 'ད', TSEK)));
    r.push(pat(c4('མ', 'ི', 'ན', TSEK)));
    r.push(pat(c4('མ', 'ེ', 'ད', TSEK)));
    r.push(pat(c6('འ', 'ག', 'ྱ', 'ུ', 'ར', TSEK)));
    r.push(pat(c4('ལ', 'ྡ', 'ན', TSEK)));
    r.push(pat(c5('བ', 'ག', 'ྱ', 'ི', TSEK)));
    r.push(pat(c3('བ', 'ྱ', TSEK)));
    r.push(pat(c6('བ', 'ཞ', 'ུ', 'ག', 'ས', TSEK)));
    r.push(pat(c5('འ', 'ད', 'ུ', 'ག', TSEK)));
    r.push(pat(c4('ས', 'ོ', 'ང', TSEK)));
    proof {
        assert(Seq::new(r@.len(), |i: int| r@[i]@) =~= spec_ending_verbs());
    }
    r
}

/// The clause-boundary patterns, as strings.
fn clause_boundaries() -> (r: Vec<String>)
    ensures
        Seq::new(r@.len(), |i: int| r@[i]@) == spec_clause_boundaries(),
{
    let mut r: Vec<String> = Vec::new();
    r.push(pat(c4('ས', 'ྟ', 'ེ', TSEK)));
    r.push(pat(c3('ཏ', 'ེ', TSEK)));
    r.push(pat(c3('ད', 'ེ', TSEK)));
    r.push(pat(c3('ན', 'ས', TSEK)));
    r.push(pat(c2('ན', TSEK)));
    r.push(pat(c2('ལ', TSEK)));
    r.push(pat(c4('ཞ', 'ི', 'ང', TSEK)));
    proof {
        assert(Seq::new(r@.len(), |i: int| r@[i]@) =~= spec_clause_boundaries());
    }
    r
}

/// The dagdra patterns, as strings.
fn dagdra_syls() -> (r: Vec<String>)
    ensures
        Seq::new(r@.len(), |i: int| r@[i]@) == spec_dagdra_syls(),
{
    let mut r: Vec<String> = Vec::new();
    r.push(pat(c2('པ', TSEK)));
    r.push(pat(c2('བ', TSEK)));
    r.push(pat(c3('པ', 'ོ', TSEK)));
    r.push(pat(c3('བ', 'ོ', TSEK)));
    proof {
        assert(Seq::new(r@.len(), |i: int| r@[i]@) =~= spec_dagdra_syls());
    }
    r
}

/// Whether a token is a word token.
fn is_word(token: &Token) -> (r: bool)
    ensures
        r == spec_is_word(tmodel(*token)),
{
    token.chunk_type == ChunkType::Text
}

/// Whether a token's tag is the given name.
fn pos_is(token: &Token, name: &str) -> (r: bool)
    ensures
        r == (tmodel(*token).pos == Some(name@)),
{
    match &token.pos {
        Some(p) => str_eq(p.as_str(), name),
        None => false,
    }
}

/// Whether a token is a sentence-ending particle.
fn is_ending_particle(token: &Token) -> (r: bool)
    ensures
        r == spec_is_ending_particle(tmodel(*token)),
{
    pos_is(token, "PART") && has_last_syl(token, &ending_particles())
}

/// An ending particle followed by punctuation.
fn is_ending_particle_and_punct(token1: &Token, token2: &Token) -> (r: bool)
    ensures
        r == spec_ending_particle_and_punct(tmodel(*token1), tmodel(*token2)),
{
    is_ending_particle(token1) && token2.chunk_type == ChunkType::Punct
}

/// A clause boundary or ending word followed by punctuation.
fn is_clause_boundary_and_punct(token1: &Token, token2: &Token) -> (r: bool)
    ensures
        r == spec_clause_boundary_and_punct(tmodel(*token1), tmodel(*token2)),
{
    (has_last_syl(token1, &clause_boundaries()) || has_last_syl(token1, &ending_words()))
        && token2.chunk_type == ChunkType::Punct
}

/// Whether a token counts as a verb for sentence cutting.
fn is_verbish(token: &Token) -> (r: bool)
    ensures
        r == spec_is_verbish(tmodel(*token)),
{
    (pos_is(token, "VERB") && !has_last_syl(token, &dagdra_syls())) || has_last_syl(
        token,
        &ending_verbs(),
    )
}

/// A verb followed by punctuation.
fn is_verb_and_punct(token1: &Token, token2: &Token) -> (r: bool)
    ensures
        r == spec_verb_and_punct(tmodel(*token1), tmodel(*token2)),
{
    is_verbish(token1) && token2.chunk_type == ChunkType::Punct
}

/// A verb followed by a clause boundary.
fn is_verb_and_clause_boundary(token1: &Token, token2: &Token) -> (r: bool)
    ensures
        r == spec_verb_and_clause_boundary(tmodel(*token1), tmodel(*token2)),
{
    is_verbish(token1) && has_last_syl(token2, &clause_boundaries())
}

/// The kinds of lexical boundary the scans cut at.
enum BoundaryKind {
    /// An ending particle before punctuation
    EndPunct,
    /// A clause boundary or ending word before punctuation
    ClausePunct,
    /// A verb before punctuation
    VerbPunct,
    /// A verb before a clause boundary
    VerbClause,
}

/// Whether the pair of neighbors cuts a sentence under the given kind.
pub open spec fn spec_boundary_of(kind: int, a: TokenModel, b: TokenModel) -> bool {
    if kind == 0 {
        spec_ending_particle_and_punct(a, b)
    } else if kind == 1 {
        spec_clause_boundary_and_punct(a, b)
    } else if kind == 2 {
        spec_verb_and_punct(a, b)
    } else {
        spec_verb_and_clause_boundary(a, b)
    }
}

impl BoundaryKind {
    spec fn id(&self) -> int {
        match self {
            BoundaryKind::EndPunct => 0,
            BoundaryKind::ClausePunct => 1,
            BoundaryKind::VerbPunct => 2,
            BoundaryKind::VerbClause => 3,
        }
    }
}

/// Index ranges of an executable range list, as integers.
pub open spec fn rrs(v: Seq<(usize, usize)>) -> Seq<(int, int)> {
    Seq::new(v.len(), |k: int| (v[k].0 as int, v[k].1 as int))
}

/// The cut scan: ranges closed where the boundary of the given kind
/// holds between neighbors, the open range starting at `start` and the
/// scan standing at `i`.
pub open spec fn sfb(ms: Seq<TokenModel>, kind: int, start: int, i: int) -> Seq<(int, int)>
    decreases ms.len() - i,
{
    if 1 <= i && i < ms.len() {
        if spec_boundary_of(kind, ms[i - 1], ms[i]) {
            seq![(start, i)] + sfb(ms, kind, i + 1, i + 1)
        } else {
            sfb(ms, kind, start, i + 1)
        }
    } else {
        if start < ms.len() {
            seq![(start, ms.len() - 1)]
        } else {
            Seq::empty()
        }
    }
}

/// The ranges the first cut pass produces.
pub open spec fn spec_find_boundaries(ms: Seq<TokenModel>, kind: int) -> Seq<(int, int)>
    recommends
        ms.len() > 0,
{
    sfb(ms, kind, 0, 1)
}

/// The cut scan inside one range `[seg_start, e]`, standing at `x`.
pub open spec fn srr(ms: Seq<TokenModel>, kind: int, seg_start: int, x: int, e: int) -> Seq<
    (int, int),
>
    decreases e + 1 - x,
{
    if x <= e {
        if 1 <= x < ms.len() && spec_boundary_of(kind, ms[x - 1], ms[x]) {
            seq![(seg_start, x)] + srr(ms, kind, x + 1, x + 1, e)
        } else {
            srr(ms, kind, seg_start, x + 1, e)
        }
    } else {
        if seg_start <= e {
            seq![(seg_start, e)]
        } else {
            Seq::empty()
        }
    }
}

/// The ranges a refining pass produces: every range is split at the
/// given boundary — every range, or only those longer than the
/// threshold.
pub open spec fn spec_refine(
    ms: Seq<TokenModel>,
    bounds: Seq<(int, int)>,
    kind: int,
    long_only: bool,
    threshold: int,
) -> Seq<(int, int)>
    decreases bounds.len(),
{
    if bounds.len() == 0 {
        Seq::empty()
    } else {
        (if long_only && bounds[0].1 - bounds[0].0 <= threshold {
            seq![(bounds[0].0, bounds[0].1)]
        } else {
            srr(ms, kind, bounds[0].0, bounds[0].0 + 1, bounds[0].1)
        }) + spec_refine(ms, bounds.drop_first(), kind, long_only, threshold)
    }
}

/// Whether a range holds a verb token (a `VERB` tag whose last
/// syllable is not a dagdra particle).
pub open spec fn range_has_verb(ms: Seq<TokenModel>, s: int, e: int) -> bool {
    exists|k: int|
        s <= k <= e && ((#[trigger] ms[k]).pos == Some("VERB"@) && !spec_has_last_syl(
            ms[k],
            spec_dagdra_syls(),
        ))
}

/// The joining pass, standing at range `i`: a short verb-less range
/// merges into the next range when its last token ends in a clause
/// boundary, else into the previous one unless that ends in an ending
/// particle; a merged range is examined again.
pub open spec fn sjoin(ms: Seq<TokenModel>, bs: Seq<(int, int)>, i: int, th: int) -> Seq<
    (int, int),
>
    decreases bs.len() - i,
{
    if 0 <= i && i < bs.len() {
        let st = bs[i].0;
        let e = bs[i].1;
        let short = e - st + 1 <= th && !range_has_verb(ms, st, e);
        if short && i + 1 < bs.len() && 0 <= e < ms.len() && spec_has_last_syl(
            ms[e],
            spec_clause_boundaries(),
        ) {
            sjoin(ms, bs.update(i, (st, bs[i + 1].1)).remove(i + 1), i, th)
        } else if short && i > 0 && 0 <= bs[i - 1].1 < ms.len() && !spec_has_last_syl(
            ms[bs[i - 1].1],
            spec_ending_particles(),
        ) {
            sjoin(ms, bs.update(i - 1, (bs[i - 1].0, e)).remove(i), i, th)
        } else {
            sjoin(ms, bs, i + 1, th)
        }
    } else {
        bs
    }
}

/// The ranges the joining pass produces.
pub open spec fn spec_join(ms: Seq<TokenModel>, bs: Seq<(int, int)>, th: int) -> Seq<
    (int, int),
> {
    sjoin(ms, bs, 0, th)
}

/// The sentence ranges of a token list: the four cut passes, then the
/// joining of short verb-less ranges.
pub open spec fn spec_sentence_indices(ms: Seq<TokenModel>) -> Seq<(int, int)>
    recommends
        ms.len() > 0,
{
    spec_join(
        ms,
        spec_refine(
            ms,
            spec_refine(
                ms,
                spec_refine(ms, spec_find_boundaries(ms, 0), 1, false, 0),
                2,
                false,
                0,
            ),
            3,
            true,
            30,
        ),
        4,
    )
}

fn boundary_test(kind: &BoundaryKind, t1: &Token, t2: &Token) -> (r: bool)
    ensures
        r == spec_boundary_of(kind.id(), tmodel(*t1), tmodel(*t2)),
{
    match kind {
        BoundaryKind::EndPunct => is_ending_particle_and_punct(t1, t2),
        BoundaryKind::ClausePunct => is_clause_boundary_and_punct(t1, t2),
        BoundaryKind::VerbPunct => is_verb_and_punct(t1, t2),
        BoundaryKind::VerbClause => is_verb_and_clause_boundary(t1, t2),
    }
}

/// A prefix of a partition: contiguous non-empty ranges from zero up to
/// `next`.
pub open spec fn ranges_prefix(bs: Seq<(usize, usize)>, next: int) -> bool {
    &&& (bs.len() == 0 ==> next == 0)
    &&& (bs.len() > 0 ==> bs[0].0 == 0 && bs[bs.len() - 1].1 + 1 == next)
    &&& forall|k: int| 0 <= k < bs.len() ==> (#[trigger] bs[k]).0 <= bs[k].1
    &&& forall|k: int| 0 <= k < bs.len() - 1 ==> (#[trigger] bs[k + 1]).0 == bs[k].1 + 1
}

/// Cut the whole token list where the given boundary holds; the pieces
/// partition the list.
fn find_boundaries(tokens: &Vec<Token>, kind: BoundaryKind) -> (r: Vec<(usize, usize)>)
    requires
        tokens@.len() > 0,
    ensures
        ranges_partition(r@, tokens@.len() as nat),
        rrs(r@) == spec_find_boundaries(tmodels(tokens@), kind.id()),
{
    let ghost ms = tmodels(tokens@);
    let ghost kid = kind.id();
    let ghost goal = spec_find_boundaries(ms, kid);
    let n = tokens.len();
    let mut boundaries: Vec<(usize, usize)> = Vec::new();
    let mut start: usize = 0;
    let mut i: usize = 1;
    proof {
        assert(rrs(boundaries@) =~= Seq::<(int, int)>::empty());
        assert(goal == rrs(boundaries@) + sfb(ms, kid, 0, 1));
    }
    while i < n
        invariant
            1 <= i <= n,
            n == tokens@.len(),
            ms == tmodels(tokens@),
            kid == kind.id(),
            goal == spec_find_boundaries(ms, kid),
            start <= i,
            ranges_prefix(boundaries@, start as int),
            forall|k: int| 0 <= k < boundaries@.len() ==> (#[trigger] boundaries@[k]).1 < n,
            goal == rrs(boundaries@) + sfb(ms, kid, start as int, i as int),
        decreases n - i,
    {
        proof {
            assert(ms[i - 1] == tmodel(tokens@[i - 1]));
            assert(ms[i as int] == tmodel(tokens@[i as int]));
        }
        if boundary_test(&kind, &tokens[i - 1], &tokens[i]) {
            let ghost pre = boundaries@;
            boundaries.push((start, i));
            proof {
                assert(forall|k: int|
                    0 <= k < pre.len() ==> (#[trigger] boundaries@[k]) == pre[k]);
                assert(boundaries@[pre.len() as int] == (start, i));
                assert(sfb(ms, kid, start as int, i as int) == seq![(start as int, i as int)]
                    + sfb(ms, kid, i + 1, i + 1));
                assert(rrs(boundaries@) =~= rrs(pre).push((start as int, i as int)));
                assert(rrs(pre).push((start as int, i as int)) + sfb(ms, kid, i + 1, i + 1)
                    =~= rrs(pre) + (seq![(start as int, i as int)] + sfb(
                    ms,
                    kid,
                    i + 1,
                    i + 1,
                )));
            }
            start = i + 1;
        } else {
            proof {
                assert(sfb(ms, kid, start as int, i as int) == sfb(
                    ms,
                    kid,
                    start as int,
                    i + 1,
                ));
            }
        }
        i = i + 1;
    }
    proof {
        assert(sfb(ms, kid, start as int, n as int) == (if (start as int) < ms.len() {
            seq![(start as int, ms.len() - 1)]
        } else {
            Seq::<(int, int)>::empty()
        }));
    }
    if start < n {
        let ghost pre = boundaries@;
        boundaries.push((start, n - 1));
        proof {
            assert(forall|k: int|
                0 <= k < pre.len() ==> (#[trigger] boundaries@[k]) == pre[k]);
            assert(boundaries@[pre.len() as int] == (start, (n - 1) as usize));
            assert(rrs(boundaries@) =~= rrs(pre).push((start as int, n - 1 as int)));
            assert(rrs(pre).push((start as int, n - 1 as int)) =~= rrs(pre) + seq![
                (start as int, n - 1 as int),
            ]);
        }
    } else {
        proof {
            assert(rrs(boundaries@) =~= rrs(boundaries@) + Seq::<(int, int)>::empty());
        }
    }
    proof {
        assert(boundaries@.len() > 0);
        assert(ranges_partition(boundaries@, n as nat));
    }
    boundaries
}

/// Split every range of a partition at the given boundary — every
/// range, or only the ones longer than the threshold; the result is
/// again a partition.
#[verifier::rlimit(100)]
fn refine_at_boundaries(
    tokens: &Vec<Token>,
    boundaries: &Vec<(usize, usize)>,
    kind: BoundaryKind,
    long_only: bool,
    threshold: usize,
) -> (r: Vec<(usize, usize)>)
    requires
        ranges_partition(boundaries@, tokens@.len() as nat),
    ensures
        ranges_partition(r@, tokens@.len() as nat),
        rrs(r@) == spec_refine(
            tmodels(tokens@),
            rrs(boundaries@),
            kind.id(),
            long_only,
            threshold as int,
        ),
{
    let ghost ms = tmodels(tokens@);
    let ghost kid = kind.id();
    let ghost th = threshold as int;
    let ghost goal = spec_refine(ms, rrs(boundaries@), kid, long_only, th);
    let n = tokens.len();
    let mut result: Vec<(usize, usize)> = Vec::new();
    let mut bi: usize = 0;
    proof {
        assert(rrs(boundaries@).skip(0) =~= rrs(boundaries@));
        assert(rrs(result@) =~= Seq::<(int, int)>::empty());
        assert(rrs(result@) + spec_refine(ms, rrs(boundaries@), kid, long_only, th) =~= goal);
    }
    while bi < boundaries.len()
        invariant
            bi <= boundaries@.len(),
            n == tokens@.len(),
            ms == tmodels(tokens@),
            kid == kind.id(),
            th == threshold as int,
            goal == spec_refine(ms, rrs(boundaries@), kid, long_only, th),
            ranges_partition(boundaries@, n as nat),
            ranges_prefix(
                result@,
                if bi == 0 {
                    0int
                } else {
                    boundaries@[bi - 1].1 + 1
                },
            ),
            forall|k: int| 0 <= k < result@.len() ==> (#[trigger] result@[k]).1 < n,
            goal == rrs(result@) + spec_refine(
                ms,
                rrs(boundaries@).skip(bi as int),
                kid,
                long_only,
                th,
            ),
        decreases boundaries@.len() - bi,
    {
        let (s, e) = boundaries[bi];
        let ghost bsk = rrs(boundaries@).skip(bi as int);
        proof {
            assert(boundaries@[bi as int].0 <= boundaries@[bi as int].1 < n);
            if bi > 0 {
                assert(boundaries@[(bi - 1) + 1].0 == boundaries@[(bi - 1) as int].1 + 1);
            }
            assert(bsk[0] == (s as int, e as int));
            assert(bsk.drop_first() =~= rrs(boundaries@).skip(bi + 1));
        }
        let ghost rest = spec_refine(ms, rrs(boundaries@).skip(bi + 1), kid, long_only, th);
        if long_only && e - s <= threshold {
            proof {
                assert(spec_refine(ms, bsk, kid, long_only, th) == seq![(s as int, e as int)]
                    + rest);
            }
            let ghost pre = result@;
            result.push((s, e));
            proof {
                assert(forall|k: int|
                    0 <= k < pre.len() ==> (#[trigger] result@[k]) == pre[k]);
                assert(result@[pre.len() as int] == (s, e));
                assert(rrs(result@) =~= rrs(pre).push((s as int, e as int)));
                assert(rrs(pre) + (seq![(s as int, e as int)] + rest) =~= rrs(result@) + rest);
            }
        } else {
            proof {
                if long_only {
                    assert(!(bsk[0].1 - bsk[0].0 <= th));
                }
                assert(spec_refine(ms, bsk, kid, long_only, th) == srr(
                    ms,
                    kid,
                    s as int,
                    s + 1,
                    e as int,
                ) + rest);
                assert(rrs(result@) + (srr(ms, kid, s as int, s + 1, e as int) + rest)
                    =~= rrs(result@) + srr(ms, kid, s as int, s + 1, e as int) + rest);
            }
            let mut seg_start = s;
            let mut x = s + 1;
            while x <= e
                invariant
                    s <= seg_start <= x <= e + 1,
                    x >= s + 1,
                    e < n,
                    n == tokens@.len(),
                    ms == tmodels(tokens@),
                    kid == kind.id(),
                    ranges_prefix(result@, seg_start as int),
                    forall|k: int| 0 <= k < result@.len() ==> (#[trigger] result@[k]).1 < n,
                    goal == rrs(result@) + srr(ms, kid, seg_start as int, x as int, e as int)
                        + rest,
                decreases e + 1 - x,
            {
                proof {
                    assert(ms[x - 1] == tmodel(tokens@[x - 1]));
                    assert(ms[x as int] == tmodel(tokens@[x as int]));
                }
                if boundary_test(&kind, &tokens[x - 1], &tokens[x]) {
                    proof {
                        assert(srr(ms, kid, seg_start as int, x as int, e as int) == seq![
                            (seg_start as int, x as int),
                        ] + srr(ms, kid, x + 1, x + 1, e as int));
                    }
                    let ghost pre = result@;
                    result.push((seg_start, x));
                    proof {
                        assert(forall|k: int|
                            0 <= k < pre.len() ==> (#[trigger] result@[k]) == pre[k]);
                        assert(result@[pre.len() as int] == (seg_start, x));
                        assert(rrs(result@) =~= rrs(pre).push((seg_start as int, x as int)));
                        assert(rrs(pre) + (seq![(seg_start as int, x as int)] + srr(
                            ms,
                            kid,
                            x + 1,
                            x + 1,
                            e as int,
                        )) =~= rrs(result@) + srr(ms, kid, x + 1, x + 1, e as int));
                        assert(rrs(pre) + (seq![(seg_start as int, x as int)] + srr(
                            ms,
                            kid,
                            x + 1,
                            x + 1,
                            e as int,
                        )) + rest =~= rrs(result@) + srr(ms, kid, x + 1, x + 1, e as int)
                            + rest);
                        assert(rrs(pre) + seq![(seg_start as int, x as int)] + srr(
                            ms,
                            kid,
                            x + 1,
                            x + 1,
                            e as int,
                        ) + rest =~= rrs(pre) + (seq![(seg_start as int, x as int)] + srr(
                            ms,
                            kid,
                            x + 1,
                            x + 1,
                            e as int,
                        )) + rest);
                    }
                    seg_start = x + 1;
                } else {
                    proof {
                        assert(srr(ms, kid, seg_start as int, x as int, e as int) == srr(
                            ms,
                            kid,
                            seg_start as int,
                            x + 1,
                            e as int,
                        ));
                    }
                }
                x = x + 1;
            }
            proof {
                assert(srr(ms, kid, seg_start as int, x as int, e as int) == (
                if seg_start as int <= e as int {
                    seq![(seg_start as int, e as int)]
                } else {
                    Seq::<(int, int)>::empty()
                }));
            }
            if seg_start <= e {
                let ghost pre = result@;
                result.push((seg_start, e));
                proof {
                    assert(forall|k: int|
                        0 <= k < pre.len() ==> (#[trigger] result@[k]) == pre[k]);
                    assert(result@[pre.len() as int] == (seg_start, e));
                    assert(rrs(result@) =~= rrs(pre).push((seg_start as int, e as int)));
                    assert(rrs(pre) + seq![(seg_start as int, e as int)] + rest =~= rrs(
                        result@,
                    ) + rest);
                }
            } else {
                proof {
                    assert(rrs(result@) + Seq::<(int, int)>::empty() + rest =~= rrs(result@)
                        + rest);
                }
            }
        }
        bi = bi + 1;
    }
    proof {
        assert(rrs(boundaries@).skip(boundaries@.len() as int)
            =~= Seq::<(int, int)>::empty());
        assert(rrs(result@) + Seq::<(int, int)>::empty() =~= rrs(result@));
    }
    proof {
        if boundaries@.len() > 0 {
            assert(boundaries@[boundaries@.len() - 1].1 + 1 == n);
        }
        assert(ranges_partition(result@, n as nat));
    }
    result
}

/// Join short verb-less ranges with a neighbor; the result is again a
/// partition.
fn join_no_verb_sentences(
    tokens: &Vec<Token>,
    boundaries: &Vec<(usize, usize)>,
    threshold: usize,
) -> (r: Vec<(usize, usize)>)
    requires
        ranges_partition(boundaries@, tokens@.len() as nat),
    ensures
        ranges_partition(r@, tokens@.len() as nat),
        rrs(r@) == spec_join(tmodels(tokens@), rrs(boundaries@), threshold as int),
{
    let ghost ms = tmodels(tokens@);
    let ghost th = threshold as int;
    let ghost goal = spec_join(ms, rrs(boundaries@), th);
    let n = tokens.len();
    let mut result: Vec<(usize, usize)> = Vec::new();
    let mut c: usize = 0;
    while c < boundaries.len()
        invariant
            c <= boundaries@.len(),
            result@ == boundaries@.take(c as int),
        decreases boundaries@.len() - c,
    {
        result.push(boundaries[c]);
        proof {
            assert(result@ =~= boundaries@.take(c + 1 as int));
        }
        c = c + 1;
    }
    proof {
        assert(boundaries@.take(boundaries@.len() as int) =~= boundaries@);
        assert(rrs(result@) =~= rrs(boundaries@));
    }
    let mut i: usize = 0;
    while i < result.len()
        invariant
            n == tokens@.len(),
            ms == tmodels(tokens@),
            th == threshold as int,
            i <= result@.len(),
            ranges_partition(result@, n as nat),
            goal == sjoin(ms, rrs(result@), i as int, th),
        decreases result@.len() - i, result@.len(),
    {
        let (s, e) = result[i];
        let ghost brs = rrs(result@);
        proof {
            assert(result@[i as int].0 <= result@[i as int].1 < n);
            assert(brs[i as int] == (s as int, e as int));
        }
        let length = e - s + 1;
        let mut has_verb = false;
        let dag = dagdra_syls();
        let mut t: usize = s;
        while t <= e
            invariant
                s <= t <= e + 1,
                e < n,
                n == tokens@.len(),
                ms == tmodels(tokens@),
                Seq::new(dag@.len(), |j: int| dag@[j]@) == spec_dagdra_syls(),
                has_verb == exists|k: int|
                    s <= k < t && ((#[trigger] ms[k]).pos == Some("VERB"@)
                        && !spec_has_last_syl(ms[k], spec_dagdra_syls())),
            decreases e + 1 - t,
        {
            proof {
                assert(ms[t as int] == tmodel(tokens@[t as int]));
            }
            let ghost before = has_verb;
            if pos_is(&tokens[t], "VERB") && !has_last_syl(&tokens[t], &dag) {
                has_verb = true;
                proof {
                    assert(s as int <= t as int && (t as int) < t + 1 && ms[t as int].pos
                        == Some("VERB"@) && !spec_has_last_syl(
                        ms[t as int],
                        spec_dagdra_syls(),
                    ));
                }
            } else {
                proof {
                    if has_verb {
                        let k = choose|k: int|
                            s <= k < t && ((#[trigger] ms[k]).pos == Some("VERB"@)
                                && !spec_has_last_syl(ms[k], spec_dagdra_syls()));
                        assert(s <= k < t + 1 && ms[k].pos == Some("VERB"@)
                            && !spec_has_last_syl(ms[k], spec_dagdra_syls()));
                    }
                }
            }
            t = t + 1;
        }
        proof {
            assert(has_verb == range_has_verb(ms, s as int, e as int));
        }
        let ghost short = length as int <= th && !range_has_verb(ms, s as int, e as int);
        let mut advanced = true;
        if length <= threshold && !has_verb {
            if i + 1 < result.len() && has_last_syl(&tokens[e], &clause_boundaries()) {
                proof {
                    assert(ms[e as int] == tmodel(tokens@[e as int]));
                }
                let ghost pre = result@;
                let (_s2, e2) = result[i + 1];
                let _ = result.remove(i);
                let _ = result.remove(i);
                result.insert(i, (s, e2));
                proof {
                    assert(forall|k: int| 0 <= k < i ==> (#[trigger] result@[k]) == pre[k]);
                    assert(result@[i as int] == (s, e2));
                    assert(forall|k: int|
                        i < k < result@.len() ==> (#[trigger] result@[k]) == pre[k + 1]);
                    assert(pre[i as int + 1].1 == e2);
                    assert(ranges_partition(result@, n as nat));
                    assert(rrs(result@) =~= brs.update(
                        i as int,
                        (s as int, brs[i + 1].1),
                    ).remove(i + 1));
                    assert(sjoin(ms, brs, i as int, th) == sjoin(
                        ms,
                        rrs(result@),
                        i as int,
                        th,
                    ));
                }
                advanced = false;
            } else if i > 0 {
                let prev_e = result[i - 1].1;
                proof {
                    assert(result@[i - 1].0 <= result@[i - 1].1 < n);
                    assert(brs[i - 1].1 == prev_e as int);
                    assert(ms[prev_e as int] == tmodel(tokens@[prev_e as int]));
                }
                if !has_last_syl(&tokens[prev_e], &ending_particles()) {
                    let ghost pre = result@;
                    let (ps, _pe) = result[i - 1];
                    let _ = result.remove(i);
                    let _ = result.remove(i - 1);
                    result.insert(i - 1, (ps, e));
                    proof {
                        assert(forall|k: int|
                            0 <= k < i - 1 ==> (#[trigger] result@[k]) == pre[k]);
                        assert(result@[i - 1] == (ps, e));
                        assert(forall|k: int|
                            i - 1 < k < result@.len() ==> (#[trigger] result@[k]) == pre[k
                                + 1]);
                        assert(ranges_partition(result@, n as nat));
                        assert(!(i as int + 1 < brs.len() && 0 <= (e as int) && (e as int) < ms.len()
                            && spec_has_last_syl(ms[e as int], spec_clause_boundaries())));
                        assert(rrs(result@) =~= brs.update(
                            i - 1,
                            (brs[i - 1].0, e as int),
                        ).remove(i as int));
                        assert(sjoin(ms, brs, i as int, th) == sjoin(
                            ms,
                            rrs(result@),
                            i as int,
                            th,
                        ));
                    }
                    advanced = false;
                } else {
                    proof {
                        assert(spec_has_last_syl(ms[brs[i - 1].1], spec_ending_particles()));
                    }
                }
            }
        }
        if advanced {
            proof {
                if short {
                    assert(!(i as int + 1 < brs.len() && 0 <= (e as int) && (e as int) < ms.len()
                        && spec_has_last_syl(ms[e as int], spec_clause_boundaries())));
                    assert(!(i as int > 0 && 0 <= brs[i - 1].1 && brs[i - 1].1 < ms.len()
                        && !spec_has_last_syl(ms[brs[i - 1].1], spec_ending_particles())));
                }
                assert(sjoin(ms, brs, i as int, th) == sjoin(ms, brs, i + 1, th));
            }
            i = i + 1;
        }
    }
    proof {
        assert(sjoin(ms, rrs(result@), i as int, th) == rrs(result@));
    }
    result
}

/// The sentence ranges of a token list: the four lexical scans, then
/// the joining of short verb-less stretches.
fn get_sentence_indices(tokens: &Vec<Token>) -> (r: Vec<(usize, usize)>)
    requires
        tokens@.len() > 0,
    ensures
        ranges_partition(r@, tokens@.len() as nat),
        rrs(r@) == spec_sentence_indices(tmodels(tokens@)),
{
    let b1 = find_boundaries(tokens, BoundaryKind::EndPunct);
    let b2 = refine_at_boundaries(tokens, &b1, BoundaryKind::ClausePunct, false, 0);
    let b3 = refine_at_boundaries(tokens, &b2, BoundaryKind::VerbPunct, false, 0);
    let b4 = refine_at_boundaries(tokens, &b3, BoundaryKind::VerbClause, true, 30);
    join_no_verb_sentences(tokens, &b4, 4)
}

/// Extending a range by one token adds that token's word count.
proof fn lemma_word_count_snoc(ts: Seq<Token>, a: int, b: int)
    requires
        a <= b < ts.len(),
        0 <= a,
    ensures
        spec_word_count(ts, a, b + 1) == spec_word_count(ts, a, b) + (if spec_is_word(
            tmodel(ts[b]),
        ) {
            1int
        } else {
            0int
        }),
    decreases b - a,
{
    reveal_with_fuel(spec_word_count, 3);
    if a < b {
        lemma_word_count_snoc(ts, a + 1, b);
    }
}

/// A sentence agrees with position `j` of the sentence ranges of a
/// token list: its range is the `j`-th range, its tokens are models of
/// that range's slice, and its word count counts the word tokens there.
pub open spec fn sent_ok(s: Sentence, toks: Seq<Token>, j: int) -> bool {
    let a = spec_sentence_indices(tmodels(toks))[j].0;
    let b = spec_sentence_indices(tmodels(toks))[j].1;
    s.start_idx as int == a && s.end_idx as int == b && tmodels(s.tokens@) == tmodels(
        toks.subrange(a, b + 1),
    ) && s.word_count as int == spec_word_count(toks, a, b + 1)
}

/// Two sentences carry the same range, word count and token models.
pub open spec fn sent_like(a: Sentence, b: Sentence) -> bool {
    a.start_idx == b.start_idx && a.end_idx == b.end_idx && a.word_count == b.word_count
        && tmodels(a.tokens@) == tmodels(b.tokens@)
}

/// Elementwise `sent_like` over two sentence lists.
pub open spec fn sents_like(x: Seq<Sentence>, y: Seq<Sentence>) -> bool {
    x.len() == y.len() && forall|k: int| 0 <= k < x.len() ==> sent_like(#[trigger] x[k], y[k])
}

/// The paragraphs' sentence lists, concatenated in order.
pub open spec fn flat_sentences(ps: Seq<Paragraph>) -> Seq<Sentence>
    decreases ps.len(),
{
    if ps.len() == 0 {
        Seq::empty()
    } else {
        flat_sentences(ps.drop_last()) + ps.last().sentences@
    }
}

/// Group the tokens into sentences: the ranges partition the token
/// list, each sentence copies its range's tokens, and its word count
/// is the number of word tokens in the range.
pub fn sentence_tokenize(tokens: &Vec<Token>) -> (r: Vec<Sentence>)
    ensures
        (r@.len() == 0) == (tokens@.len() == 0),
        r@.len() > 0 ==> r@[0].start_idx == 0 && r@[r@.len() - 1].end_idx + 1
            == tokens@.len(),
        forall|k: int|
            0 <= k < r@.len() - 1 ==> (#[trigger] r@[k + 1]).start_idx == r@[k].end_idx + 1,
        forall|k: int|
            0 <= k < r@.len() ==> (#[trigger] r@[k]).start_idx <= r@[k].end_idx
                < tokens@.len() && tmodels(r@[k].tokens@) == tmodels(
                tokens@.subrange(r@[k].start_idx as int, r@[k].end_idx + 1),
            ) && r@[k].word_count as int == spec_word_count(
                tokens@,
                r@[k].start_idx as int,
                r@[k].end_idx + 1,
            ),
        tokens@.len() > 0 ==> r@.len() == spec_sentence_indices(tmodels(tokens@)).len(),
        forall|k: int|
            0 <= k < r@.len() ==> (#[trigger] r@[k]).start_idx as int
                == spec_sentence_indices(tmodels(tokens@))[k].0 && r@[k].end_idx as int
                == spec_sentence_indices(tmodels(tokens@))[k].1,
{
    let mut out: Vec<Sentence> = Vec::new();
    if tokens.len() == 0 {
        return out;
    }
    let indices = get_sentence_indices(tokens);
    let mut bi: usize = 0;
    while bi < indices.len()
        invariant
            bi <= indices@.len(),
            ranges_partition(indices@, tokens@.len() as nat),
            rrs(indices@) == spec_sentence_indices(tmodels(tokens@)),
            out@.len() == bi,
            forall|k: int|
                0 <= k < bi ==> (#[trigger] out@[k]).start_idx == indices@[k].0 && out@[
                k].end_idx == indices@[k].1,
            forall|k: int|
                0 <= k < bi ==> (#[trigger] out@[k]).start_idx <= out@[k].end_idx
                    < tokens@.len() && tmodels(out@[k].tokens@) == tmodels(
                    tokens@.subrange(out@[k].start_idx as int, out@[k].end_idx + 1),
                ) && out@[k].word_count as int == spec_word_count(
                    tokens@,
                    out@[k].start_idx as int,
                    out@[k].end_idx + 1,
                ),
        decreases indices@.len() - bi,
    {
        let (s, e) = indices[bi];
        proof {
            assert(indices@[bi as int].0 <= indices@[bi as int].1 < tokens@.len());
            if bi > 0 {
                assert(indices@[(bi - 1) + 1].0 == indices@[(bi - 1) as int].1 + 1);
            }
        }
        let mut copied: Vec<Token> = Vec::new();
        let mut wc: usize = 0;
        let mut t: usize = s;
        let nn = tokens.len();
        proof {
            assert(tmodels(copied@) =~= tmodels(tokens@.subrange(s as int, s as int)));
        }
        while t <= e
            invariant
                s <= t <= e + 1,
                e < nn,
                nn == tokens@.len(),
                e < tokens@.len(),
                tmodels(copied@) == tmodels(tokens@.subrange(s as int, t as int)),
                copied@.len() == t - s,
                wc as int == spec_word_count(tokens@, s as int, t as int),
                wc <= t - s,
            decreases e + 1 - t,
        {
            let tok = crate::tokenizer::clone_token_pub(&tokens[t]);
            if is_word(&tokens[t]) {
                wc = wc + 1;
            }
            let ghost copied_pre = copied@;
            copied.push(tok);
            proof {
                lemma_word_count_snoc(tokens@, s as int, t as int);
                assert(tmodels(copied@) =~= tmodels(copied_pre).push(
                    tmodel(tokens@[t as int]),
                ));
                assert(tmodels(tokens@.subrange(s as int, t + 1 as int)) =~= tmodels(
                    tokens@.subrange(s as int, t as int),
                ).push(tmodel(tokens@[t as int])));
            }
            t = t + 1;
        }
        out.push(Sentence { tokens: copied, word_count: wc, start_idx: s, end_idx: e });
        bi = bi + 1;
    }
    proof {
        assert(out@.len() > 0);
        assert(forall|k: int|
            0 <= k < out@.len() ==> rrs(indices@)[k] == ((#[trigger] indices@[k]).0 as int,
            indices@[k].1 as int));
    }
    out
}

/// Total word count of a run of sentences.
pub open spec fn spec_sent_wc_sum(ss: Seq<Sentence>) -> int
    decreases ss.len(),
{
    if ss.len() == 0 {
        0
    } else {
        spec_sent_wc_sum(ss.drop_last()) + ss.last().word_count as int
    }
}

/// Group the sentences of a token list into paragraphs: every
/// paragraph holds at least one sentence, its word count is the sum of
/// its sentences' counts (as long as that fits), and every paragraph
/// but the last closed either because it reached seventy word tokens
/// or because the next sentence would have pushed it past one hundred
/// and fifty.
pub fn paragraph_tokenize(tokens: &Vec<Token>) -> (r: Vec<Paragraph>)
    ensures
        (r@.len() == 0) == (tokens@.len() == 0),
        forall|p: int| 0 <= p < r@.len() ==> (#[trigger] r@[p]).sentences@.len() > 0,
        forall|p: int|
            0 <= p < r@.len() && spec_sent_wc_sum(r@[p].sentences@) <= usize::MAX ==> (
            #[trigger] r@[p]).word_count as int == spec_sent_wc_sum(r@[p].sentences@),
        forall|p: int|
            0 <= p < r@.len() - 1 ==> (#[trigger] r@[p]).word_count >= 70 || r@[
            p].word_count + r@[p + 1].sentences@[0].word_count > 150,
        tokens@.len() > 0 ==> flat_sentences(r@).len() == spec_sentence_indices(
            tmodels(tokens@),
        ).len(),
        forall|j: int|
            0 <= j < flat_sentences(r@).len() ==> sent_ok(
                #[trigger] flat_sentences(r@)[j],
                tokens@,
                j,
            ),
{
    let sentences = sentence_tokenize(tokens);
    let mut paragraphs: Vec<Paragraph> = Vec::new();
    let mut current: Vec<Sentence> = Vec::new();
    let mut current_wc: usize = 0;
    let mut i: usize = 0;
    proof {
        assert(spec_sent_wc_sum(current@) == 0);
        assert(flat_sentences(paragraphs@) + current@ =~= sentences@.take(0));
        assert(sents_like(flat_sentences(paragraphs@) + current@, sentences@.take(0)));
        assert(forall|k: int|
            0 <= k < sentences@.len() ==> sent_ok(#[trigger] sentences@[k], tokens@, k));
    }
    while i < sentences.len()
        invariant
            i <= sentences@.len(),
            (sentences@.len() == 0) == (tokens@.len() == 0),
            spec_sent_wc_sum(current@) <= usize::MAX ==> current_wc as int
                == spec_sent_wc_sum(current@),
            current_wc < 70,
            i == 0 ==> current@.len() == 0 && paragraphs@.len() == 0,
            i > 0 ==> current@.len() > 0 || paragraphs@.len() > 0,
            forall|p: int|
                0 <= p < paragraphs@.len() ==> (#[trigger] paragraphs@[p]).sentences@.len()
                    > 0,
            forall|p: int|
                0 <= p < paragraphs@.len() && spec_sent_wc_sum(
                    paragraphs@[p].sentences@,
                ) <= usize::MAX ==> (#[trigger] paragraphs@[p]).word_count as int
                    == spec_sent_wc_sum(paragraphs@[p].sentences@),
            forall|p: int|
                0 <= p < paragraphs@.len() - 1 ==> (#[trigger] paragraphs@[p]).word_count
                    >= 70 || paragraphs@[p].word_count + paragraphs@[p
                    + 1].sentences@[0].word_count > 150,
            current@.len() > 0 ==> (forall|p: int|
                p == paragraphs@.len() - 1 && 0 <= p ==> (#[trigger] paragraphs@[
                p]).word_count >= 70 || paragraphs@[p].word_count + current@[0].word_count
                    > 150),
            current@.len() == 0 && paragraphs@.len() > 0 ==> paragraphs@.last().word_count
                >= 70,
            sents_like(flat_sentences(paragraphs@) + current@, sentences@.take(i as int)),
            tokens@.len() > 0 ==> sentences@.len() == spec_sentence_indices(
                tmodels(tokens@),
            ).len(),
            forall|k: int|
                0 <= k < sentences@.len() ==> sent_ok(#[trigger] sentences@[k], tokens@, k),
        decreases sentences@.len() - i,
    {
        let ghost cat0 = flat_sentences(paragraphs@) + current@;
        let s_wc = sentences[i].word_count;
        let would_exceed = if s_wc <= usize::MAX - current_wc {
            current_wc + s_wc > 150
        } else {
            true
        };
        let ghost closed_by_exceed = would_exceed && current@.len() > 0;
        let ghost wc_before_close = current_wc;
        if would_exceed && current.len() > 0 {
            let ghost cur_g = current@;
            let para = Paragraph { sentences: current, word_count: current_wc };
            let ghost ppre = paragraphs@;
            paragraphs.push(para);
            proof {
                assert(forall|p: int|
                    0 <= p < ppre.len() ==> (#[trigger] paragraphs@[p]) == ppre[p]);
                assert(paragraphs@[ppre.len() as int].sentences@ == cur_g);
                assert(paragraphs@[ppre.len() as int].word_count == wc_before_close);
                assert(paragraphs@.last().sentences@[0] == cur_g[0]);
                assert(paragraphs@.drop_last() =~= ppre);
                assert(flat_sentences(paragraphs@) == flat_sentences(ppre) + cur_g);
            }
            current = Vec::new();
            current_wc = 0;
            proof {
                assert(spec_sent_wc_sum(current@) == 0);
                assert(flat_sentences(paragraphs@) + current@ =~= cat0);
            }
        }
        let s = take_sentence(&sentences, i);
        let ghost cpre = current@;
        let new_wc = if s_wc <= usize::MAX - current_wc {
            current_wc + s_wc
        } else {
            usize::MAX
        };
        current.push(s);
        current_wc = new_wc;
        proof {
            assert(current@.drop_last() =~= cpre);
            assert(current@.last().word_count == s_wc);
            assert(sent_like(current@.last(), sentences@[i as int]));
            assert(flat_sentences(paragraphs@) + current@ =~= cat0.push(current@.last()));
            assert(sentences@.take(i + 1) =~= sentences@.take(i as int).push(
                sentences@[i as int],
            ));
            assert(sents_like(
                flat_sentences(paragraphs@) + current@,
                sentences@.take(i + 1),
            ));
            if cpre.len() > 0 {
                assert(current@[0] == cpre[0]);
            } else {
                assert(current@[0].word_count == s_wc);
            }
            if closed_by_exceed {
                // the paragraph just closed held fewer than seventy
                // words, and this sentence would have pushed it past
                // one hundred and fifty
                if s_wc <= usize::MAX - wc_before_close {
                    assert(wc_before_close + s_wc > 150);
                } else {
                    assert(wc_before_close as int + s_wc as int > usize::MAX as int);
                }
                assert(paragraphs@.last().word_count as int + current@[0].word_count as int
                    > 150);
            }
        }
        if current_wc >= 70 {
            let ghost cur_g = current@;
            let para = Paragraph { sentences: current, word_count: current_wc };
            let ghost ppre = paragraphs@;
            paragraphs.push(para);
            proof {
                assert(forall|p: int|
                    0 <= p < ppre.len() ==> (#[trigger] paragraphs@[p]) == ppre[p]);
                assert(paragraphs@[ppre.len() as int].sentences@ == cur_g);
                assert(paragraphs@.last().word_count >= 70);
                assert(paragraphs@.drop_last() =~= ppre);
                assert(flat_sentences(paragraphs@) == flat_sentences(ppre) + cur_g);
            }
            current = Vec::new();
            current_wc = 0;
            proof {
                assert(spec_sent_wc_sum(current@) == 0);
                assert(flat_sentences(paragraphs@) + current@ =~= flat_sentences(ppre)
                    + cur_g);
            }
        }
        i = i + 1;
    }
    proof {
        assert(sentences@.take(sentences@.len() as int) =~= sentences@);
    }
    if current.len() > 0 {
        let ghost cur_g = current@;
        let ghost ppre = paragraphs@;
        paragraphs.push(Paragraph { sentences: current, word_count: current_wc });
        proof {
            assert(forall|p: int|
                0 <= p < ppre.len() ==> (#[trigger] paragraphs@[p]) == ppre[p]);
            assert(paragraphs@[ppre.len() as int].sentences@ == cur_g);
            assert(paragraphs@.drop_last() =~= ppre);
            assert(flat_sentences(paragraphs@) == flat_sentences(ppre) + cur_g);
            assert(sents_like(flat_sentences(paragraphs@), sentences@));
        }
    } else {
        proof {
            assert(flat_sentences(paragraphs@) =~= flat_sentences(paragraphs@)
                + current@);
            assert(sents_like(flat_sentences(paragraphs@), sentences@));
        }
    }
    proof {
        let fs = flat_sentences(paragraphs@);
        assert(forall|j: int|
            0 <= j < fs.len() ==> sent_like(#[trigger] fs[j], sentences@[j]));
        assert(forall|j: int| 0 <= j < fs.len() ==> sent_ok(#[trigger] fs[j], tokens@, j));
    }
    paragraphs
}

/// A copy of one sentence, keeping its counts and range.
fn take_sentence(sentences: &Vec<Sentence>, i: usize) -> (r: Sentence)
    requires
        i < sentences@.len(),
    ensures
        r.word_count == sentences@[i as int].word_count,
        r.start_idx == sentences@[i as int].start_idx,
        r.end_idx == sentences@[i as int].end_idx,
        tmodels(r.tokens@) == tmodels(sentences@[i as int].tokens@),
{
    let src = &sentences[i];
    let mut toks: Vec<Token> = Vec::new();
    let mut t: usize = 0;
    proof {
        assert(tmodels(toks@) =~= tmodels(src.tokens@.take(0)));
    }
    while t < src.tokens.len()
        invariant
            t <= src.tokens@.len(),
            src == sentences@[i as int],
            tmodels(toks@) == tmodels(src.tokens@.take(t as int)),
        decreases src.tokens@.len() - t,
    {
        let ghost pre = toks@;
        toks.push(crate::tokenizer::clone_token_pub(&src.tokens[t]));
        proof {
            assert(tmodels(toks@) =~= tmodels(pre).push(tmodel(src.tokens@[t as int])));
            assert(tmodels(src.tokens@.take(t + 1)) =~= tmodels(
                src.tokens@.take(t as int),
            ).push(tmodel(src.tokens@[t as int])));
        }
        t = t + 1;
    }
    proof {
        assert(src.tokens@.take(src.tokens@.len() as int) =~= src.tokens@);
    }
    Sentence {
        tokens: toks,
        word_count: src.word_count,
        start_idx: src.start_idx,
        end_idx: src.end_idx,
    }
}

} // verus!

