//! The longest-match tokenizer.
//!
//! The tokenizer normalizes its input, cuts it into chunks, and walks
//! the chunk stream against the trie: at each syllable chunk it takes
//! the longest dictionary word that starts there, and falls back to a
//! single-syllable token tagged `NO_POS` when no word matches. The
//! specification functions below define the exact raw token stream.

use vstd::prelude::*;
use std::sync::Arc;
use unicode_normalization::UnicodeNormalization;

use crate::chunker::{Chunk, ChunkModel, chunk_matches, spec_chunks, lemma_chunks_from_cover, lemma_transparent_end, transparent_end};
use crate::strutil::{byte_len, lemma_byte_len_take_succ, lemma_byte_len_take_monotone, lemma_char_utf8_len_bounds, clone_opt_string};
use crate::token::{views_of, ChunkType, Token};
use crate::trie::{lookup_children, spec_node_at, Trie, TrieNode};

verus! {

/// What an output token must hold; strings by their characters.
pub ghost struct TokenModel {
    /// The raw text
    pub text: Seq<char>,
    /// Starting byte offset
    pub start: int,
    /// Length in bytes
    pub len: int,
    /// The kind of text
    pub chunk_type: ChunkType,
    /// Part of speech
    pub pos: Option<Seq<char>>,
    /// Lemma
    pub lemma: Option<Seq<char>>,
    /// Frequency
    pub freq: Option<u32>,
    /// Syllables
    pub syls: Seq<Seq<char>>,
    /// Sanskrit flag
    pub is_skrt: bool,
    /// Senses, as stored in the trie
    pub senses: Seq<crate::token::Sense>,
    /// Affixation carried over from the matched word
    pub affixation: Option<crate::token::AffixationInfo>,
    /// Whether this token is a split-off particle
    pub is_affix: bool,
    /// Whether this token hosts a split-off particle
    pub is_affix_host: bool,
    /// Whether a dagdra particle was merged into this token
    pub has_merged_dagdra: bool,
}

/// The model of a token: every field, strings by their characters.
pub open spec fn tmodel(t: Token) -> TokenModel {
    TokenModel {
        text: t.text@,
        start: t.start as int,
        len: t.len as int,
        chunk_type: t.chunk_type,
        pos: opt_str_view(t.pos),
        lemma: opt_str_view(t.lemma),
        freq: t.freq,
        syls: views_of(t.syls@),
        is_skrt: t.is_skrt,
        senses: t.senses@,
        affixation: t.affixation,
        is_affix: t.is_affix,
        is_affix_host: t.is_affix_host,
        has_merged_dagdra: t.has_merged_dagdra,
    }
}

/// The models of a token list.
pub open spec fn tmodels(ts: Seq<Token>) -> Seq<TokenModel> {
    Seq::new(ts.len(), |i: int| tmodel(ts[i]))
}

/// View of an optional string.
pub open spec fn opt_str_view(o: Option<String>) -> Option<Seq<char>> {
    match o {
        Some(s) => Some(s@),
        None => None,
    }
}

/// Whether a token is exactly the model, with fresh (false) affix and
/// dagdra flags.
#[verifier::opaque]
pub open spec fn token_matches(t: Token, m: TokenModel) -> bool {
    &&& t.text@ == m.text
    &&& t.start as int == m.start
    &&& t.len as int == m.len
    &&& t.chunk_type == m.chunk_type
    &&& opt_str_view(t.pos) == m.pos
    &&& opt_str_view(t.lemma) == m.lemma
    &&& t.freq == m.freq
    &&& views_of(t.syls@) == m.syls
    &&& t.is_affix == m.is_affix
    &&& t.is_affix_host == m.is_affix_host
    &&& t.is_skrt == m.is_skrt
    &&& t.senses@ == m.senses
    &&& t.affixation == m.affixation
    &&& t.has_merged_dagdra == m.has_merged_dagdra
}

/// The syllable of an executable chunk, by characters.
pub open spec fn chunk_syl(c: Chunk) -> Option<Seq<char>> {
    match c.syl {
        Some(s) => Some(s@),
        None => None,
    }
}

/// The character index whose byte offset is `byte`.
#[verifier::opaque]
pub open spec fn char_of_byte(s: Seq<char>, byte: int) -> int {
    choose|a: int| 0 <= a <= s.len() && byte_len(s.take(a)) == byte
}

/// Byte offsets of distinct character boundaries differ.
pub proof fn lemma_byte_len_take_strict(s: Seq<char>, a: int, b: int)
    requires
        0 <= a < b <= s.len(),
    ensures
        byte_len(s.take(a)) < byte_len(s.take(b)),
{
    lemma_byte_len_take_succ(s, a);
    lemma_char_utf8_len_bounds(s[a]);
    lemma_byte_len_take_monotone(s, a + 1, b);
}

/// `char_of_byte` picks the one boundary with that offset.
pub proof fn lemma_char_of_byte(s: Seq<char>, a: int)
    requires
        0 <= a <= s.len(),
    ensures
        char_of_byte(s, byte_len(s.take(a))) == a,
{
    reveal(char_of_byte);
    let byte = byte_len(s.take(a));
    assert(0 <= a <= s.len() && byte_len(s.take(a)) == byte);
    let w = char_of_byte(s, byte);
    if w < a {
        lemma_byte_len_take_strict(s, w, a);
    } else if w > a {
        lemma_byte_len_take_strict(s, a, w);
    }
}

/// An executable chunk lies on character boundaries of `s`.
#[verifier::opaque]
pub open spec fn chunk_in_text(c: Chunk, s: Seq<char>) -> bool {
    exists|a: int, b: int|
        0 <= a <= b <= s.len() && byte_len(s.take(a)) == c.start as int && byte_len(s.take(b))
            == c.start + c.len
}

/// Chunks lie in the text, in input order.
pub open spec fn chunks_wf(cs: Seq<Chunk>, s: Seq<char>) -> bool {
    &&& forall|k: int| 0 <= k < cs.len() ==> chunk_in_text(#[trigger] cs[k], s)
    &&& forall|k: int|
        0 <= k < cs.len() - 1 ==> (#[trigger] cs[k]).start + cs[k].len <= cs[k + 1].start
}

/// The chunk model of one executable chunk over `s`.
#[verifier::opaque]
pub open spec fn model_of(c: Chunk, s: Seq<char>) -> ChunkModel {
    ChunkModel {
        syl: chunk_syl(c),
        chunk_type: c.chunk_type,
        start_char: char_of_byte(s, c.start as int),
        end_char: char_of_byte(s, c.start + c.len),
    }
}

/// The chunk models of a list of executable chunks over `s`.
pub open spec fn models_of(cs: Seq<Chunk>, s: Seq<char>) -> Seq<ChunkModel> {
    Seq::new(cs.len(), |k: int| model_of(cs[k], s))
}

/// A chunk model whose character range lies inside `s`, in order.
pub open spec fn model_in_text(m: ChunkModel, s: Seq<char>) -> bool {
    0 <= m.start_char <= m.end_char <= s.len()
}

/// The word formed by the syllables of `m` chunks starting at `i`.
pub open spec fn prefix_word(ms: Seq<ChunkModel>, i: int, m: int) -> Seq<Seq<char>> {
    Seq::new(m as nat, |k: int| (ms[i + k].syl)->0)
}

/// Whether all of the `m` chunks starting at `i` are syllable chunks.
pub open spec fn all_syl(ms: Seq<ChunkModel>, i: int, m: int) -> bool {
    forall|k: int| i <= k < i + m ==> (#[trigger] ms[k]).syl is Some
}

/// Length of the maximal syllable-chunk run starting at `i`.
pub open spec fn max_run(ms: Seq<ChunkModel>, i: int) -> int
    decreases ms.len() - i,
{
    if 0 <= i < ms.len() && ms[i].syl is Some {
        1 + max_run(ms, i + 1)
    } else {
        0
    }
}

/// Whether the `m` chunks starting at `i` spell a dictionary word.
pub open spec fn matches_at(t: Trie, ms: Seq<ChunkModel>, i: int, m: int) -> bool {
    m >= 1 && i + m <= ms.len() && all_syl(ms, i, m) && t.spec_has(prefix_word(ms, i, m))
}

/// The largest `m' <= m` such that the chunks `i..i+m'` spell a word;
/// zero when none does.
pub open spec fn best_len(t: Trie, ms: Seq<ChunkModel>, i: int, m: int) -> int
    decreases m,
{
    if m <= 0 {
        0
    } else if matches_at(t, ms, i, m) {
        m
    } else {
        best_len(t, ms, i, m - 1)
    }
}

/// Properties of the maximal syllable run.
pub proof fn lemma_max_run(ms: Seq<ChunkModel>, i: int)
    requires
        0 <= i <= ms.len(),
    ensures
        0 <= max_run(ms, i) <= ms.len() - i,
        all_syl(ms, i, max_run(ms, i)),
        i + max_run(ms, i) < ms.len() ==> ms[i + max_run(ms, i)].syl is None,
        i < ms.len() && ms[i].syl is Some ==> max_run(ms, i) >= 1,
    decreases ms.len() - i,
{
    if 0 <= i < ms.len() && ms[i].syl is Some {
        lemma_max_run(ms, i + 1);
    }
}

/// When every syllable run of length `d` starting at `i` is full and
/// the run stops at `i + d`, the maximal run is `d`.
pub proof fn lemma_max_run_is(ms: Seq<ChunkModel>, i: int, d: int)
    requires
        0 <= i,
        0 <= d,
        i + d <= ms.len(),
        all_syl(ms, i, d),
        i + d == ms.len() || ms[i + d].syl is None,
    ensures
        max_run(ms, i) == d,
    decreases d,
{
    if d == 0 {
    } else {
        assert(ms[i].syl is Some);
        lemma_max_run_is(ms, i + 1, d - 1);
    }
}

/// `best_len` is the largest matching length: if every length in
/// `(b, m]` fails and `b` itself matches (or is zero), it is `b`.
pub proof fn lemma_best_len_is(t: Trie, ms: Seq<ChunkModel>, i: int, m: int, b: int)
    requires
        0 <= b <= m,
        b > 0 ==> matches_at(t, ms, i, b),
        forall|k: int| b < k <= m ==> !matches_at(t, ms, i, k),
    ensures
        best_len(t, ms, i, m) == b,
    decreases m,
{
    if m > 0 && m != b {
        lemma_best_len_is(t, ms, i, m - 1, b);
    }
}

/// The result of `best_len` is in range and matches unless it is zero.
pub proof fn lemma_best_len_props(t: Trie, ms: Seq<ChunkModel>, i: int, m: int)
    ensures
        m >= 0 ==> 0 <= best_len(t, ms, i, m) <= m,
        best_len(t, ms, i, m) > 0 ==> matches_at(t, ms, i, best_len(t, ms, i, m)),
    decreases m,
{
    if m > 0 && !matches_at(t, ms, i, m) {
        lemma_best_len_props(t, ms, i, m - 1);
    }
}

/// Walking a concatenation of paths: reach the first part, then walk
/// the second from there.
pub proof fn lemma_node_at_extend(n: TrieNode, a: Seq<Seq<char>>, b: Seq<Seq<char>>)
    ensures
        spec_node_at(n, a + b) == (match spec_node_at(n, a) {
            Some(mid) => spec_node_at(mid, b),
            None => None,
        }),
    decreases a.len(),
{
    if a.len() == 0 {
        assert(a + b =~= b);
    } else {
        assert((a + b)[0] == a[0]);
        assert((a + b).len() > 0);
        match lookup_children(n.children@, a[0]) {
            Some(c) => {
                assert((a + b).drop_first() =~= a.drop_first() + b);
                lemma_node_at_extend(c, a.drop_first(), b);
            },
            None => {},
        }
    }
}

/// The token a non-syllable chunk becomes.
#[verifier::opaque]
pub open spec fn passthrough_model(m: ChunkModel, s: Seq<char>) -> TokenModel {
    TokenModel {
        text: s.subrange(m.start_char, m.end_char),
        start: byte_len(s.take(m.start_char)),
        len: byte_len(s.take(m.end_char)) - byte_len(s.take(m.start_char)),
        chunk_type: m.chunk_type,
        pos: None,
        lemma: None,
        freq: None,
        syls: Seq::empty(),
        is_skrt: false,
        senses: Seq::empty(),
        affixation: None,
        is_affix: false,
        is_affix_host: false,
        has_merged_dagdra: false,
    }
}

/// The token an unmatched syllable chunk becomes: one syllable, tagged
/// `NO_POS`.
#[verifier::opaque]
pub open spec fn unknown_model(m: ChunkModel, s: Seq<char>) -> TokenModel {
    TokenModel {
        text: s.subrange(m.start_char, m.end_char),
        start: byte_len(s.take(m.start_char)),
        len: byte_len(s.take(m.end_char)) - byte_len(s.take(m.start_char)),
        chunk_type: ChunkType::Text,
        pos: Some("NO_POS"@),
        lemma: None,
        freq: None,
        syls: seq![m.syl->0],
        is_skrt: false,
        senses: Seq::empty(),
        affixation: None,
        is_affix: false,
        is_affix_host: false,
        has_merged_dagdra: false,
    }
}

/// The token a matched word of `b` chunks becomes: the span's text and
/// the data of the matched dictionary entry.
#[verifier::opaque]
pub open spec fn matched_model(t: Trie, ms: Seq<ChunkModel>, s: Seq<char>, i: int, b: int)
    -> TokenModel {
    let a = ms[i].start_char;
    let e = ms[i + b - 1].end_char;
    let w = prefix_word(ms, i, b);
    let base = TokenModel {
        text: s.subrange(a, e),
        start: byte_len(s.take(a)),
        len: byte_len(s.take(e)) - byte_len(s.take(a)),
        chunk_type: ChunkType::Text,
        pos: None,
        lemma: None,
        freq: None,
        syls: w,
        is_skrt: false,
        senses: Seq::empty(),
        affixation: None,
        is_affix: false,
        is_affix_host: false,
        has_merged_dagdra: false,
    };
    match t.spec_data(w) {
        Some(d) => TokenModel {
            pos: opt_str_view(d.pos),
            lemma: opt_str_view(d.lemma),
            freq: d.freq,
            is_skrt: d.skrt,
            senses: d.senses@,
            affixation: match d.affixation {
                Some(x) => Some(crate::token::AffixationInfo { len: x.len, aa: x.aa }),
                None => None,
            },
            ..base
        },
        None => base,
    }
}

/// The raw token stream from chunk `i` on: non-syllable chunks pass
/// through, and at a syllable chunk the longest dictionary match wins,
/// with a one-syllable `NO_POS` token as the fallback.
pub open spec fn spec_tokens_from(t: Trie, ms: Seq<ChunkModel>, s: Seq<char>, i: int)
    -> Seq<TokenModel>
    decreases ms.len() - i,
        via spec_tokens_from_dec
{
    if 0 <= i < ms.len() {
        if ms[i].syl is None {
            seq![passthrough_model(ms[i], s)] + spec_tokens_from(t, ms, s, i + 1)
        } else {
            let b = best_len(t, ms, i, max_run(ms, i));
            if b >= 1 {
                seq![matched_model(t, ms, s, i, b)] + spec_tokens_from(t, ms, s, i + b)
            } else {
                seq![unknown_model(ms[i], s)] + spec_tokens_from(t, ms, s, i + 1)
            }
        }
    } else {
        Seq::empty()
    }
}

#[via_fn]
proof fn spec_tokens_from_dec(t: Trie, ms: Seq<ChunkModel>, s: Seq<char>, i: int) {
    if 0 <= i < ms.len() {
        lemma_max_run(ms, i);
        lemma_best_len_props(t, ms, i, max_run(ms, i));
    }
}

/// The raw token stream of a chunk list.
pub open spec fn spec_tokens(t: Trie, ms: Seq<ChunkModel>, s: Seq<char>) -> Seq<TokenModel> {
    spec_tokens_from(t, ms, s, 0)
}

/// The token one chunk becomes under the dictionary-free tokenizer.
#[verifier::opaque]
pub open spec fn simple_model(m: ChunkModel, s: Seq<char>) -> TokenModel {
    TokenModel {
        text: s.subrange(m.start_char, m.end_char),
        start: byte_len(s.take(m.start_char)),
        len: byte_len(s.take(m.end_char)) - byte_len(s.take(m.start_char)),
        chunk_type: m.chunk_type,
        pos: None,
        lemma: None,
        freq: None,
        syls: match m.syl {
            Some(y) => seq![y],
            None => Seq::empty(),
        },
        is_skrt: false,
        senses: Seq::empty(),
        affixation: None,
        is_affix: false,
        is_affix_host: false,
        has_merged_dagdra: false,
    }
}

/// The tokens the dictionary-free tokenizer produces: one per chunk,
/// with the chunk's syllable when there is one.
pub open spec fn spec_simple_tokens(ms: Seq<ChunkModel>, s: Seq<char>) -> Seq<TokenModel> {
    Seq::new(ms.len(), |k: int| simple_model(ms[k], s))
}


/// Normalized form of a character sequence, as unicode-normalization's
/// canonical composition computes it.
pub uninterp spec fn nfc_of(s: Seq<char>) -> Seq<char>;

/// Relies on unicode-normalization's `nfc`: canonical composition is a
/// function of the input characters alone, and an empty input stays
/// empty.
#[verifier::external_body]
pub(crate) fn nfc_normalize(text: &str) -> (r: String)
    ensures
        r@ == nfc_of(text@),
        text@.len() == 0 ==> r@.len() == 0,
{
    text.nfc().collect()
}

/// Relies on `Arc::clone`: a cloned handle refers to the same value.
#[verifier::external_body]
fn arc_clone_trie(a: &Arc<Trie>) -> (r: Arc<Trie>)
    ensures
        *r == **a,
{
    Arc::clone(a)
}

/// Byte offsets of every character boundary.
fn byte_positions(chars: &Vec<char>, total: usize) -> (bp: Vec<usize>)
    requires
        total as int == byte_len(chars@),
    ensures
        crate::chunker::bp_ok(bp@, chars@),
{
    let ghost s = chars@;
    let n = chars.len();
    let mut bp: Vec<usize> = Vec::new();
    let mut pos: usize = 0;
    bp.push(0);
    proof {
        crate::strutil::lemma_byte_len_empty();
        assert(s.take(0) =~= Seq::<char>::empty());
    }
    let mut ci: usize = 0;
    while ci < n
        invariant
            ci <= n,
            n == s.len(),
            chars@ == s,
            total as int == byte_len(s),
            pos as int == byte_len(s.take(ci as int)),
            bp@.len() == ci + 1,
            forall|k: int| 0 <= k <= ci ==> (#[trigger] bp@[k]) as int == byte_len(s.take(k)),
        decreases n - ci,
    {
        proof {
            lemma_byte_len_take_succ(s, ci as int);
            lemma_byte_len_take_monotone(s, ci + 1, n as int);
            crate::strutil::lemma_byte_len_take_all(s);
        }
        let w = crate::strutil::utf8_len(chars[ci]);
        pos = pos + w;
        bp.push(pos);
        ci = ci + 1;
    }
    bp
}

/// The character boundary whose byte offset is `byte`.
fn find_char_index(bp: &Vec<usize>, byte: usize, Ghost(s): Ghost<Seq<char>>) -> (a: usize)
    requires
        crate::chunker::bp_ok(bp@, s),
        exists|a0: int| 0 <= a0 <= s.len() && byte_len(s.take(a0)) == byte as int,
    ensures
        a <= s.len(),
        byte_len(s.take(a as int)) == byte as int,
        a as int == char_of_byte(s, byte as int),
{
    let m = bp.len();
    let mut j: usize = 0;
    while j < m
        invariant
            j <= m,
            m == s.len() + 1,
            crate::chunker::bp_ok(bp@, s),
            forall|k: int| 0 <= k < j ==> (#[trigger] bp@[k]) != byte,
        decreases m - j,
    {
        if bp[j] == byte {
            proof {
                lemma_char_of_byte(s, j as int);
            }
            return j;
        }
        j = j + 1;
    }
    proof {
        let a0 = choose|a0: int| 0 <= a0 <= s.len() && byte_len(s.take(a0)) == byte as int;
        assert(bp@[a0] == byte);
        assert(false);
    }
    0
}

/// Walking one more syllable: look it up in the node the path reaches.
pub proof fn lemma_node_at_snoc(n: TrieNode, w: Seq<Seq<char>>, k: Seq<char>)
    ensures
        spec_node_at(n, w.push(k)) == (match spec_node_at(n, w) {
            Some(mid) => lookup_children(mid.children@, k),
            None => None,
        }),
{
    assert(w.push(k) =~= w + seq![k]);
    lemma_node_at_extend(n, w, seq![k]);
    match spec_node_at(n, w) {
        Some(mid) => {
            assert(seq![k].drop_first() =~= Seq::<Seq<char>>::empty());
            match lookup_children(mid.children@, k) {
                Some(c) => {
                    assert(spec_node_at(mid, seq![k]) == spec_node_at(c, seq![k].drop_first()));
                },
                None => {},
            }
        },
        None => {},
    }
}

/// The chunker's output is well placed, and its models are exactly the
/// chunk models of the text.
#[verifier::rlimit(80)]
pub proof fn lemma_chunker_bridge(cs: Seq<Chunk>, s: Seq<char>)
    requires
        cs.len() == spec_chunks(s).len(),
        forall|j: int| 0 <= j < cs.len() ==> chunk_matches(#[trigger] cs[j], spec_chunks(s)[j], s),
    ensures
        chunks_wf(cs, s),
        models_of(cs, s) == spec_chunks(s),
{
    reveal(chunk_in_text);
    reveal(model_of);
    reveal(crate::chunker::chunk_matches);
    let sm = spec_chunks(s);
    lemma_transparent_end(s, 0);
    lemma_chunks_from_cover(s, transparent_end(s, 0));
    assert forall|k: int| 0 <= k < cs.len() implies chunk_in_text(#[trigger] cs[k], s) by {
        let m = sm[k];
        assert(0 <= m.start_char && m.end_char <= s.len() && m.start_char < m.end_char);
        assert(byte_len(s.take(m.start_char)) == cs[k].start as int);
        assert(byte_len(s.take(m.end_char)) == cs[k].start + cs[k].len);
    }
    assert forall|k: int| 0 <= k < cs.len() - 1 implies (#[trigger] cs[k]).start + cs[k].len
        <= cs[k + 1].start by {
        assert(sm[k + 1].start_char == sm[k].end_char);
        assert(byte_len(s.take(sm[k].end_char)) == cs[k].start + cs[k].len);
        assert(byte_len(s.take(sm[k + 1].start_char)) == cs[k + 1].start as int);
    }
    assert forall|k: int| 0 <= k < cs.len() implies models_of(cs, s)[k] == sm[k] by {
        let m = sm[k];
        lemma_char_of_byte(s, m.start_char);
        lemma_char_of_byte(s, m.end_char);
        assert(char_of_byte(s, cs[k].start as int) == m.start_char);
        assert(char_of_byte(s, cs[k].start + cs[k].len) == m.end_char);
        assert(chunk_syl(cs[k]) == m.syl);
    }
    assert(models_of(cs, s) =~= sm);
}

/// A bare token over the byte range `[start_byte, end_byte)`, whose
/// character boundaries are `sc` and `ec`.
fn span_token(
    original_text: &str,
    bp: &Vec<usize>,
    start_byte: usize,
    end_byte: usize,
    ctype: ChunkType,
    Ghost(sc): Ghost<int>,
    Ghost(ec): Ghost<int>,
) -> (tok: Token)
    requires
        crate::chunker::bp_ok(bp@, original_text@),
        0 <= sc <= ec <= original_text@.len(),
        byte_len(original_text@.take(sc)) == start_byte as int,
        byte_len(original_text@.take(ec)) == end_byte as int,
    ensures
        tok.text@ == original_text@.subrange(sc, ec),
        tok.start == start_byte,
        tok.len as int == end_byte - start_byte,
        tok.chunk_type == ctype,
        tok.pos is None,
        tok.lemma is None,
        tok.freq is None,
        views_of(tok.syls@) == Seq::<Seq<char>>::empty(),
        !tok.is_affix,
        !tok.is_affix_host,
        !tok.is_skrt,
        tok.senses@ == Seq::<crate::token::Sense>::empty(),
        tok.affixation is None,
        !tok.has_merged_dagdra,
{
    let ghost s = original_text@;
    proof {
        lemma_byte_len_take_monotone(s, sc, ec);
        lemma_char_of_byte(s, sc);
        lemma_char_of_byte(s, ec);
    }
    let a = find_char_index(bp, start_byte, Ghost(s));
    let e = find_char_index(bp, end_byte, Ghost(s));
    let text = original_text.substring_char(a, e).to_owned();
    let tok = Token::with_text(text, start_byte, end_byte - start_byte, ctype);
    proof {
        assert(views_of(tok.syls@) =~= Seq::<Seq<char>>::empty());
        assert(tok.senses@ =~= Seq::<crate::token::Sense>::empty());
    }
    tok
}

/// The token of one non-syllable chunk.
fn emit_passthrough(
    original_text: &str,
    bp: &Vec<usize>,
    c: &Chunk,
    Ghost(m): Ghost<ChunkModel>,
) -> (token: Token)
    requires
        crate::chunker::bp_ok(bp@, original_text@),
        model_in_text(m, original_text@),
        byte_len(original_text@.take(m.start_char)) == c.start as int,
        byte_len(original_text@.take(m.end_char)) == c.start + c.len,
        m.chunk_type == c.chunk_type,
        m.syl is None,
    ensures
        token_matches(token, passthrough_model(m, original_text@)),
{
    let ghost s = original_text@;
    proof {
        lemma_byte_len_take_monotone(s, m.end_char, s.len() as int);
        crate::strutil::lemma_byte_len_take_all(s);
        assert(bp@[s.len() as int] as int == byte_len(s));
        assert(c.start + c.len <= bp@[s.len() as int]);
    }
    let end_byte = c.start + c.len;
    let token = span_token(
        original_text,
        bp,
        c.start,
        end_byte,
        c.chunk_type,
        Ghost(m.start_char),
        Ghost(m.end_char),
    );
    proof {
        reveal(passthrough_model);
        reveal(token_matches);
    }
    token
}

/// The token of one chunk under the dictionary-free tokenizer.
fn emit_simple(
    original_text: &str,
    bp: &Vec<usize>,
    c: &Chunk,
    Ghost(m): Ghost<ChunkModel>,
) -> (token: Token)
    requires
        crate::chunker::bp_ok(bp@, original_text@),
        model_in_text(m, original_text@),
        byte_len(original_text@.take(m.start_char)) == c.start as int,
        byte_len(original_text@.take(m.end_char)) == c.start + c.len,
        m.chunk_type == c.chunk_type,
        m.syl == chunk_syl(*c),
    ensures
        token_matches(token, simple_model(m, original_text@)),
{
    let ghost s = original_text@;
    proof {
        lemma_byte_len_take_monotone(s, m.end_char, s.len() as int);
        crate::strutil::lemma_byte_len_take_all(s);
        assert(bp@[s.len() as int] as int == byte_len(s));
        assert(c.start + c.len <= bp@[s.len() as int]);
    }
    let end_byte = c.start + c.len;
    let mut token = span_token(
        original_text,
        bp,
        c.start,
        end_byte,
        c.chunk_type,
        Ghost(m.start_char),
        Ghost(m.end_char),
    );
    match &c.syl {
        Some(sylstr) => {
            let mut one: Vec<String> = Vec::new();
            one.push(sylstr.clone());
            token.syls = one;
            proof {
                assert(views_of(token.syls@) =~= seq![m.syl->0]);
            }
        },
        None => {},
    }
    proof {
        reveal(simple_model);
        reveal(token_matches);
    }
    token
}

/// The token of one unmatched syllable chunk.
fn emit_unknown(
    original_text: &str,
    bp: &Vec<usize>,
    c: &Chunk,
    Ghost(m): Ghost<ChunkModel>,
) -> (token: Token)
    requires
        crate::chunker::bp_ok(bp@, original_text@),
        model_in_text(m, original_text@),
        byte_len(original_text@.take(m.start_char)) == c.start as int,
        byte_len(original_text@.take(m.end_char)) == c.start + c.len,
        m.syl == chunk_syl(*c),
        m.syl is Some,
    ensures
        token_matches(token, unknown_model(m, original_text@)),
{
    let ghost s = original_text@;
    proof {
        lemma_byte_len_take_monotone(s, m.end_char, s.len() as int);
        crate::strutil::lemma_byte_len_take_all(s);
        assert(bp@[s.len() as int] as int == byte_len(s));
        assert(c.start + c.len <= bp@[s.len() as int]);
    }
    let end_byte = c.start + c.len;
    let mut token = span_token(
        original_text,
        bp,
        c.start,
        end_byte,
        ChunkType::Text,
        Ghost(m.start_char),
        Ghost(m.end_char),
    );
    let mut one: Vec<String> = Vec::new();
    match &c.syl {
        Some(sylstr) => {
            one.push(sylstr.clone());
        },
        None => {
            proof {
                assert(false);
            }
        },
    }
    token.syls = one;
    token.pos = Some("NO_POS".to_owned());
    proof {
        reveal(unknown_model);
        reveal(token_matches);
        assert(views_of(token.syls@) =~= seq![m.syl->0]);
    }
    token
}

/// The token of a matched dictionary word spanning chunks `i..i+b`.
#[verifier::rlimit(100)]
fn emit_matched(
    original_text: &str,
    bp: &Vec<usize>,
    node: &TrieNode,
    syls: Vec<String>,
    start_byte: usize,
    end_byte: usize,
    Ghost(t): Ghost<Trie>,
    Ghost(ms): Ghost<Seq<ChunkModel>>,
    Ghost(i): Ghost<int>,
    Ghost(b): Ghost<int>,
) -> (token: Token)
    requires
        crate::chunker::bp_ok(bp@, original_text@),
        b >= 1,
        0 <= i,
        i + b <= ms.len(),
        spec_node_at(t.spec_root(), prefix_word(ms, i, b)) == Some(*node),
        node.is_leaf,
        views_of(syls@) == prefix_word(ms, i, b),
        0 <= ms[i].start_char <= ms[i + b - 1].end_char <= original_text@.len(),
        byte_len(original_text@.take(ms[i].start_char)) == start_byte as int,
        byte_len(original_text@.take(ms[i + b - 1].end_char)) == end_byte as int,
    ensures
        token_matches(token, matched_model(t, ms, original_text@, i, b)),
{
    let ghost s = original_text@;
    let ghost w = prefix_word(ms, i, b);
    proof {
        assert(t.spec_data(w) == node.data);
    }
    let mut token = span_token(
        original_text,
        bp,
        start_byte,
        end_byte,
        ChunkType::Text,
        Ghost(ms[i].start_char),
        Ghost(ms[i + b - 1].end_char),
    );
    token.syls = syls;
    match &node.data {
        Some(d) => {
            token.pos = clone_opt_string(&d.pos);
            token.lemma = clone_opt_string(&d.lemma);
            token.freq = d.freq;
            token.is_skrt = d.skrt;
            token.senses = crate::trie::copy_senses(&d.senses);
            token.affixation = match &d.affixation {
                Some(x) => Some(crate::token::AffixationInfo { len: x.len, aa: x.aa }),
                None => None,
            };
        },
        None => {},
    }
    proof {
        reveal(matched_model);
        reveal(token_matches);
    }
    token
}

/// What the tokenizing loops rely on at one chunk: its model lies in
/// the text, its byte offsets agree with the chunk's, its syllable and
/// type carry over, and it ends before the next chunk starts.
#[verifier::opaque]
pub open spec fn chunk_fact(cs: Seq<Chunk>, s: Seq<char>, k: int) -> bool {
    &&& model_in_text(models_of(cs, s)[k], s)
    &&& byte_len(s.take(models_of(cs, s)[k].start_char)) == cs[k].start as int
    &&& byte_len(s.take(models_of(cs, s)[k].end_char)) == cs[k].start + cs[k].len
    &&& models_of(cs, s)[k].syl == chunk_syl(cs[k])
    &&& models_of(cs, s)[k].chunk_type == cs[k].chunk_type
    &&& (k + 1 < cs.len() ==> models_of(cs, s)[k].end_char <= models_of(cs, s)[k
        + 1].start_char)
}

/// Everything the tokenizing loops rely on: every chunk's facts, the
/// byte table, and the character table. Kept opaque so that each proof
/// draws only the facts it asks for.
#[verifier::opaque]
pub open spec fn tok_ctx(cs: Seq<Chunk>, s: Seq<char>, chars: Seq<char>, bp: Seq<usize>) -> bool {
    &&& crate::chunker::bp_ok(bp, s)
    &&& chars == s
    &&& forall|k: int| 0 <= k < cs.len() ==> #[trigger] chunk_fact(cs, s, k)
}

/// The per-chunk facts of a tokenizing context.
proof fn ctx_at(cs: Seq<Chunk>, s: Seq<char>, chars: Seq<char>, bp: Seq<usize>, i: int)
    requires
        tok_ctx(cs, s, chars, bp),
        0 <= i < cs.len(),
    ensures
        model_in_text(models_of(cs, s)[i], s),
        byte_len(s.take(models_of(cs, s)[i].start_char)) == cs[i].start as int,
        byte_len(s.take(models_of(cs, s)[i].end_char)) == cs[i].start + cs[i].len,
        models_of(cs, s)[i].syl == chunk_syl(cs[i]),
        models_of(cs, s)[i].chunk_type == cs[i].chunk_type,
        chars == s,
        crate::chunker::bp_ok(bp, s),
{
    reveal(tok_ctx);
    assert(chunk_fact(cs, s, i));
    reveal(chunk_fact);
}

/// Chunk spans grow along the chunk list.
proof fn ctx_chain(
    cs: Seq<Chunk>,
    s: Seq<char>,
    chars: Seq<char>,
    bp: Seq<usize>,
    a: int,
    b: int,
)
    requires
        tok_ctx(cs, s, chars, bp),
        0 <= a <= b < cs.len(),
    ensures
        models_of(cs, s)[a].start_char <= models_of(cs, s)[b].end_char,
        models_of(cs, s)[a].start_char <= models_of(cs, s)[b].start_char,
    decreases b - a,
{
    if a == b {
        ctx_at(cs, s, chars, bp, a);
    } else {
        ctx_chain(cs, s, chars, bp, a + 1, b);
        ctx_at(cs, s, chars, bp, a);
        reveal(tok_ctx);
        assert(chunk_fact(cs, s, a));
        reveal(chunk_fact);
    }
}

/// One chunk of a well-placed list satisfies its chunk facts.
proof fn lemma_chunk_fact_one(cs: Seq<Chunk>, s: Seq<char>, k: int)
    requires
        chunks_wf(cs, s),
        0 <= k < cs.len(),
    ensures
        chunk_fact(cs, s, k),
{
    reveal(chunk_fact);
    reveal(model_of);
    reveal(char_of_byte);
    reveal(chunk_in_text);
    let ms = models_of(cs, s);
    assert(chunk_in_text(cs[k], s));
    let (a, b) = choose|a: int, b: int|
        0 <= a <= b <= s.len() && byte_len(s.take(a)) == cs[k].start as int && byte_len(
            s.take(b),
        ) == cs[k].start + cs[k].len;
    let sc = char_of_byte(s, cs[k].start as int);
    let ec = char_of_byte(s, cs[k].start + cs[k].len);
    assert(0 <= sc <= s.len() && byte_len(s.take(sc)) == cs[k].start as int);
    assert(0 <= ec <= s.len() && byte_len(s.take(ec)) == cs[k].start + cs[k].len);
    if ec < sc {
        lemma_byte_len_take_strict(s, ec, sc);
    }
    if k + 1 < cs.len() {
        assert(chunk_in_text(cs[k + 1], s));
        let (a2, b2) = choose|a2: int, b2: int|
            0 <= a2 <= b2 <= s.len() && byte_len(s.take(a2)) == cs[k + 1].start as int
                && byte_len(s.take(b2)) == cs[k + 1].start + cs[k + 1].len;
        let sc2 = char_of_byte(s, cs[k + 1].start as int);
        assert(0 <= sc2 <= s.len() && byte_len(s.take(sc2)) == cs[k + 1].start as int);
        if sc2 < ec {
            lemma_byte_len_take_strict(s, sc2, ec);
        }
    }
}

/// A well-placed chunk list over a good byte table forms a tokenizing
/// context.
proof fn lemma_tok_ctx(cs: Seq<Chunk>, s: Seq<char>, chars: Seq<char>, bp: Seq<usize>)
    requires
        chunks_wf(cs, s),
        crate::chunker::bp_ok(bp, s),
        chars == s,
    ensures
        tok_ctx(cs, s, chars, bp),
{
    assert forall|k: int| 0 <= k < cs.len() implies #[trigger] chunk_fact(cs, s, k) by {
        lemma_chunk_fact_one(cs, s, k);
    }
    reveal(tok_ctx);
}

/// Normalize a text, chunk it, and compute its character and byte
/// tables, with every bridge fact the tokenizers need.

fn prepare_text(text: &str) -> (r: (String, Vec<Chunk>, Vec<char>, Vec<usize>))
    ensures
        ({
            let ns = nfc_of(text@);
            let (normalized, chunks, chars, bp) = r;
            &&& normalized@ == ns
            &&& models_of(chunks@, ns) == spec_chunks(ns)
            &&& chunks_wf(chunks@, ns)
            &&& tok_ctx(chunks@, ns, chars@, bp@)
        }),
{
    let ghost ns = nfc_of(text@);
    let normalized = nfc_normalize(text);
    let chunker = crate::chunker::Chunker::new(normalized.as_str());
    let chunks = chunker.make_chunks();
    proof {
        lemma_chunker_bridge(chunks@, ns);
    }
    let chars = crate::strutil::str_chars(normalized.as_str());
    let total = crate::strutil::str_byte_len(normalized.as_str());
    let bp = byte_positions(&chars, total);
    proof {
        lemma_tok_ctx(chunks@, ns, chars@, bp@);
    }
    (normalized, chunks, chars, bp)
}

/// The dictionary-based tokenizer: a shared trie, walked by
/// longest-match.
pub struct Tokenizer {
    trie: Arc<Trie>,
}

impl Tokenizer {
    /// The dictionary this tokenizer matches against.
    pub closed spec fn spec_trie(&self) -> Trie {
        *self.trie
    }

    /// A tokenizer over the given trie.
    pub fn new(trie: Trie) -> (r: Tokenizer)
        ensures
            r.spec_trie() == trie,
    {
        Tokenizer { trie: Arc::new(trie) }
    }

    /// A tokenizer sharing an existing trie handle.
    pub fn with_arc(trie: Arc<Trie>) -> (r: Tokenizer)
        ensures
            r.spec_trie() == *trie,
    {
        Tokenizer { trie }
    }

    /// The trie this tokenizer matches against.
    pub fn trie(&self) -> (r: &Trie)
        ensures
            *r == self.spec_trie(),
    {
        &self.trie
    }

    /// A shared handle to the trie, for another tokenizer.
    pub fn trie_arc(&self) -> (r: Arc<Trie>)
        ensures
            *r == self.spec_trie(),
    {
        arc_clone_trie(&self.trie)
    }

    /// Tokenize chunks that lie in `original_text`: non-syllable chunks
    /// pass through, syllable chunks go through longest-match.
    #[verifier::rlimit(100)]
    #[verifier::spinoff_prover]
    pub fn tokenize_chunks(&self, chunks: &[Chunk], original_text: &str) -> (r: Vec<Token>)
        requires
            chunks_wf(chunks@, original_text@),
        ensures
            ({
                let s = original_text@;
                let ms = models_of(chunks@, s);
                let toks = spec_tokens(self.spec_trie(), ms, s);
                r@.len() == toks.len() && forall|j: int|
                    0 <= j < r@.len() ==> token_matches(#[trigger] r@[j], toks[j])
            }),
    {
        let ghost s = original_text@;
        let ghost ms = models_of(chunks@, s);
        let ghost t = self.spec_trie();
        let ghost toks = spec_tokens(t, ms, s);
        let chars = crate::strutil::str_chars(original_text);
        let total = crate::strutil::str_byte_len(original_text);
        let bp = byte_positions(&chars, total);
        proof {
            lemma_tok_ctx(chunks@, s, chars@, bp@);
        }
        let mut out: Vec<Token> = Vec::new();
        let mut i: usize = 0;
        proof {
            assert(toks.skip(0) =~= toks);
        }
        while i < chunks.len()
            invariant
                i <= chunks@.len(),
                s == original_text@,
                ms == models_of(chunks@, s),
                t == self.spec_trie(),
                toks == spec_tokens(t, ms, s),
                tok_ctx(chunks@, s, chars@, bp@),
                spec_tokens_from(t, ms, s, i as int) == toks.skip(out@.len() as int),
                out@.len() <= toks.len(),
                forall|j: int| 0 <= j < out@.len() ==> token_matches(#[trigger] out@[j], toks[j]),
            decreases chunks@.len() - i,
        {
            let ghost k_done = out@.len() as int;
            proof {
                ctx_at(chunks@, s, chars@, bp@, i as int);
            }
            let is_syl = match &slice_chunk_at(chunks, i).syl {
                Some(_) => true,
                None => false,
            };
            if !is_syl {
                let c = slice_chunk_at(chunks, i);
                let ghost m = ms[i as int];
                proof {
                    assert(model_in_text(m, s));
                }
                let token = emit_passthrough(original_text, &bp, c, Ghost(m));
                proof {
                    let rest0 = spec_tokens_from(t, ms, s, i + 1);
                    assert(spec_tokens_from(t, ms, s, i as int) == seq![
                        passthrough_model(m, s),
                    ] + rest0);
                    assert(toks.skip(k_done)[0] == toks[k_done]);
                    assert(toks[k_done] == passthrough_model(m, s));
                    assert(toks.skip(k_done).drop_first() =~= toks.skip(k_done + 1));
                    assert((seq![passthrough_model(m, s)] + rest0).drop_first() =~= rest0);
                }
                out.push(token);
                i = i + 1;
            } else {
                proof {
                    lemma_max_run(ms, i as int);
                    lemma_best_len_props(t, ms, i as int, max_run(ms, i as int));
                }
                let (token, next) = self.longest_match(chunks, original_text, i, &chars, &bp);
                proof {
                    let b = best_len(t, ms, i as int, max_run(ms, i as int));
                    lemma_max_run(ms, i as int);
                    lemma_best_len_props(t, ms, i as int, max_run(ms, i as int));
                    let rest0 = spec_tokens_from(
                        t,
                        ms,
                        s,
                        if b >= 1 {
                            i + b
                        } else {
                            i + 1
                        },
                    );
                    if b >= 1 {
                        assert(spec_tokens_from(t, ms, s, i as int) == seq![
                            matched_model(t, ms, s, i as int, b),
                        ] + rest0);
                        assert(toks.skip(k_done)[0] == toks[k_done]);
                        assert(toks[k_done] == matched_model(t, ms, s, i as int, b));
                    } else {
                        assert(spec_tokens_from(t, ms, s, i as int) == seq![
                            unknown_model(ms[i as int], s),
                        ] + rest0);
                        assert(toks.skip(k_done)[0] == toks[k_done]);
                        assert(toks[k_done] == unknown_model(ms[i as int], s));
                    }
                    assert(toks.skip(k_done).drop_first() =~= toks.skip(k_done + 1));
                    assert((toks.skip(k_done)).drop_first() == rest0);
                }
                out.push(token);
                i = next;
            }
        }
        proof {
            assert(spec_tokens_from(t, ms, s, i as int) =~= Seq::<TokenModel>::empty());
            assert(toks.skip(out@.len() as int).len() == 0);
        }
        out
    }

    /// Find the longest dictionary word starting at chunk `start_i`, or
    /// fall back to a one-syllable `NO_POS` token.
    #[verifier::rlimit(100)]
    #[verifier::spinoff_prover]
    fn longest_match(
        &self,
        chunks: &[Chunk],
        original_text: &str,
        start_i: usize,
        chars: &Vec<char>,
        bp: &Vec<usize>,
    ) -> (r: (Token, usize))
        requires
            tok_ctx(chunks@, original_text@, chars@, bp@),
            start_i < chunks@.len(),
            chunk_syl(chunks@[start_i as int]) is Some,
        ensures
            ({
                let s = original_text@;
                let ms = models_of(chunks@, s);
                let t = self.spec_trie();
                let b = best_len(t, ms, start_i as int, max_run(ms, start_i as int));
                if b >= 1 {
                    token_matches(r.0, matched_model(t, ms, s, start_i as int, b)) && r.1
                        == start_i + b
                } else {
                    token_matches(r.0, unknown_model(ms[start_i as int], s)) && r.1 == start_i
                        + 1
                }
            }),
    {
        let ghost s = original_text@;
        let ghost ms = models_of(chunks@, s);
        let ghost t = self.spec_trie();
        let ghost root = t.spec_root();
        proof {
            ctx_at(chunks@, s, chars@, bp@, start_i as int);
        }
        let trie: &Trie = &self.trie;
        let mut walker = start_i;
        let mut cur: Option<&TrieNode> = None;
        let mut last_len: usize = 0;
        let mut last_node: Option<&TrieNode> = None;
        let mut syls: Vec<String> = Vec::new();
        let mut stopped_by_walk = false;
        let mut stopped_by_chunk = false;
        while walker < chunks.len() && !stopped_by_walk && !stopped_by_chunk
            invariant
                start_i <= walker <= chunks@.len(),
                s == original_text@,
                ms == models_of(chunks@, s),
                t == self.spec_trie(),
                root == t.spec_root(),
                *trie == t,
                tok_ctx(chunks@, s, chars@, bp@),
                all_syl(ms, start_i as int, walker - start_i),
                views_of(syls@) == prefix_word(ms, start_i as int, walker - start_i),
                syls@.len() == walker - start_i,
                ({
                    let cv = match cur {
                        Some(n) => *n,
                        None => root,
                    };
                    spec_node_at(root, prefix_word(ms, start_i as int, walker - start_i))
                        == Some(cv)
                }),
                cur is None ==> walker == start_i,
                last_len <= walker - start_i,
                last_len >= 1 ==> matches_at(t, ms, start_i as int, last_len as int)
                    && last_node is Some,
                last_len >= 1 ==> (match last_node {
                    Some(n) => spec_node_at(
                        root,
                        prefix_word(ms, start_i as int, last_len as int),
                    ) == Some(*n) && n.is_leaf,
                    None => false,
                }),
                forall|m: int|
                    last_len < m <= walker - start_i ==> !matches_at(t, ms, start_i as int, m),
                stopped_by_walk ==> forall|m: int|
                    walker - start_i < m <= max_run(ms, start_i as int) ==> !matches_at(
                        t,
                        ms,
                        start_i as int,
                        m,
                    ),
                stopped_by_chunk ==> walker < chunks@.len() && ms[walker as int].syl is None,
            decreases chunks@.len() - walker + (if stopped_by_walk {
                0int
            } else {
                1int
            }) + (if stopped_by_chunk {
                0int
            } else {
                1int
            }),
        {
            let ghost d = walker - start_i;
            let c = slice_chunk_at(chunks, walker);
            match &c.syl {
                Some(sylstr) => {
                    proof {
                        ctx_at(chunks@, s, chars@, bp@, walker as int);
                        assert(ms[walker as int].syl == Some(sylstr@));
                    }
                    match trie.walk(sylstr.as_str(), cur) {
                        Some(next) => {
                            proof {
                                let pw = prefix_word(ms, start_i as int, d);
                                let pw1 = prefix_word(ms, start_i as int, d + 1);
                                assert(pw1 =~= pw.push(sylstr@));
                                lemma_node_at_snoc(root, pw, sylstr@);
                                assert(spec_node_at(root, pw1) == Some(*next));
                            }
                            syls.push(sylstr.clone());
                            proof {
                                assert(views_of(syls@) =~= prefix_word(
                                    ms,
                                    start_i as int,
                                    d + 1,
                                ));
                            }
                            if next.is_match() {
                                last_len = walker + 1 - start_i;
                                last_node = Some(next);
                                proof {
                                    assert(matches_at(t, ms, start_i as int, d + 1));
                                }
                            } else {
                                proof {
                                    assert(!matches_at(t, ms, start_i as int, d + 1)) by {
                                        assert(spec_node_at(
                                            root,
                                            prefix_word(ms, start_i as int, d + 1),
                                        ) == Some(*next));
                                    }
                                }
                            }
                            cur = Some(next);
                            walker = walker + 1;
                        },
                        None => {
                            proof {
                                let pw = prefix_word(ms, start_i as int, d);
                                let pw1 = pw.push(sylstr@);
                                lemma_node_at_snoc(root, pw, sylstr@);
                                assert(spec_node_at(root, pw1) is None);
                                assert forall|m: int|
                                    d < m <= max_run(ms, start_i as int) implies !matches_at(
                                    t,
                                    ms,
                                    start_i as int,
                                    m,
                                ) by {
                                    lemma_max_run(ms, start_i as int);
                                    let pwm = prefix_word(ms, start_i as int, m);
                                    assert(pw1 =~= prefix_word(ms, start_i as int, d + 1));
                                    assert(pwm =~= pw1 + pwm.skip(d + 1));
                                    lemma_node_at_extend(root, pw1, pwm.skip(d + 1));
                                    assert(spec_node_at(root, pwm) is None);
                                }
                            }
                            stopped_by_walk = true;
                        },
                    }
                },
                None => {
                    proof {
                        ctx_at(chunks@, s, chars@, bp@, walker as int);
                        assert(ms[walker as int].syl is None);
                    }
                    stopped_by_chunk = true;
                },
            }
        }
        proof {
            if !stopped_by_walk {
                lemma_max_run_is(ms, start_i as int, walker - start_i);
                assert(max_run(ms, start_i as int) == walker - start_i);
            } else {
                lemma_max_run(ms, start_i as int);
            }
            lemma_best_len_is(
                t,
                ms,
                start_i as int,
                max_run(ms, start_i as int),
                last_len as int,
            );
        }
        let ghost b = best_len(t, ms, start_i as int, max_run(ms, start_i as int));
        if last_len >= 1 {
            let j = start_i + last_len - 1;
            let start_byte = slice_chunk_at(chunks, start_i).start;
            let endc = slice_chunk_at(chunks, j);
            proof {
                ctx_at(chunks@, s, chars@, bp@, j as int);
                ctx_at(chunks@, s, chars@, bp@, start_i as int);
                assert(byte_len(s.take(ms[j as int].end_char)) == endc.start + endc.len);
                lemma_byte_len_take_monotone(s, ms[j as int].end_char, s.len() as int);
                crate::strutil::lemma_byte_len_take_all(s);
                assert(bp@[s.len() as int] as int == byte_len(s));
                assert(endc.start + endc.len <= bp@[s.len() as int]);
            }
            let end_byte = endc.start + endc.len;
            proof {
                assert(b == last_len as int);
                ctx_chain(chunks@, s, chars@, bp@, start_i as int, j as int);
                assert(byte_len(s.take(ms[start_i as int].start_char)) == start_byte as int);
                assert(byte_len(s.take(ms[j as int].end_char)) == end_byte as int);
            }
            let ghost syls_pre = syls@;
            syls.truncate(last_len);
            proof {
                assert(syls@ == syls_pre.take(last_len as int));
                assert forall|x: int| 0 <= x < last_len as int implies views_of(syls@)[x]
                    == prefix_word(ms, start_i as int, last_len as int)[x] by {
                    assert(syls@[x] == syls_pre[x]);
                    assert(views_of(syls_pre)[x] == syls_pre[x]@);
                    assert(views_of(syls_pre)[x] == prefix_word(
                        ms,
                        start_i as int,
                        walker - start_i,
                    )[x]);
                    assert(prefix_word(ms, start_i as int, walker - start_i)[x] == (ms[
                        start_i as int + x].syl)->0);
                    assert(prefix_word(ms, start_i as int, last_len as int)[x] == (ms[
                        start_i as int + x].syl)->0);
                }
                assert(views_of(syls@) =~= prefix_word(ms, start_i as int, last_len as int));
            }
            let token = match last_node {
                Some(node) => emit_matched(
                    original_text,
                    bp,
                    node,
                    syls,
                    start_byte,
                    end_byte,
                    Ghost(t),
                    Ghost(ms),
                    Ghost(start_i as int),
                    Ghost(b),
                ),
                None => {
                    proof {
                        assert(false);
                    }
                    Token::new()
                },
            };
            (token, start_i + last_len)
        } else {
            let c = slice_chunk_at(chunks, start_i);
            let ghost m = ms[start_i as int];
            proof {
                assert(b == 0);
                ctx_at(chunks@, s, chars@, bp@, start_i as int);
            }
            let token = emit_unknown(original_text, bp, c, Ghost(m));
            (token, start_i + 1)
        }
    }

    /// Tokenize without post-processing: normalize to NFC, chunk, and
    /// run longest-match.
    pub fn tokenize_raw(&self, text: &str) -> (r: Vec<Token>)
        ensures
            ({
                let ns = nfc_of(text@);
                let toks = spec_tokens(self.spec_trie(), spec_chunks(ns), ns);
                r@.len() == toks.len() && forall|j: int|
                    0 <= j < r@.len() ==> token_matches(#[trigger] r@[j], toks[j])
            }),
    {
        let (normalized, chunks, chars, bp) = prepare_text(text);
        self.tokenize_chunks(chunks.as_slice(), normalized.as_str())
    }
}

/// Element of a chunk slice.
fn slice_chunk_at<'a>(chunks: &'a [Chunk], i: usize) -> (r: &'a Chunk)
    requires
        i < chunks@.len(),
    ensures
        *r == chunks@[i as int],
{
    &chunks[i]
}

/// The dictionary-free tokenizer: one token per chunk.
pub struct SimpleTokenizer;

impl SimpleTokenizer {
    /// Tokenize into syllables without a dictionary: normalize to NFC,
    /// chunk, and emit one token per chunk.
    #[verifier::rlimit(100)]
    #[verifier::spinoff_prover]
    pub fn tokenize(text: &str) -> (r: Vec<Token>)
        ensures
            ({
                let ns = nfc_of(text@);
                let toks = spec_simple_tokens(spec_chunks(ns), ns);
                r@.len() == toks.len() && forall|j: int|
                    0 <= j < r@.len() ==> token_matches(#[trigger] r@[j], toks[j])
            }),
    {
        let ghost ns = nfc_of(text@);
        let ghost sm = spec_chunks(ns);
        let ghost toks = spec_simple_tokens(sm, ns);
        let (normalized, chunks, chars, bp) = prepare_text(text);
        proof {
            assert(chunks@.len() == sm.len());
        }
        let mut out: Vec<Token> = Vec::new();
        let mut i: usize = 0;
        while i < chunks.len()
            invariant
                i <= chunks@.len(),
                ns == nfc_of(text@),
                normalized@ == ns,
                sm == spec_chunks(ns),
                toks == spec_simple_tokens(sm, ns),
                models_of(chunks@, ns) == sm,
                tok_ctx(chunks@, ns, chars@, bp@),
                out@.len() == i,
                i <= sm.len(),
                forall|j: int| 0 <= j < i ==> token_matches(#[trigger] out@[j], toks[j]),
            decreases chunks@.len() - i,
        {
            let c = &chunks[i];
            let ghost m = sm[i as int];
            proof {
                ctx_at(chunks@, ns, chars@, bp@, i as int);
            }
            let token = emit_simple(normalized.as_str(), &bp, c, Ghost(m));
            proof {
                assert(toks[i as int] == simple_model(m, ns));
            }
            out.push(token);
            i = i + 1;
        }
        out
    }
}


/// Whether a character is one of the whitespace characters the space
/// splitter cuts on.
pub open spec fn spec_is_space(c: char) -> bool {
    c == ' ' || c == '\n' || c == '\t' || c == '\r'
}

fn is_space_char(c: char) -> (r: bool)
    ensures
        r == spec_is_space(c),
{
    c == ' ' || c == '\n' || c == '\t' || c == '\r'
}

/// Whether `needle` occurs inside `hay` as a contiguous run.
pub open spec fn is_substring_of(needle: Seq<char>, hay: Seq<char>) -> bool {
    exists|o: int|
        0 <= o <= hay.len() - needle.len() && #[trigger] hay.subrange(o, o + needle.len())
            == needle
}

/// Whether `needle` occurs inside `hay`.
fn contains_str(hay: &str, needle: &str) -> (r: bool)
    ensures
        r == is_substring_of(needle@, hay@),
{
    let h = crate::strutil::str_chars(hay);
    let nd = crate::strutil::str_chars(needle);
    if nd.len() > h.len() {
        proof {
            assert(!is_substring_of(needle@, hay@));
        }
        return false;
    }
    if nd.len() == 0 {
        proof {
            assert(hay@.subrange(0, 0 + needle@.len() as int) =~= needle@);
        }
        return true;
    }
    let hn = h.len();
    let limit = hn - nd.len();
    let mut off: usize = 0;
    while off <= limit
        invariant
            1 <= nd@.len() <= h@.len(),
            hn == h@.len(),
            h@ == hay@,
            nd@ == needle@,
            limit == h@.len() - nd@.len(),
            off <= limit + 1,
            forall|o: int|
                0 <= o < off ==> #[trigger] hay@.subrange(o, o + needle@.len()) != needle@,
        decreases limit + 1 - off,
    {
        let mut k: usize = 0;
        let mut ok = true;
        while k < nd.len()
            invariant
                1 <= nd@.len() <= h@.len(),
                hn == h@.len(),
                h@ == hay@,
                nd@ == needle@,
                limit == h@.len() - nd@.len(),
                off <= limit,
                k <= nd@.len(),
                ok ==> (forall|x: int| 0 <= x < k ==> #[trigger] hay@[off + x] == needle@[x]),
                !ok ==> (exists|x: int| 0 <= x < k && #[trigger] hay@[off + x] != needle@[x]),
            decreases nd@.len() - k,
        {
            if h[off + k] != nd[k] {
                proof {
                    assert(hay@[off + k] != needle@[k as int]);
                }
                ok = false;
            } else {
                proof {
                    if ok {
                        assert(forall|x: int|
                            0 <= x < k + 1 ==> #[trigger] hay@[off + x] == needle@[x]);
                    }
                }
            }
            k = k + 1;
        }
        if ok {
            proof {
                assert forall|x: int| 0 <= x < needle@.len() implies hay@.subrange(
                    off as int,
                    off as int + needle@.len(),
                )[x] == needle@[x] by {
                    assert(hay@[off + x] == needle@[x]);
                }
                assert(hay@.subrange(off as int, off as int + needle@.len()) =~= needle@);
            }
            return true;
        }
        proof {
            assert(hay@.subrange(off as int, off as int + needle@.len()) != needle@) by {
                let x = choose|x: int|
                    0 <= x < nd@.len() && #[trigger] hay@[off + x] != needle@[x];
                assert(hay@.subrange(off as int, off as int + needle@.len())[x] == hay@[off
                    + x]);
            }
        }
        off = off + 1;
    }
    proof {
        assert(!is_substring_of(needle@, hay@)) by {
            if is_substring_of(needle@, hay@) {
                let o = choose|o: int|
                    0 <= o <= hay@.len() - needle@.len() && #[trigger] hay@.subrange(
                        o,
                        o + needle@.len(),
                    ) == needle@;
                assert(o < off);
            }
        }
    }
    false
}

/// Whether the text holds a plain space, the trigger for the space
/// splitter.
pub open spec fn has_space_char(text: Seq<char>) -> bool {
    exists|k: int| 0 <= k < text.len() && text[k] == ' '
}

/// End of the run of same-spaceness characters starting inside a run.
pub open spec fn sp_scan(text: Seq<char>, j: int, sp: bool) -> int
    decreases text.len() - j,
{
    if 0 <= j < text.len() && spec_is_space(text[j]) == sp {
        sp_scan(text, j + 1, sp)
    } else {
        j
    }
}

/// Bounds of the run scan.
pub proof fn lemma_sp_scan(text: Seq<char>, j: int, sp: bool)
    requires
        0 <= j <= text.len(),
    ensures
        j <= sp_scan(text, j, sp) <= text.len(),
    decreases text.len() - j,
{
    if j < text.len() && spec_is_space(text[j]) == sp {
        lemma_sp_scan(text, j + 1, sp);
    }
}

/// End of the maximal run of characters that share the spaceness of
/// the character at `i`.
pub open spec fn sp_run_end(text: Seq<char>, i: int) -> int {
    sp_scan(text, i + 1, spec_is_space(text[i]))
}

/// The syllables that occur inside a piece's text, in order.
pub open spec fn kept_syls(syls: Seq<Seq<char>>, ptext: Seq<char>) -> Seq<Seq<char>>
    decreases syls.len(),
{
    if syls.len() == 0 {
        Seq::empty()
    } else {
        kept_syls(syls.drop_last(), ptext) + (if is_substring_of(syls.last(), ptext) {
            seq![syls.last()]
        } else {
            Seq::empty()
        })
    }
}

/// One piece of a space split: a whitespace run becomes a punctuation
/// token, a segment between runs stays a text token keeping the
/// syllables that occur in it; `ofs` is the piece's byte offset.
pub open spec fn sp_piece_model(m: TokenModel, text: Seq<char>, a: int, b: int, ofs: int)
    -> TokenModel {
    let ptext = text.subrange(a, b);
    if spec_is_space(text[a]) {
        TokenModel {
            text: ptext,
            start: ofs,
            len: byte_len(ptext),
            chunk_type: ChunkType::Punct,
            pos: None,
            lemma: None,
            freq: None,
            syls: Seq::empty(),
            is_skrt: false,
            senses: Seq::empty(),
            affixation: None,
            is_affix: false,
            is_affix_host: false,
            has_merged_dagdra: false,
        }
    } else {
        TokenModel {
            text: ptext,
            start: ofs,
            len: byte_len(ptext),
            chunk_type: ChunkType::Text,
            pos: None,
            lemma: None,
            freq: None,
            syls: kept_syls(m.syls, ptext),
            is_skrt: false,
            senses: Seq::empty(),
            affixation: None,
            is_affix: false,
            is_affix_host: false,
            has_merged_dagdra: false,
        }
    }
}

/// The pieces of a token's text from position `i` on: one maximal run
/// of same spaceness, then the rest.
pub open spec fn spec_split_pieces(m: TokenModel, text: Seq<char>, i: int, ofs: int) -> Seq<
    TokenModel,
>
    decreases text.len() - i,
        via spec_split_pieces_dec
{
    if 0 <= i < text.len() {
        let j = sp_run_end(text, i);
        seq![sp_piece_model(m, text, i, j, ofs)] + spec_split_pieces(
            m,
            text,
            j,
            ofs + byte_len(text.subrange(i, j)),
        )
    } else {
        Seq::empty()
    }
}

#[via_fn]
proof fn spec_split_pieces_dec(m: TokenModel, text: Seq<char>, i: int, ofs: int) {
    if 0 <= i < text.len() {
        lemma_sp_scan(text, i + 1, spec_is_space(text[i]));
    }
}

/// The pieces one token splits into: whitespace runs as punctuation
/// tokens, the segments between as text tokens, starting at the
/// token's own offset.
pub open spec fn spec_split_token_spaces(m: TokenModel) -> Seq<TokenModel> {
    spec_split_pieces(m, m.text, 0, m.start)
}

/// Whether a token is split on spaces: a text token holding a plain
/// space, whose rebuilt offsets fit.
pub open spec fn should_space_split(m: TokenModel) -> bool {
    &&& m.chunk_type == ChunkType::Text
    &&& has_space_char(m.text)
    &&& m.start + byte_len(m.text) <= usize::MAX
}

/// The space-splitting pass over a token stream.
pub open spec fn spec_split_spaces(s: Seq<TokenModel>) -> Seq<TokenModel>
    decreases s.len(),
{
    if s.len() == 0 {
        Seq::empty()
    } else {
        (if should_space_split(s[0]) {
            spec_split_token_spaces(s[0])
        } else {
            seq![s[0]]
        }) + spec_split_spaces(s.drop_first())
    }
}

/// A copy of a token, field by field.
pub(crate) fn clone_token_pub(t: &Token) -> (r: Token)
    ensures
        tmodel(r) == tmodel(*t),
{
    clone_token(t)
}

/// A copy of a token, field by field.
fn clone_token(t: &Token) -> (r: Token)
    ensures
        tmodel(r) == tmodel(*t),
{
    let mut r = Token::with_text(t.text.clone(), t.start, t.len, t.chunk_type);
    r.pos = clone_opt_string(&t.pos);
    r.lemma = clone_opt_string(&t.lemma);
    r.freq = t.freq;
    r.syls = clone_strings(&t.syls);
    r.is_affix = t.is_affix;
    r.is_affix_host = t.is_affix_host;
    r.is_skrt = t.is_skrt;
    r.senses = crate::trie::copy_senses(&t.senses);
    r.affixation = match &t.affixation {
        Some(a) => Some(crate::token::AffixationInfo { len: a.len, aa: a.aa }),
        None => None,
    };
    r.has_merged_dagdra = t.has_merged_dagdra;
    proof {
        assert(views_of(r.syls@) =~= views_of(t.syls@));
    }
    r
}

/// Copies of a vector of strings, preserving the values.
fn clone_strings(v: &Vec<String>) -> (r: Vec<String>)
    ensures
        r@ == v@,
{
    let mut r: Vec<String> = Vec::new();
    let mut i: usize = 0;
    while i < v.len()
        invariant
            i <= v@.len(),
            r@ == v@.take(i as int),
        decreases v@.len() - i,
    {
        r.push(v[i].clone());
        proof {
            assert(r@ =~= v@.take(i + 1 as int));
        }
        i = i + 1;
    }
    proof {
        assert(v@.take(v@.len() as int) =~= v@);
    }
    r
}

/// Split one text token on its whitespace runs, exactly as
/// `spec_split_token_spaces` says.
#[verifier::rlimit(100)]
fn split_token_on_spaces(token: &Token) -> (r: Vec<Token>)
    requires
        token.start + byte_len(token.text@) <= usize::MAX,
    ensures
        tmodels(r@) == spec_split_token_spaces(tmodel(*token)),
{
    let ghost m = tmodel(*token);
    let ghost txt = token.text@;
    let ghost goal = spec_split_token_spaces(m);
    let chars = crate::strutil::str_chars(token.text.as_str());
    let n = chars.len();
    let total = crate::strutil::str_byte_len(token.text.as_str());
    let mut out: Vec<Token> = Vec::new();
    let mut i: usize = 0;
    let mut ofs: usize = token.start;
    proof {
        crate::strutil::lemma_byte_len_empty();
        assert(txt.take(0) =~= Seq::<char>::empty());
        assert(tmodels(out@) =~= Seq::<TokenModel>::empty());
        assert(goal == tmodels(out@) + spec_split_pieces(m, txt, 0, m.start));
    }
    while i < n
        invariant
            i <= n,
            n == txt.len(),
            chars@ == txt,
            txt == token.text@,
            m == tmodel(*token),
            total as int == byte_len(txt),
            token.start + byte_len(txt) <= usize::MAX,
            ofs as int == m.start + byte_len(txt.take(i as int)),
            goal == tmodels(out@) + spec_split_pieces(m, txt, i as int, ofs as int),
        decreases n - i,
    {
        let sp = is_space_char(chars[i]);
        let mut j = i + 1;
        while j < n && is_space_char(chars[j]) == sp
            invariant
                i < j <= n,
                n == txt.len(),
                chars@ == txt,
                sp == spec_is_space(txt[i as int]),
                sp_scan(txt, i + 1, sp) == sp_scan(txt, j as int, sp),
            decreases n - j,
        {
            j = j + 1;
        }
        proof {
            assert(j as int == sp_run_end(txt, i as int));
        }
        let ptext = token.text.as_str().substring_char(i, j).to_owned();
        let plen = crate::strutil::str_byte_len(ptext.as_str());
        proof {
            crate::strutil::lemma_byte_len_take_monotone(txt, j as int, n as int);
            crate::strutil::lemma_byte_len_take_all(txt);
            assert(txt.take(j as int) =~= txt.take(i as int) + txt.subrange(
                i as int,
                j as int,
            ));
            crate::strutil::lemma_byte_len_concat(
                txt.take(i as int),
                txt.subrange(i as int, j as int),
            );
            assert(ofs + plen <= usize::MAX);
        }
        let piece = if sp {
            Token::with_text(ptext, ofs, plen, ChunkType::Punct)
        } else {
            let mut t = Token::with_text(ptext, ofs, plen, ChunkType::Text);
            let mut kept: Vec<String> = Vec::new();
            let mut k: usize = 0;
            proof {
                assert(views_of(token.syls@).take(0)
                    =~= Seq::<Seq<char>>::empty());
                assert(kept_syls(views_of(token.syls@).take(0), t.text@)
                    =~= Seq::<Seq<char>>::empty());
                assert(views_of(kept@) =~= Seq::<Seq<char>>::empty());
            }
            while k < token.syls.len()
                invariant
                    k <= token.syls@.len(),
                    t.text@ == txt.subrange(i as int, j as int),
                    views_of(kept@) == kept_syls(
                        views_of(token.syls@).take(k as int),
                        t.text@,
                    ),
                decreases token.syls@.len() - k,
            {
                let ghost kv = views_of(token.syls@);
                proof {
                    assert(kv.take(k + 1).drop_last() =~= kv.take(k as int));
                    assert(kv.take(k + 1).last() == kv[k as int]);
                    assert(kv[k as int] == token.syls@[k as int]@);
                }
                let ghost kept_pre = kept@;
                if contains_str(t.text.as_str(), token.syls[k].as_str()) {
                    kept.push(token.syls[k].clone());
                    proof {
                        assert(views_of(kept@) =~= views_of(kept_pre).push(kv[k as int]));
                        assert(views_of(kept@) =~= kept_syls(kv.take(k + 1), t.text@));
                    }
                } else {
                    proof {
                        assert(kept_syls(kv.take(k + 1), t.text@) =~= kept_syls(
                            kv.take(k as int),
                            t.text@,
                        ));
                    }
                }
                k = k + 1;
            }
            proof {
                assert(views_of(token.syls@).take(token.syls@.len() as int) =~= views_of(
                    token.syls@,
                ));
            }
            t.syls = kept;
            t
        };
        proof {
            reveal(token_matches);
            assert(piece.senses@ =~= Seq::<crate::token::Sense>::empty());
            if sp {
                assert(views_of(piece.syls@) =~= Seq::<Seq<char>>::empty());
            }
            assert(token_matches(piece, sp_piece_model(m, txt, i as int, j as int, ofs as int)));
            assert(tmodel(piece) == sp_piece_model(m, txt, i as int, j as int, ofs as int));
            let rest0 = spec_split_pieces(
                m,
                txt,
                j as int,
                ofs as int + byte_len(txt.subrange(i as int, j as int)),
            );
            assert(spec_split_pieces(m, txt, i as int, ofs as int) == seq![
                sp_piece_model(m, txt, i as int, j as int, ofs as int),
            ] + rest0);
        }
        let ghost out_pre = out@;
        out.push(piece);
        proof {
            assert(tmodels(out@) =~= tmodels(out_pre).push(tmodel(piece)));
            assert(tmodels(out_pre).push(
                sp_piece_model(m, txt, i as int, j as int, ofs as int),
            ) + spec_split_pieces(
                m,
                txt,
                j as int,
                ofs as int + byte_len(txt.subrange(i as int, j as int)),
            ) =~= tmodels(out_pre) + (seq![
                sp_piece_model(m, txt, i as int, j as int, ofs as int),
            ] + spec_split_pieces(
                m,
                txt,
                j as int,
                ofs as int + byte_len(txt.subrange(i as int, j as int)),
            )));
        }
        ofs = ofs + plen;
        i = j;
    }
    proof {
        assert(spec_split_pieces(m, txt, i as int, ofs as int)
            =~= Seq::<TokenModel>::empty());
        assert(tmodels(out@) =~= tmodels(out@) + Seq::<TokenModel>::empty());
    }
    out
}


/// The syllable run is at least as long as any full syllable stretch.
pub proof fn lemma_max_run_at_least(ms: Seq<ChunkModel>, i: int, d: int)
    requires
        0 <= i,
        0 <= d,
        i + d <= ms.len(),
        all_syl(ms, i, d),
    ensures
        max_run(ms, i) >= d,
    decreases d,
{
    if d > 0 {
        assert(ms[i].syl is Some);
        lemma_max_run_at_least(ms, i + 1, d - 1);
        assert(max_run(ms, i) == 1 + max_run(ms, i + 1));
    } else {
        lemma_max_run(ms, i);
    }
}

/// A match of some length pushes the best match at least that far.
pub proof fn lemma_best_len_at_least(t: Trie, ms: Seq<ChunkModel>, i: int, m: int, m0: int)
    requires
        1 <= m0 <= m,
        matches_at(t, ms, i, m0),
    ensures
        best_len(t, ms, i, m) >= m0,
    decreases m,
{
    if m > m0 && !matches_at(t, ms, i, m) {
        lemma_best_len_at_least(t, ms, i, m - 1, m0);
    }
}

/// The longest match wins: when the dictionary holds both a word and a
/// longer word starting at the same chunk, and the chunk stream spells
/// the longer one, the token taken there spans at least the longer
/// word's syllables — the shorter word never cuts the match short.
pub proof fn lemma_longest_match_wins(
    t: Trie,
    ms: Seq<ChunkModel>,
    s: Seq<char>,
    i: int,
    n: int,
    k: int,
)
    requires
        0 <= i,
        n >= 1,
        k >= 1,
        i + n + k <= ms.len(),
        all_syl(ms, i, n + k),
        t.spec_has(prefix_word(ms, i, n)),
        t.spec_has(prefix_word(ms, i, n + k)),
    ensures
        best_len(t, ms, i, max_run(ms, i)) >= n + k,
        spec_tokens_from(t, ms, s, i).len() > 0,
        spec_tokens_from(t, ms, s, i)[0].syls.len() >= n + k,
{
    lemma_max_run_at_least(ms, i, n + k);
    lemma_max_run(ms, i);
    assert(matches_at(t, ms, i, n + k));
    lemma_best_len_at_least(t, ms, i, max_run(ms, i), n + k);
    let b = best_len(t, ms, i, max_run(ms, i));
    lemma_best_len_props(t, ms, i, max_run(ms, i));
    assert(ms[i].syl is Some);
    assert(spec_tokens_from(t, ms, s, i) == seq![matched_model(t, ms, s, i, b)]
        + spec_tokens_from(t, ms, s, i + b));
    reveal(matched_model);
    assert(spec_tokens_from(t, ms, s, i)[0] == matched_model(t, ms, s, i, b));
    assert(matched_model(t, ms, s, i, b).syls.len() == b);
}

/// Every token's text is exactly the bytes of the text between its
/// byte offsets: slicing the UTF-8 encoding of `s` between the byte
/// offsets of two character boundaries gives the encoding of the
/// characters between them.
pub proof fn lemma_token_text_is_slice(s: Seq<char>, a: int, b: int)
    requires
        0 <= a <= b <= s.len(),
    ensures
        crate::strutil::spec_encode(s.subrange(a, b)) == crate::strutil::spec_encode(
            s,
        ).subrange(byte_len(s.take(a)), byte_len(s.take(b))),
{
    crate::strutil::lemma_encode_slice(s, a, b);
}


impl Tokenizer {
    /// Tokenize with affix splitting on and whitespace kept inside
    /// tokens.
    pub fn tokenize(&self, text: &str) -> (r: Vec<Token>)
        ensures
            ({
                let ns = nfc_of(text@);
                tmodels(r@) == crate::modifiers::spec_apply_all(
                    spec_tokens(self.spec_trie(), spec_chunks(ns), ns),
                    true,
                )
            }),
    {
        self.tokenize_with_options(text, true)
    }

    /// Tokenize with whitespace kept inside tokens.
    pub fn tokenize_with_options(&self, text: &str, split_affixes: bool) -> (r: Vec<Token>)
        ensures
            ({
                let ns = nfc_of(text@);
                tmodels(r@) == crate::modifiers::spec_apply_all(
                    spec_tokens(self.spec_trie(), spec_chunks(ns), ns),
                    split_affixes,
                )
            }),
    {
        self.tokenize_with_full_options(text, split_affixes, false)
    }

    /// Tokenize with all options. Without `spaces_as_punct` the result
    /// is exactly the post-processed longest-match stream; with it,
    /// whitespace runs inside text tokens first become punctuation
    /// tokens of their own, as `spec_split_spaces` says.
    pub fn tokenize_with_full_options(
        &self,
        text: &str,
        split_affixes: bool,
        spaces_as_punct: bool,
    ) -> (r: Vec<Token>)
        ensures
            !spaces_as_punct ==> ({
                let ns = nfc_of(text@);
                tmodels(r@) == crate::modifiers::spec_apply_all(
                    spec_tokens(self.spec_trie(), spec_chunks(ns), ns),
                    split_affixes,
                )
            }),
            spaces_as_punct ==> ({
                let ns = nfc_of(text@);
                tmodels(r@) == crate::modifiers::spec_apply_all(
                    spec_split_spaces(spec_tokens(self.spec_trie(), spec_chunks(ns), ns)),
                    split_affixes,
                )
            }),
    {
        let ghost ns = nfc_of(text@);
        let mut tokens = self.tokenize_raw(text);
        proof {
            let toks = spec_tokens(self.spec_trie(), spec_chunks(ns), ns);
            reveal(token_matches);
            assert forall|j: int| 0 <= j < tokens@.len() implies tmodel(#[trigger] tokens@[j])
                == toks[j] by {}
            assert(tmodels(tokens@) =~= toks);
        }
        if spaces_as_punct {
            tokens = self.split_spaces_as_punct(tokens);
        }
        crate::modifiers::apply_all_modifiers(&mut tokens, split_affixes);
        tokens
    }

    /// Replace every text token holding a space by its pieces, as
    /// `spec_split_spaces` says: each maximal whitespace run becomes a
    /// punctuation token, the segments between stay text tokens.
    fn split_spaces_as_punct(&self, tokens: Vec<Token>) -> (r: Vec<Token>)
        ensures
            tmodels(r@) == spec_split_spaces(tmodels(tokens@)),
    {
        let ghost input = tokens@;
        let ghost goal = spec_split_spaces(tmodels(input));
        let mut result: Vec<Token> = Vec::new();
        let mut i: usize = 0;
        proof {
            assert(tmodels(input).skip(0) =~= tmodels(input));
            assert(tmodels(result@) =~= Seq::<TokenModel>::empty());
            assert(goal == tmodels(result@) + spec_split_spaces(
                tmodels(input).skip(0),
            ));
        }
        while i < tokens.len()
            invariant
                i <= input.len(),
                tokens@ == input,
                goal == spec_split_spaces(tmodels(input)),
                goal == tmodels(result@) + spec_split_spaces(
                    tmodels(input).skip(i as int),
                ),
            decreases input.len() - i,
        {
            let ghost msuffix = tmodels(input).skip(i as int);
            let t = &tokens[i];
            let ghost mt = tmodel(*t);
            proof {
                assert(msuffix[0] == mt);
                assert(msuffix.drop_first() =~= tmodels(input).skip(i + 1));
                assert(spec_split_spaces(msuffix) == (if should_space_split(mt) {
                    spec_split_token_spaces(mt)
                } else {
                    seq![mt]
                }) + spec_split_spaces(tmodels(input).skip(i + 1)));
            }
            let is_text = t.chunk_type == ChunkType::Text;
            let has_sp = contains_str(t.text.as_str(), " ");
            proof {
                reveal_strlit(" ");
                assert(" "@.len() == 1);
                assert(" "@[0] == ' ');
                assert(is_substring_of(" "@, mt.text) == has_space_char(mt.text)) by {
                    if is_substring_of(" "@, mt.text) {
                        let o = choose|o: int|
                            0 <= o <= mt.text.len() - 1 && #[trigger] mt.text.subrange(
                                o,
                                o + 1,
                            ) == " "@;
                        assert(mt.text.subrange(o, o + 1)[0] == mt.text[o]);
                    }
                    if has_space_char(mt.text) {
                        let k = choose|k: int|
                            0 <= k < mt.text.len() && mt.text[k] == ' ';
                        assert(mt.text.subrange(k, k + 1) =~= " "@);
                    }
                }
            }
            let tlen = crate::strutil::str_byte_len(t.text.as_str());
            let fits = t.start <= usize::MAX - tlen;
            let ghost result_pre = result@;
            if is_text && has_sp && fits {
                proof {
                    assert(should_space_split(mt));
                }
                let mut parts = split_token_on_spaces(t);
                let ghost parts_g = parts@;
                result.append(&mut parts);
                proof {
                    assert(result@ =~= result_pre + parts_g);
                    assert(tmodels(result@) =~= tmodels(result_pre) + tmodels(parts_g));
                }
            } else {
                proof {
                    assert(!should_space_split(mt));
                }
                result.push(clone_token(t));
                proof {
                    assert(tmodels(result@) =~= tmodels(result_pre).push(mt));
                    assert(tmodels(result_pre).push(mt) =~= tmodels(result_pre) + seq![mt]);
                }
            }
            i = i + 1;
        }
        proof {
            assert(spec_split_spaces(tmodels(input).skip(i as int))
                =~= Seq::<TokenModel>::empty());
            assert(tmodels(result@) =~= tmodels(result@) + Seq::<TokenModel>::empty());
        }
        result
    }
}



/// Two contiguous neighbors meet: the next chunk starts where this one
/// ends.
proof fn lemma_seam(ms: Seq<ChunkModel>, k: int)
    requires
        0 <= k < ms.len() - 1,
        forall|k2: int|
            0 <= k2 < ms.len() - 1 ==> (#[trigger] ms[k2 + 1]).start_char == ms[k2].end_char,
    ensures
        ms[k + 1].start_char == ms[k].end_char,
{
}

/// Ends of contiguous chunks grow along the list.
proof fn lemma_chain_ends(ms: Seq<ChunkModel>, i: int, j: int)
    requires
        0 <= i <= j < ms.len(),
        forall|k: int| 0 <= k < ms.len() ==> (#[trigger] ms[k]).start_char < ms[k].end_char,
        forall|k: int|
            0 <= k < ms.len() - 1 ==> (#[trigger] ms[k + 1]).start_char == ms[k].end_char,
    ensures
        ms[i].end_char <= ms[j].end_char,
    decreases j - i,
{
    if i < j {
        lemma_chain_ends(ms, i + 1, j);
        assert(ms[i + 1].start_char == ms[i].end_char);
    }
}

/// Concatenation of the texts of a token-model list.
pub open spec fn mtexts_concat(ms: Seq<TokenModel>) -> Seq<char>
    decreases ms.len(),
{
    if ms.len() == 0 {
        Seq::empty()
    } else {
        ms[0].text + mtexts_concat(ms.drop_first())
    }
}

/// The raw tokens tile the chunk spans: over contiguous chunks, the
/// texts of the tokens from chunk `i` on concatenate to the characters
/// from chunk `i`'s start to the last chunk's end.
pub proof fn lemma_tokens_tile(t: Trie, ms: Seq<ChunkModel>, s: Seq<char>, i: int)
    requires
        0 <= i <= ms.len(),
        forall|k: int| 0 <= k < ms.len() ==> 0 <= (#[trigger] ms[k]).start_char
            && ms[k].start_char < ms[k].end_char <= s.len(),
        forall|k: int|
            0 <= k < ms.len() - 1 ==> (#[trigger] ms[k + 1]).start_char == ms[k].end_char,
    ensures
        i < ms.len() ==> mtexts_concat(spec_tokens_from(t, ms, s, i)) == s.subrange(
            ms[i].start_char,
            ms[ms.len() - 1].end_char,
        ),
        i == ms.len() ==> mtexts_concat(spec_tokens_from(t, ms, s, i)) == Seq::<char>::empty(),
    decreases ms.len() - i,
{
    reveal(passthrough_model);
    reveal(unknown_model);
    reveal(matched_model);
    if i < ms.len() {
        let toks = spec_tokens_from(t, ms, s, i);
        if ms[i].syl is None {
            lemma_tokens_tile(t, ms, s, i + 1);
            assert(toks == seq![passthrough_model(ms[i], s)] + spec_tokens_from(
                t,
                ms,
                s,
                i + 1,
            ));
            assert(toks[0] == passthrough_model(ms[i], s));
            assert(toks.drop_first() =~= spec_tokens_from(t, ms, s, i + 1));
            assert(mtexts_concat(toks) == toks[0].text + mtexts_concat(toks.drop_first()));
            if i + 1 == ms.len() {
                assert(s.subrange(ms[i].start_char, ms[i].end_char) + Seq::<char>::empty()
                    =~= s.subrange(ms[i].start_char, ms[ms.len() - 1].end_char));
            } else {
                assert(ms[i + 1].start_char == ms[i].end_char);
                lemma_chain_ends(ms, i, ms.len() - 1);
                assert(s.subrange(ms[i].start_char, ms[i].end_char) + s.subrange(
                    ms[i].end_char,
                    ms[ms.len() - 1].end_char,
                ) =~= s.subrange(ms[i].start_char, ms[ms.len() - 1].end_char));
            }
        } else {
            lemma_max_run(ms, i);
            lemma_best_len_props(t, ms, i, max_run(ms, i));
            let b = best_len(t, ms, i, max_run(ms, i));
            if b >= 1 {
                lemma_tokens_tile(t, ms, s, i + b);
                assert(toks == seq![matched_model(t, ms, s, i, b)] + spec_tokens_from(
                    t,
                    ms,
                    s,
                    i + b,
                ));
                assert(toks[0] == matched_model(t, ms, s, i, b));
                assert(toks.drop_first() =~= spec_tokens_from(t, ms, s, i + b));
                assert(mtexts_concat(toks) == toks[0].text + mtexts_concat(
                    toks.drop_first(),
                ));
                assert(toks[0].text == s.subrange(ms[i].start_char, ms[i + b - 1].end_char));
                if i + b == ms.len() {
                    assert(s.subrange(ms[i].start_char, ms[i + b - 1].end_char)
                        + Seq::<char>::empty() =~= s.subrange(
                        ms[i].start_char,
                        ms[ms.len() - 1].end_char,
                    ));
                } else {
                    lemma_seam(ms, i + b - 1);
                    assert(ms[i + b].start_char == ms[i + b - 1].end_char);
                    lemma_chain_ends(ms, i + b - 1, ms.len() - 1);
                    lemma_chain_ends(ms, i, i + b - 1);
                    assert(s.subrange(ms[i].start_char, ms[i + b - 1].end_char) + s.subrange(
                        ms[i + b - 1].end_char,
                        ms[ms.len() - 1].end_char,
                    ) =~= s.subrange(ms[i].start_char, ms[ms.len() - 1].end_char));
                }
            } else {
                lemma_tokens_tile(t, ms, s, i + 1);
                assert(toks == seq![unknown_model(ms[i], s)] + spec_tokens_from(
                    t,
                    ms,
                    s,
                    i + 1,
                ));
                assert(toks[0] == unknown_model(ms[i], s));
                assert(toks.drop_first() =~= spec_tokens_from(t, ms, s, i + 1));
                assert(mtexts_concat(toks) == toks[0].text + mtexts_concat(
                    toks.drop_first(),
                ));
                if i + 1 == ms.len() {
                    assert(s.subrange(ms[i].start_char, ms[i].end_char)
                        + Seq::<char>::empty() =~= s.subrange(
                        ms[i].start_char,
                        ms[ms.len() - 1].end_char,
                    ));
                } else {
                    assert(ms[i + 1].start_char == ms[i].end_char);
                    lemma_chain_ends(ms, i, ms.len() - 1);
                    assert(s.subrange(ms[i].start_char, ms[i].end_char) + s.subrange(
                        ms[i].end_char,
                        ms[ms.len() - 1].end_char,
                    ) =~= s.subrange(ms[i].start_char, ms[ms.len() - 1].end_char));
                }
            }
        }
    }
}

/// The raw token stream concatenates to the whole text: for a text
/// with no leading transparent character, the texts of the tokens of
/// `spec_tokens` over its chunks give back the text itself,
/// character for character.
pub proof fn lemma_raw_tokens_concat(t: Trie, s: Seq<char>)
    requires
        s.len() > 0 ==> crate::char_categories::spec_char_category(s[0])
            != crate::char_categories::CharCategory::Transparent,
    ensures
        mtexts_concat(spec_tokens(t, spec_chunks(s), s)) == s,
{
    lemma_transparent_end(s, 0);
    lemma_chunks_from_cover(s, transparent_end(s, 0));
    let ms = spec_chunks(s);
    if s.len() == 0 {
        assert(ms.len() == 0);
        assert(mtexts_concat(spec_tokens_from(t, ms, s, 0)) =~= Seq::<char>::empty());
        assert(Seq::<char>::empty() =~= s);
    } else {
        assert(transparent_end(s, 0) == 0);
        assert(ms.len() > 0);
        lemma_tokens_tile(t, ms, s, 0);
        assert(ms[0].start_char == 0 && ms[ms.len() - 1].end_char == s.len());
        assert(s.subrange(0, s.len() as int) =~= s);
    }
}


/// Every token of the raw stream spans a character range of the text:
/// its text is those characters, its offset is the bytes before them,
/// its length their bytes.
pub proof fn lemma_tokens_substring_from(
    t: Trie,
    ms: Seq<ChunkModel>,
    s: Seq<char>,
    i: int,
    j: int,
)
    requires
        0 <= i <= ms.len(),
        forall|k: int|
            0 <= k < ms.len() ==> 0 <= (#[trigger] ms[k]).start_char && ms[k].start_char
                < ms[k].end_char <= s.len(),
        forall|k: int|
            0 <= k < ms.len() - 1 ==> (#[trigger] ms[k + 1]).start_char == ms[k].end_char,
        0 <= j < spec_tokens_from(t, ms, s, i).len(),
    ensures
        exists|a: int, b: int|
            #![trigger s.take(a), s.take(b)]
            {
                let tok = spec_tokens_from(t, ms, s, i)[j];
                0 <= a <= b <= s.len() && tok.text == s.subrange(a, b) && tok.start
                    == byte_len(s.take(a)) && tok.len == byte_len(s.take(b)) - byte_len(
                    s.take(a),
                )
            },
    decreases ms.len() - i,
{
    reveal(passthrough_model);
    reveal(unknown_model);
    reveal(matched_model);
    let toks = spec_tokens_from(t, ms, s, i);
    let tok = toks[j];
    if ms[i].syl is None {
        assert(toks == seq![passthrough_model(ms[i], s)] + spec_tokens_from(t, ms, s, i + 1));
        if j == 0 {
            assert(toks[0] == passthrough_model(ms[i], s));
            let a = ms[i].start_char;
            let b = ms[i].end_char;
            assert(0 <= a <= b <= s.len() && tok.text == s.subrange(a, b) && tok.start
                == byte_len(s.take(a)) && tok.len == byte_len(s.take(b)) - byte_len(
                s.take(a),
            ));
        } else {
            assert(toks.drop_first() =~= spec_tokens_from(t, ms, s, i + 1));
            assert(toks[j] == spec_tokens_from(t, ms, s, i + 1)[j - 1]);
            lemma_tokens_substring_from(t, ms, s, i + 1, j - 1);
        }
    } else {
        lemma_max_run(ms, i);
        lemma_best_len_props(t, ms, i, max_run(ms, i));
        let b0 = best_len(t, ms, i, max_run(ms, i));
        if b0 >= 1 {
            assert(toks == seq![matched_model(t, ms, s, i, b0)] + spec_tokens_from(
                t,
                ms,
                s,
                i + b0,
            ));
            if j == 0 {
                assert(toks[0] == matched_model(t, ms, s, i, b0));
                let a = ms[i].start_char;
                let b = ms[i + b0 - 1].end_char;
                lemma_chain_ends(ms, i, i + b0 - 1);
                assert(0 <= a <= b <= s.len() && tok.text == s.subrange(a, b) && tok.start
                    == byte_len(s.take(a)) && tok.len == byte_len(s.take(b)) - byte_len(
                    s.take(a),
                ));
            } else {
                assert(toks.drop_first() =~= spec_tokens_from(t, ms, s, i + b0));
                assert(toks[j] == spec_tokens_from(t, ms, s, i + b0)[j - 1]);
                lemma_tokens_substring_from(t, ms, s, i + b0, j - 1);
            }
        } else {
            assert(toks == seq![unknown_model(ms[i], s)] + spec_tokens_from(t, ms, s, i + 1));
            if j == 0 {
                assert(toks[0] == unknown_model(ms[i], s));
                let a = ms[i].start_char;
                let b = ms[i].end_char;
                assert(0 <= a <= b <= s.len() && tok.text == s.subrange(a, b) && tok.start
                    == byte_len(s.take(a)) && tok.len == byte_len(s.take(b)) - byte_len(
                    s.take(a),
                ));
            } else {
                assert(toks.drop_first() =~= spec_tokens_from(t, ms, s, i + 1));
                assert(toks[j] == spec_tokens_from(t, ms, s, i + 1)[j - 1]);
                lemma_tokens_substring_from(t, ms, s, i + 1, j - 1);
            }
        }
    }
}

/// Every raw token's text is, byte for byte, the slice of the text's
/// UTF-8 encoding between the token's offset and its offset plus its
/// length.
pub proof fn lemma_raw_token_substring(t: Trie, s: Seq<char>, j: int)
    requires
        0 <= j < spec_tokens(t, spec_chunks(s), s).len(),
    ensures
        ({
            let tok = spec_tokens(t, spec_chunks(s), s)[j];
            crate::strutil::spec_encode(tok.text) == crate::strutil::spec_encode(s).subrange(
                tok.start,
                tok.start + tok.len,
            )
        }),
{
    lemma_transparent_end(s, 0);
    lemma_chunks_from_cover(s, transparent_end(s, 0));
    let ms = spec_chunks(s);
    lemma_tokens_substring_from(t, ms, s, 0, j);
    let tok = spec_tokens(t, ms, s)[j];
    let (a, b) = choose|a: int, b: int|
        #![trigger s.take(a), s.take(b)]
        0 <= a <= b <= s.len() && tok.text == s.subrange(a, b) && tok.start == byte_len(
            s.take(a),
        ) && tok.len == byte_len(s.take(b)) - byte_len(s.take(a));
    crate::strutil::lemma_encode_slice(s, a, b);
}

} // verus!






