//! Post-processing of the raw token stream: affix splitting, dagdra
//! merging, lemma defaulting and sense selection, in that order.
//!
//! Every pass has a functional specification over token models; the
//! executable passes return exactly what the specifications say.

use vstd::prelude::*;
use crate::strutil::{clone_opt_string, str_byte_len, str_chars, string_from_chars, byte_len};
use crate::syllable::spec_is_dagdra;
use crate::token::{views_of, spec_join_tsek, spec_text_cleaned, ChunkType, Token, TSEK};
use crate::tokenizer::{tmodel, tmodels, opt_str_view, TokenModel};
use crate::trie::copy_senses;

verus! {

/// The cleaned text of a token model.
pub open spec fn m_cleaned(m: TokenModel) -> Seq<char> {
    spec_text_cleaned(m.syls, m.is_affix_host, m.is_affix)
}

/// Frequency of a sense, with zero for an absent one.
pub open spec fn sense_freq(s: crate::token::Sense) -> int {
    match s.freq {
        Some(f) => f as int,
        None => 0,
    }
}

/// The syllables of the affix host: all but the particle's characters.
pub open spec fn host_syls_of(m: TokenModel) -> Seq<Seq<char>> {
    let last = m.syls.last();
    let alen = m.affixation->0.len as int;
    let host_syl = last.take(last.len() - alen);
    if host_syl.len() > 0 {
        m.syls.drop_last().push(host_syl)
    } else {
        m.syls.drop_last()
    }
}

/// The characters of the split-off particle, without its tsek.
pub open spec fn particle_syl_of(m: TokenModel) -> Seq<char> {
    let last = m.syls.last();
    let alen = m.affixation->0.len as int;
    last.skip(last.len() - alen)
}

/// Whether a token is split: it carries affixation, no sense forbids
/// the split, it has at least two syllables, the last syllable is at
/// least as long as the particle, and the rebuilt positions fit.
pub open spec fn should_split(m: TokenModel) -> bool {
    &&& m.affixation is Some
    &&& !(exists|i: int| 0 <= i < m.senses.len() && !(#[trigger] m.senses[i]).affixed)
    &&& m.syls.len() > 1
    &&& m.syls.last().len() >= m.affixation->0.len as int
    &&& m.start + byte_len(spec_join_tsek(host_syls_of(m))) + byte_len(
        particle_syl_of(m) + seq![TSEK],
    ) <= usize::MAX
}

/// The host token of a split: the text rebuilt from the remaining
/// syllables, the word's tags kept, and the host flag set.
pub open spec fn host_model(m: TokenModel) -> TokenModel {
    let text = spec_join_tsek(host_syls_of(m));
    TokenModel {
        text: text,
        start: m.start,
        len: byte_len(text),
        chunk_type: ChunkType::Text,
        pos: m.pos,
        lemma: m.lemma,
        freq: m.freq,
        syls: host_syls_of(m),
        is_skrt: false,
        senses: m.senses,
        affixation: None,
        is_affix: false,
        is_affix_host: true,
        has_merged_dagdra: false,
    }
}

/// The particle token of a split: the particle's characters with a
/// trailing tsek, tagged `PART`.
pub open spec fn particle_model(m: TokenModel) -> TokenModel {
    let text = particle_syl_of(m) + seq![TSEK];
    TokenModel {
        text: text,
        start: m.start + byte_len(spec_join_tsek(host_syls_of(m))),
        len: byte_len(text),
        chunk_type: ChunkType::Text,
        pos: Some("PART"@),
        lemma: None,
        freq: None,
        syls: seq![particle_syl_of(m)],
        is_skrt: false,
        senses: Seq::empty(),
        affixation: None,
        is_affix: true,
        is_affix_host: false,
        has_merged_dagdra: false,
    }
}

/// The affix-splitting pass: each token that `should_split` becomes a
/// host and a particle; everything else stays.
pub open spec fn spec_split_affixed(s: Seq<TokenModel>) -> Seq<TokenModel>
    decreases s.len(),
{
    if s.len() == 0 {
        Seq::empty()
    } else if should_split(s[0]) {
        seq![host_model(s[0]), particle_model(s[0])] + spec_split_affixed(s.drop_first())
    } else {
        seq![s[0]] + spec_split_affixed(s.drop_first())
    }
}

/// Whether the second of two neighboring tokens merges into the first:
/// both are text, the second's cleaned text is a dagdra particle, and
/// the combined length fits.
pub open spec fn dagdra_mergeable(a: TokenModel, b: TokenModel) -> bool {
    &&& a.chunk_type == ChunkType::Text
    &&& b.chunk_type == ChunkType::Text
    &&& spec_is_dagdra(m_cleaned(b))
    &&& a.len + b.len <= usize::MAX
}

/// The merge of a dagdra particle into the token before it: texts and
/// syllables concatenate, the first token's tags stay, and the lemma
/// becomes the merged cleaned text.
pub open spec fn merged_model(a: TokenModel, b: TokenModel) -> TokenModel {
    let syls = a.syls + b.syls;
    TokenModel {
        text: a.text + b.text,
        start: a.start,
        len: a.len + b.len,
        chunk_type: ChunkType::Text,
        pos: a.pos,
        lemma: Some(spec_text_cleaned(syls, false, false)),
        freq: a.freq,
        syls: syls,
        is_skrt: false,
        senses: Seq::empty(),
        affixation: None,
        is_affix: false,
        is_affix_host: false,
        has_merged_dagdra: true,
    }
}

/// The dagdra-merging pass: a merged token is checked again against its
/// new right neighbor before the scan moves on.
pub open spec fn spec_merge_dagdra(s: Seq<TokenModel>) -> Seq<TokenModel>
    decreases s.len(),
{
    if s.len() >= 2 && dagdra_mergeable(s[0], s[1]) {
        spec_merge_dagdra(seq![merged_model(s[0], s[1])] + s.skip(2))
    } else if s.len() >= 1 {
        seq![s[0]] + spec_merge_dagdra(s.drop_first())
    } else {
        s
    }
}

/// The lemma-defaulting pass on one token: a token without a lemma but
/// with syllables takes its cleaned text as lemma.
pub open spec fn lemma_defaulted(m: TokenModel) -> TokenModel {
    if m.lemma is None && m.syls.len() > 0 {
        TokenModel { lemma: Some(m_cleaned(m)), ..m }
    } else {
        m
    }
}

/// The lemma-defaulting pass.
pub open spec fn spec_default_lemmas(s: Seq<TokenModel>) -> Seq<TokenModel> {
    Seq::new(s.len(), |i: int| lemma_defaulted(s[i]))
}

/// Stable insertion of a sense into a run sorted by falling frequency:
/// the new sense goes after every sense at least as frequent.
pub open spec fn spec_insert_sense(sorted: Seq<crate::token::Sense>, x: crate::token::Sense)
    -> Seq<crate::token::Sense>
    decreases sorted.len(),
{
    if sorted.len() == 0 {
        seq![x]
    } else if sense_freq(sorted.last()) >= sense_freq(x) {
        sorted.push(x)
    } else {
        spec_insert_sense(sorted.drop_last(), x).push(sorted.last())
    }
}

/// Stable sort of senses by falling frequency.
pub open spec fn spec_sort_senses(ss: Seq<crate::token::Sense>) -> Seq<crate::token::Sense>
    decreases ss.len(),
{
    if ss.len() == 0 {
        Seq::empty()
    } else {
        spec_insert_sense(spec_sort_senses(ss.drop_last()), ss.last())
    }
}

/// The sense-selection pass on one token: with two or more senses they
/// are sorted by falling frequency, and a token without a tag adopts
/// the most frequent sense's tag.
pub open spec fn sense_defaulted(m: TokenModel) -> TokenModel {
    if m.senses.len() > 1 {
        let sorted = spec_sort_senses(m.senses);
        TokenModel {
            senses: sorted,
            pos: if m.pos is None {
                opt_str_view(sorted[0].pos)
            } else {
                m.pos
            },
            ..m
        }
    } else {
        m
    }
}

/// The sense-selection pass.
pub open spec fn spec_default_senses(s: Seq<TokenModel>) -> Seq<TokenModel> {
    Seq::new(s.len(), |i: int| sense_defaulted(s[i]))
}

/// The whole pipeline: split, merge, default lemmas, default senses.
pub open spec fn spec_apply_all(s: Seq<TokenModel>, split_affixes: bool) -> Seq<TokenModel> {
    let after_split = if split_affixes {
        spec_split_affixed(s)
    } else {
        s
    };
    spec_default_senses(spec_default_lemmas(spec_merge_dagdra(after_split)))
}

/// Split one token at its affix boundary, as `host_model` and
/// `particle_model` say.
fn split_token_at_affix(token: &Token, affix_len: usize) -> (r: (Token, Token))
    requires
        should_split(tmodel(*token)),
        token.affixation is Some,
        token.affixation->0.len == affix_len,
    ensures
        tmodel(r.0) == host_model(tmodel(*token)),
        tmodel(r.1) == particle_model(tmodel(*token)),
{
    let ghost m = tmodel(*token);
    let n = token.syls.len();
    proof {
        assert(m.syls.len() == n);
        assert(m.syls.last() == token.syls@[n - 1]@);
    }
    let last_chars = str_chars(token.syls[n - 1].as_str());
    let split_idx = last_chars.len() - affix_len;
    let mut host_syl_chars: Vec<char> = Vec::new();
    let mut k: usize = 0;
    while k < split_idx
        invariant
            k <= split_idx <= last_chars@.len(),
            host_syl_chars@ == last_chars@.take(k as int),
        decreases split_idx - k,
    {
        host_syl_chars.push(last_chars[k]);
        proof {
            assert(host_syl_chars@ =~= last_chars@.take(k + 1 as int));
        }
        k = k + 1;
    }
    let mut particle_chars: Vec<char> = Vec::new();
    let mut k2: usize = split_idx;
    while k2 < last_chars.len()
        invariant
            split_idx <= k2 <= last_chars@.len(),
            particle_chars@ == last_chars@.subrange(split_idx as int, k2 as int),
        decreases last_chars@.len() - k2,
    {
        particle_chars.push(last_chars[k2]);
        proof {
            assert(particle_chars@ =~= last_chars@.subrange(split_idx as int, k2 + 1 as int));
        }
        k2 = k2 + 1;
    }
    proof {
        assert(particle_chars@ =~= particle_syl_of(m));
    }
    // host syllables: all but the last, plus the trimmed last when it
    // is not empty
    let mut host_syls: Vec<String> = Vec::new();
    let mut j: usize = 0;
    while j < n - 1
        invariant
            j <= n - 1,
            n == token.syls@.len(),
            host_syls@.len() == j,
            forall|x: int| 0 <= x < j ==> (#[trigger] host_syls@[x]) == token.syls@[x],
        decreases n - 1 - j,
    {
        host_syls.push(token.syls[j].clone());
        j = j + 1;
    }
    if host_syl_chars.len() > 0 {
        host_syls.push(string_from_chars(&host_syl_chars));
        proof {
            assert(views_of(host_syls@) =~= host_syls_of(m));
        }
    } else {
        proof {
            assert(views_of(host_syls@) =~= host_syls_of(m));
        }
    }
    let host_text_chars = crate::token::join_syls_chars(&host_syls);
    let host_text = string_from_chars(&host_text_chars);
    let host_len = str_byte_len(host_text.as_str());
    let mut host = Token::with_text(host_text, token.start, host_len, ChunkType::Text);
    host.syls = host_syls;
    host.pos = clone_opt_string(&token.pos);
    host.lemma = clone_opt_string(&token.lemma);
    host.freq = token.freq;
    host.is_affix_host = true;
    host.senses = copy_senses(&token.senses);
    let mut pchars = particle_chars;
    pchars.push(TSEK);
    proof {
        assert(pchars@ =~= particle_syl_of(m) + seq![TSEK]);
    }
    let particle_text = string_from_chars(&pchars);
    let plen = str_byte_len(particle_text.as_str());
    let mut particle = Token::with_text(
        particle_text,
        token.start + host_len,
        plen,
        ChunkType::Text,
    );
    let mut psyls: Vec<String> = Vec::new();
    psyls.push(string_from_chars(&particle_chars_copy(&pchars, affix_len)));
    particle.syls = psyls;
    particle.pos = Some("PART".to_owned());
    particle.is_affix = true;
    proof {
        assert((particle_syl_of(m) + seq![TSEK]).take(affix_len as int) =~= particle_syl_of(
            m,
        ));
        assert(views_of(particle.syls@) =~= seq![particle_syl_of(m)]);
        assert(particle.senses@ =~= Seq::<crate::token::Sense>::empty());
        assert(host.senses@ == m.senses);
        assert(tmodel(host) == host_model(m));
        assert(tmodel(particle) == particle_model(m));
    }
    (host, particle)
}

/// The particle's characters without the trailing tsek.
fn particle_chars_copy(pchars: &Vec<char>, affix_len: usize) -> (r: Vec<char>)
    requires
        pchars@.len() == affix_len + 1,
    ensures
        r@ == pchars@.take(affix_len as int),
{
    let mut r: Vec<char> = Vec::new();
    let mut i: usize = 0;
    while i < affix_len
        invariant
            i <= affix_len,
            pchars@.len() == affix_len + 1,
            r@ == pchars@.take(i as int),
        decreases affix_len - i,
    {
        r.push(pchars[i]);
        proof {
            assert(r@ =~= pchars@.take(i + 1 as int));
        }
        i = i + 1;
    }
    r
}

/// Try to split one token: the pair when `should_split` holds of it,
/// nothing otherwise.
fn try_split(t: &Token) -> (r: Option<(Token, Token)>)
    ensures
        match r {
            Some(hp) => should_split(tmodel(*t)) && tmodel(hp.0) == host_model(tmodel(*t))
                && tmodel(hp.1) == particle_model(tmodel(*t)),
            None => !should_split(tmodel(*t)),
        },
{
    let ghost m = tmodel(*t);
    let alen = match &t.affixation {
        Some(a) => a.len,
        None => {
            return None;
        },
    };
    let mut suppressed = false;
    let mut si: usize = 0;
    while si < t.senses.len()
        invariant
            si <= t.senses@.len(),
            suppressed == exists|x: int| 0 <= x < si && !(#[trigger] t.senses@[x]).affixed,
        decreases t.senses@.len() - si,
    {
        if !t.senses[si].affixed {
            suppressed = true;
        }
        si = si + 1;
    }
    if suppressed {
        return None;
    }
    let n = t.syls.len();
    if n <= 1 {
        return None;
    }
    proof {
        assert(m.syls.len() == n);
        assert(m.syls.last() == t.syls@[n - 1]@);
    }
    let last_chars = str_chars(t.syls[n - 1].as_str());
    if last_chars.len() < alen {
        return None;
    }
    let split_idx = last_chars.len() - alen;
    let mut host_syls: Vec<String> = Vec::new();
    let mut j: usize = 0;
    while j < n - 1
        invariant
            j <= n - 1,
            n == t.syls@.len(),
            host_syls@.len() == j,
            forall|x: int| 0 <= x < j ==> (#[trigger] host_syls@[x]) == t.syls@[x],
        decreases n - 1 - j,
    {
        host_syls.push(t.syls[j].clone());
        j = j + 1;
    }
    if split_idx > 0 {
        let mut hc: Vec<char> = Vec::new();
        let mut k: usize = 0;
        while k < split_idx
            invariant
                k <= split_idx <= last_chars@.len(),
                hc@ == last_chars@.take(k as int),
            decreases split_idx - k,
        {
            hc.push(last_chars[k]);
            proof {
                assert(hc@ =~= last_chars@.take(k + 1 as int));
            }
            k = k + 1;
        }
        host_syls.push(string_from_chars(&hc));
    }
    proof {
        assert(views_of(host_syls@) =~= host_syls_of(m));
    }
    let host_text_chars = crate::token::join_syls_chars(&host_syls);
    let host_text = string_from_chars(&host_text_chars);
    let host_len = str_byte_len(host_text.as_str());
    let mut pc: Vec<char> = Vec::new();
    let mut k2: usize = split_idx;
    while k2 < last_chars.len()
        invariant
            split_idx <= k2 <= last_chars@.len(),
            pc@ == last_chars@.subrange(split_idx as int, k2 as int),
        decreases last_chars@.len() - k2,
    {
        pc.push(last_chars[k2]);
        proof {
            assert(pc@ =~= last_chars@.subrange(split_idx as int, k2 + 1 as int));
        }
        k2 = k2 + 1;
    }
    pc.push(TSEK);
    proof {
        assert(pc@ =~= particle_syl_of(m) + seq![TSEK]);
    }
    let ptext = string_from_chars(&pc);
    let plen = str_byte_len(ptext.as_str());
    if t.start <= usize::MAX - host_len {
        if plen <= usize::MAX - host_len - t.start {
            proof {
                assert(should_split(m));
            }
            Some(split_token_at_affix(t, alen))
        } else {
            proof {
                assert(!should_split(m));
            }
            None
        }
    } else {
        proof {
            assert(!should_split(m));
        }
        None
    }
}

/// Split every affixed token into host and particle, as
/// `spec_split_affixed` says.
pub fn split_affixed(tokens: &mut Vec<Token>)
    ensures
        tmodels(final(tokens)@) == spec_split_affixed(tmodels(old(tokens)@)),
{
    let ghost goal = spec_split_affixed(tmodels(old(tokens)@));
    let mut i: usize = 0;
    proof {
        assert(tokens@.skip(0) =~= tokens@);
        assert(tmodels(tokens@.take(0)) =~= Seq::<TokenModel>::empty());
        assert(tmodels(tokens@.take(0)) + spec_split_affixed(tmodels(tokens@.skip(0)))
            =~= spec_split_affixed(tmodels(tokens@)));
    }
    while i < tokens.len()
        invariant
            i <= tokens@.len(),
            goal == tmodels(tokens@.take(i as int)) + spec_split_affixed(
                tmodels(tokens@.skip(i as int)),
            ),
        decreases tokens@.len() - i,
    {
        let ghost pre = tokens@;
        let ghost mseq = tmodels(pre.skip(i as int));
        proof {
            assert(mseq[0] == tmodel(pre[i as int]));
        }
        match try_split(&tokens[i]) {
            Some((host, particle)) => {
                let _ = tokens.remove(i);
                tokens.insert(i, host);
                tokens.insert(i + 1, particle);
                proof {
                    assert(tokens@ =~= pre.take(i as int) + seq![
                        tokens@[i as int],
                        tokens@[i + 1],
                    ] + pre.skip(i + 1));
                    assert(tmodels(pre.skip(i as int)).drop_first() =~= tmodels(
                        pre.skip(i + 1),
                    ));
                    assert(spec_split_affixed(mseq) == seq![
                        host_model(mseq[0]),
                        particle_model(mseq[0]),
                    ] + spec_split_affixed(tmodels(pre.skip(i + 1))));
                    assert(tmodels(tokens@.take(i + 2)) =~= tmodels(pre.take(i as int)) + seq![
                        host_model(mseq[0]),
                        particle_model(mseq[0]),
                    ]);
                    assert(tmodels(tokens@.skip(i + 2)) =~= tmodels(pre.skip(i + 1)));
                    assert(tmodels(pre.take(i as int)) =~= tmodels(tokens@.take(i as int)));
                    assert(tmodels(pre.take(i as int)) + (seq![
                        host_model(mseq[0]),
                        particle_model(mseq[0]),
                    ] + spec_split_affixed(tmodels(pre.skip(i + 1)))) =~= tmodels(
                        tokens@.take(i + 2),
                    ) + spec_split_affixed(tmodels(tokens@.skip(i + 2))));
                }
                let cur_len = tokens.len();
                proof {
                    assert(tokens@.len() == pre.len() + 1);
                    assert(i + 2 <= cur_len);
                }
                i = i + 2;
            },
            None => {
                proof {
                    lemma_keep_step(goal, pre, i as int);
                }
                i = i + 1;
            },
        }
    }
    proof {
        assert(tmodels(tokens@.skip(i as int)) =~= Seq::<TokenModel>::empty());
        assert(tokens@.take(i as int) =~= tokens@);
        assert(goal =~= tmodels(tokens@) + Seq::<TokenModel>::empty());
    }
}

/// One kept token moves from the pending part to the done part.
proof fn lemma_keep_step(goal: Seq<TokenModel>, pre: Seq<Token>, i: int)
    requires
        0 <= i < pre.len(),
        !should_split(tmodel(pre[i])),
        goal == tmodels(pre.take(i)) + spec_split_affixed(tmodels(pre.skip(i))),
    ensures
        goal == tmodels(pre.take(i + 1)) + spec_split_affixed(tmodels(pre.skip(i + 1))),
{
    let mseq = tmodels(pre.skip(i));
    assert(mseq[0] == tmodel(pre[i]));
    assert(mseq.drop_first() =~= tmodels(pre.skip(i + 1)));
    assert(spec_split_affixed(mseq) == seq![mseq[0]] + spec_split_affixed(
        tmodels(pre.skip(i + 1)),
    ));
    assert(tmodels(pre.take(i + 1)) =~= tmodels(pre.take(i)).push(tmodel(pre[i])));
    assert(tmodels(pre.take(i)).push(mseq[0]) + spec_split_affixed(tmodels(pre.skip(i + 1)))
        =~= tmodels(pre.take(i)) + (seq![mseq[0]] + spec_split_affixed(
        tmodels(pre.skip(i + 1)),
    )));
}

/// Merge one dagdra token into the token before it.
fn merge_two_tokens(first: &Token, second: &Token) -> (r: Token)
    requires
        first.len + second.len <= usize::MAX,
    ensures
        tmodel(r) == merged_model(tmodel(*first), tmodel(*second)),
{
    let merged_text = first.text.clone().concat(second.text.as_str());
    let mut merged = Token::with_text(
        merged_text,
        first.start,
        first.len + second.len,
        ChunkType::Text,
    );
    let mut syls: Vec<String> = Vec::new();
    let mut i: usize = 0;
    while i < first.syls.len()
        invariant
            i <= first.syls@.len(),
            syls@.len() == i,
            forall|x: int| 0 <= x < i ==> (#[trigger] syls@[x]) == first.syls@[x],
        decreases first.syls@.len() - i,
    {
        syls.push(first.syls[i].clone());
        i = i + 1;
    }
    let mut j: usize = 0;
    while j < second.syls.len()
        invariant
            j <= second.syls@.len(),
            syls@.len() == first.syls@.len() + j,
            forall|x: int|
                0 <= x < first.syls@.len() ==> (#[trigger] syls@[x]) == first.syls@[x],
            forall|x: int|
                0 <= x < j ==> (#[trigger] syls@[first.syls@.len() + x]) == second.syls@[x],
        decreases second.syls@.len() - j,
    {
        syls.push(second.syls[j].clone());
        j = j + 1;
    }
    proof {
        assert forall|x: int| 0 <= x < syls@.len() implies syls@[x] == (first.syls@
            + second.syls@)[x] by {
            if x >= first.syls@.len() {
                assert(syls@[first.syls@.len() + (x - first.syls@.len())] == second.syls@[x
                    - first.syls@.len()]);
            }
        }
        assert(syls@ =~= first.syls@ + second.syls@);
    }
    merged.syls = syls;
    merged.pos = clone_opt_string(&first.pos);
    merged.freq = first.freq;
    merged.has_merged_dagdra = true;
    let lemma_text = merged.text_cleaned();
    merged.lemma = Some(lemma_text);
    proof {
        assert(views_of(merged.syls@) =~= views_of(first.syls@) + views_of(second.syls@));
        assert(merged.senses@ =~= Seq::<crate::token::Sense>::empty());
        assert(tmodel(merged) == merged_model(tmodel(*first), tmodel(*second)));
    }
    merged
}

/// Merge dagdra particles into the token before them, as
/// `spec_merge_dagdra` says.
pub fn merge_dagdra(tokens: &mut Vec<Token>)
    ensures
        tmodels(final(tokens)@) == spec_merge_dagdra(tmodels(old(tokens)@)),
{
    let ghost goal = spec_merge_dagdra(tmodels(old(tokens)@));
    let mut i: usize = 0;
    proof {
        assert(tokens@.skip(0) =~= tokens@);
        assert(tmodels(tokens@.take(0)) =~= Seq::<TokenModel>::empty());
        assert(tmodels(tokens@.take(0)) + spec_merge_dagdra(tmodels(tokens@.skip(0)))
            =~= spec_merge_dagdra(tmodels(tokens@)));
    }
    while tokens.len() - i > 1
        invariant
            i <= tokens@.len(),
            goal == tmodels(tokens@.take(i as int)) + spec_merge_dagdra(
                tmodels(tokens@.skip(i as int)),
            ),
        decreases tokens@.len() - i,
    {
        let ghost pre = tokens@;
        let ghost mseq = tmodels(pre.skip(i as int));
        proof {
            assert(mseq[0] == tmodel(pre[i as int]));
            assert(mseq[1] == tmodel(pre[i + 1]));
        }
        let both_text = tokens[i].chunk_type == ChunkType::Text && tokens[i
            + 1].chunk_type == ChunkType::Text;
        let second_cleaned = tokens[i + 1].text_cleaned();
        let is_d = crate::syllable::is_dagdra(second_cleaned.as_str());
        let fits = tokens[i].len <= usize::MAX - tokens[i + 1].len;
        if both_text && is_d && fits {
            proof {
                assert(dagdra_mergeable(mseq[0], mseq[1]));
            }
            let merged = merge_two_tokens(&tokens[i], &tokens[i + 1]);
            let _ = tokens.remove(i + 1);
            let _ = tokens.remove(i);
            tokens.insert(i, merged);
            proof {
                assert(tokens@ =~= pre.take(i as int) + seq![tokens@[i as int]] + pre.skip(
                    i + 2,
                ));
                assert(tmodels(tokens@.skip(i as int)) =~= seq![
                    merged_model(mseq[0], mseq[1]),
                ] + tmodels(pre.skip(i + 2)));
                assert(mseq.skip(2) =~= tmodels(pre.skip(i + 2)));
                assert(spec_merge_dagdra(mseq) == spec_merge_dagdra(seq![
                    merged_model(mseq[0], mseq[1]),
                ] + mseq.skip(2)));
                assert(seq![merged_model(mseq[0], mseq[1])] + mseq.skip(2) =~= tmodels(
                    tokens@.skip(i as int),
                ));
                assert(tmodels(tokens@.take(i as int)) =~= tmodels(pre.take(i as int)));
            }
        } else {
            proof {
                assert(!dagdra_mergeable(mseq[0], mseq[1]));
                assert(mseq.drop_first() =~= tmodels(pre.skip(i + 1)));
                assert(spec_merge_dagdra(mseq) == seq![mseq[0]] + spec_merge_dagdra(
                    mseq.drop_first(),
                ));
                assert(tmodels(pre.take(i + 1)) =~= tmodels(pre.take(i as int)).push(
                    tmodel(pre[i as int]),
                ));
                assert(tmodels(pre.take(i as int)).push(mseq[0]) + spec_merge_dagdra(
                    tmodels(pre.skip(i + 1)),
                ) =~= tmodels(pre.take(i as int)) + (seq![mseq[0]] + spec_merge_dagdra(
                    tmodels(pre.skip(i + 1)),
                )));
            }
            i = i + 1;
        }
    }
    proof {
        let rest = tmodels(tokens@.skip(i as int));
        if i < tokens@.len() {
            assert(rest.len() == 1);
            assert(spec_merge_dagdra(rest) == seq![rest[0]] + spec_merge_dagdra(
                rest.drop_first(),
            ));
            assert(rest.drop_first() =~= Seq::<TokenModel>::empty());
            assert(seq![rest[0]] + Seq::<TokenModel>::empty() =~= rest);
        }
        assert(tmodels(tokens@.take(i as int)) + tmodels(tokens@.skip(i as int)) =~= tmodels(
            tokens@,
        ));
    }
}

/// Give every lemma-less token with syllables its cleaned text as
/// lemma, as `spec_default_lemmas` says.
pub fn generate_default_lemmas(tokens: &mut Vec<Token>)
    ensures
        tmodels(final(tokens)@) == spec_default_lemmas(tmodels(old(tokens)@)),
{
    let ghost orig = tokens@;
    let mut i: usize = 0;
    while i < tokens.len()
        invariant
            i <= tokens@.len(),
            tokens@.len() == orig.len(),
            forall|x: int| i <= x < orig.len() ==> (#[trigger] tokens@[x]) == orig[x],
            forall|x: int|
                0 <= x < i ==> tmodel(#[trigger] tokens@[x]) == lemma_defaulted(
                    tmodel(orig[x]),
                ),
        decreases tokens@.len() - i,
    {
        let needs = match &tokens[i].lemma {
            Some(_) => false,
            None => tokens[i].syls.len() > 0,
        };
        if needs {
            let ghost pre = tokens@;
            let cleaned = tokens[i].text_cleaned();
            let mut t = tokens.remove(i);
            t.lemma = Some(cleaned);
            tokens.insert(i, t);
            proof {
                assert(tokens@ =~= pre.update(i as int, tokens@[i as int]));
                assert(tmodel(tokens@[i as int]) == lemma_defaulted(tmodel(orig[i as int])));
            }
        }
        i = i + 1;
    }
    proof {
        assert(tmodels(tokens@) =~= spec_default_lemmas(tmodels(orig)));
    }
}

/// Stable insertion of one sense into a sorted run.
fn insert_sense(sorted: Vec<crate::token::Sense>, x: crate::token::Sense) -> (r: Vec<
    crate::token::Sense,
>)
    ensures
        r@ == spec_insert_sense(sorted@, x),
    decreases sorted@.len(),
{
    let ghost s0 = sorted@;
    if sorted.len() == 0 {
        let mut r = sorted;
        r.push(x);
        proof {
            assert(r@ =~= seq![x]);
        }
        r
    } else {
        let last_freq: u32 = match sorted[sorted.len() - 1].freq {
            Some(f) => f,
            None => 0,
        };
        let x_freq: u32 = match x.freq {
            Some(f) => f,
            None => 0,
        };
        if last_freq >= x_freq {
            let mut r = sorted;
            r.push(x);
            r
        } else {
            let mut rest = sorted;
            let last = rest.pop().unwrap();
            proof {
                assert(rest@ =~= s0.drop_last());
            }
            let mut r = insert_sense(rest, x);
            r.push(last);
            r
        }
    }
}

/// Stable sort of senses by falling frequency.
fn sort_senses(ss: &Vec<crate::token::Sense>) -> (r: Vec<crate::token::Sense>)
    ensures
        r@ == spec_sort_senses(ss@),
{
    let mut out: Vec<crate::token::Sense> = Vec::new();
    let mut i: usize = 0;
    proof {
        assert(ss@.take(0) =~= Seq::<crate::token::Sense>::empty());
    }
    while i < ss.len()
        invariant
            i <= ss@.len(),
            out@ == spec_sort_senses(ss@.take(i as int)),
        decreases ss@.len() - i,
    {
        let x = copy_one_sense(&ss[i]);
        out = insert_sense(out, x);
        proof {
            assert(ss@.take(i + 1 as int).drop_last() =~= ss@.take(i as int));
            assert(ss@.take(i + 1 as int).last() == ss@[i as int]);
        }
        i = i + 1;
    }
    proof {
        assert(ss@.take(ss@.len() as int) =~= ss@);
    }
    out
}

/// A copy of one sense, preserving the value.
fn copy_one_sense(x: &crate::token::Sense) -> (r: crate::token::Sense)
    ensures
        r == *x,
{
    crate::token::Sense {
        pos: clone_opt_string(&x.pos),
        lemma: clone_opt_string(&x.lemma),
        freq: x.freq,
        sense: clone_opt_string(&x.sense),
        meaning: clone_opt_string(&x.meaning),
        affixed: x.affixed,
    }
}

/// Sort each token's senses by falling frequency and let a tag-less
/// token adopt the most frequent sense's tag, as `spec_default_senses`
/// says.
pub fn choose_default_senses(tokens: &mut Vec<Token>)
    ensures
        tmodels(final(tokens)@) == spec_default_senses(tmodels(old(tokens)@)),
{
    let ghost orig = tokens@;
    let mut i: usize = 0;
    while i < tokens.len()
        invariant
            i <= tokens@.len(),
            tokens@.len() == orig.len(),
            forall|x: int| i <= x < orig.len() ==> (#[trigger] tokens@[x]) == orig[x],
            forall|x: int|
                0 <= x < i ==> tmodel(#[trigger] tokens@[x]) == sense_defaulted(
                    tmodel(orig[x]),
                ),
        decreases tokens@.len() - i,
    {
        if tokens[i].senses.len() > 1 {
            let ghost pre = tokens@;
            let sorted = sort_senses(&tokens[i].senses);
            let mut t = tokens.remove(i);
            let pos_missing = match &t.pos {
                Some(_) => false,
                None => true,
            };
            if pos_missing {
                proof {
                    assert(spec_sort_senses(t.senses@).len() == sorted@.len());
                }
                t.pos = clone_opt_string(&sorted[0].pos);
            }
            t.senses = sorted;
            tokens.insert(i, t);
            proof {
                assert(tokens@ =~= pre.update(i as int, tokens@[i as int]));
                assert(tmodel(tokens@[i as int]) == sense_defaulted(tmodel(orig[i as int])));
            }
        }
        i = i + 1;
    }
    proof {
        assert(tmodels(tokens@) =~= spec_default_senses(tmodels(orig)));
    }
}

/// Run the whole post-processing pipeline, as `spec_apply_all` says.
pub fn apply_all_modifiers(tokens: &mut Vec<Token>, split_affixes: bool)
    ensures
        tmodels(final(tokens)@) == spec_apply_all(tmodels(old(tokens)@), split_affixes),
{
    if split_affixes {
        split_affixed(tokens);
    }
    merge_dagdra(tokens);
    generate_default_lemmas(tokens);
    choose_default_senses(tokens);
}


/// The affix split is a round trip: for a clean token — its text is its
/// syllables joined with tseks plus a trailing tsek, its length is that
/// text's byte length, and the particle is shorter than the last
/// syllable — the host's and the particle's texts concatenate back to
/// the token's text, the host starts where the token started, and the
/// particle ends where the token ended.
pub proof fn lemma_split_round_trip(m: TokenModel)
    requires
        should_split(m),
        m.syls.last().len() > m.affixation->0.len as int,
        m.text == spec_text_cleaned(m.syls, false, false),
        m.len == byte_len(m.text),
    ensures
        host_model(m).text + particle_model(m).text == m.text,
        host_model(m).start == m.start,
        particle_model(m).start + particle_model(m).len == m.start + m.len,
{
    let last = m.syls.last();
    let alen = m.affixation->0.len as int;
    let hp = last.take(last.len() - alen);
    let ps = last.skip(last.len() - alen);
    let hs = host_syls_of(m);
    assert(hp.len() > 0);
    assert(hs == m.syls.drop_last().push(hp));
    assert(m.syls.drop_last().len() >= 1);
    assert(hs.drop_last() =~= m.syls.drop_last());
    assert(hs.last() == hp);
    assert(spec_join_tsek(hs) == spec_join_tsek(m.syls.drop_last()) + seq![TSEK] + hp);
    assert(spec_join_tsek(m.syls) == spec_join_tsek(m.syls.drop_last()) + seq![TSEK]
        + last);
    assert(hp + ps =~= last);
    assert(host_model(m).text + particle_model(m).text =~= spec_join_tsek(m.syls) + seq![
        TSEK,
    ]);
    assert(m.text == spec_join_tsek(m.syls) + seq![TSEK]);
    crate::strutil::lemma_byte_len_concat(host_model(m).text, particle_model(m).text);
}

/// A token of two or more syllables is never itself a dagdra
/// particle: its cleaned text holds a tsek before the final position,
/// and every dagdra form holds its only tsek at the end.
proof fn lemma_two_syls_not_dagdra(syls: Seq<Seq<char>>)
    requires
        syls.len() >= 2,
    ensures
        !spec_is_dagdra(spec_text_cleaned(syls, false, false)),
{
    let j = spec_join_tsek(syls);
    let text = spec_text_cleaned(syls, false, false);
    assert(j == spec_join_tsek(syls.drop_last()) + seq![TSEK] + syls.last());
    let q = spec_join_tsek(syls.drop_last()).len() as int;
    assert(j[q] == TSEK);
    assert(text == j + seq![TSEK]);
    assert(text[q] == TSEK);
    assert(text.len() >= q + 2);
    assert(text.last() == TSEK);
    if spec_is_dagdra(text) {
        let forms = crate::syllable::spec_dagdra();
        assert(forms.contains(text));
        let k = choose|k: int| 0 <= k < forms.len() && forms[k] == text;
        assert(forms.len() == 4);
        if k == 0 {
            assert(text == seq!['པ', TSEK]);
            assert(text.len() == 2 && q == 0);
            assert(text[0] == 'པ');
        } else if k == 1 {
            assert(text == seq!['པ', 'ོ', TSEK]);
            assert(text.len() == 3 && (q == 0 || q == 1));
            assert(text[0] == 'པ' && text[1] == 'ོ');
        } else if k == 2 {
            assert(text == seq!['བ', TSEK]);
            assert(text.len() == 2 && q == 0);
            assert(text[0] == 'བ');
        } else {
            assert(text == seq!['བ', 'ོ', TSEK]);
            assert(text.len() == 3 && (q == 0 || q == 1));
            assert(text[0] == 'བ' && text[1] == 'ོ');
        }
    }
}

/// Every token of a list has at least one syllable where it is text.
pub open spec fn text_tokens_syllabled(s: Seq<TokenModel>) -> bool {
    forall|i: int|
        0 <= i < s.len() ==> ((#[trigger] s[i]).chunk_type == ChunkType::Text ==> s[
        i].syls.len() >= 1)
}

/// The first token the dagdra pass leaves is the first token it was
/// given, or a merged token: text, of two or more syllables, and
/// carrying no affix marks.
proof fn lemma_merge_dagdra_head(s: Seq<TokenModel>)
    requires
        s.len() >= 1,
        text_tokens_syllabled(s),
    ensures
        spec_merge_dagdra(s).len() >= 1,
        spec_merge_dagdra(s)[0] == s[0] || (spec_merge_dagdra(s)[0].chunk_type
            == ChunkType::Text && spec_merge_dagdra(s)[0].syls.len() >= 2 && !spec_merge_dagdra(
            s,
        )[0].is_affix_host && !spec_merge_dagdra(s)[0].is_affix),
    decreases s.len(),
{
    if s.len() >= 2 && dagdra_mergeable(s[0], s[1]) {
        let m = merged_model(s[0], s[1]);
        let s2 = seq![m] + s.skip(2);
        assert(s2[0] == m);
        assert(m.syls.len() >= 2);
        assert(forall|i: int| 1 <= i < s2.len() ==> s2[i] == s[i + 1]);
        assert(text_tokens_syllabled(s2));
        assert(spec_merge_dagdra(s) == spec_merge_dagdra(s2));
        lemma_merge_dagdra_head(s2);
    } else {
        assert(spec_merge_dagdra(s) == seq![s[0]] + spec_merge_dagdra(s.drop_first()));
        assert(spec_merge_dagdra(s)[0] == s[0]);
    }
}

/// The dagdra-merging pass is idempotent: run on its own result it
/// changes nothing, as long as every text token has a syllable.
pub proof fn lemma_merge_dagdra_idempotent(s: Seq<TokenModel>)
    requires
        text_tokens_syllabled(s),
    ensures
        spec_merge_dagdra(spec_merge_dagdra(s)) == spec_merge_dagdra(s),
    decreases s.len(),
{
    if s.len() >= 2 && dagdra_mergeable(s[0], s[1]) {
        let m = merged_model(s[0], s[1]);
        let s2 = seq![m] + s.skip(2);
        assert(s2[0] == m);
        assert(m.syls.len() >= 2);
        assert(forall|i: int| 1 <= i < s2.len() ==> s2[i] == s[i + 1]);
        assert(text_tokens_syllabled(s2));
        assert(spec_merge_dagdra(s) == spec_merge_dagdra(s2));
        lemma_merge_dagdra_idempotent(s2);
    } else if s.len() >= 1 {
        let rest = s.drop_first();
        assert(forall|i: int| 0 <= i < rest.len() ==> rest[i] == s[i + 1]);
        assert(text_tokens_syllabled(rest));
        let t = spec_merge_dagdra(rest);
        lemma_merge_dagdra_idempotent(rest);
        assert(spec_merge_dagdra(s) == seq![s[0]] + t);
        let w = seq![s[0]] + t;
        if t.len() == 0 {
            assert(w.len() == 1);
            assert(w[0] == s[0]);
            assert(w.drop_first() =~= Seq::<TokenModel>::empty());
            assert(spec_merge_dagdra(w.drop_first()) =~= Seq::<TokenModel>::empty());
            assert(spec_merge_dagdra(w) == seq![w[0]] + spec_merge_dagdra(w.drop_first()));
            assert(spec_merge_dagdra(w) =~= w);
        } else {
            lemma_merge_dagdra_head(rest);
            assert(w[1] == t[0]);
            assert(!dagdra_mergeable(w[0], w[1])) by {
                if t[0] == rest[0] {
                    assert(rest[0] == s[1]);
                    assert(!dagdra_mergeable(s[0], s[1]));
                } else {
                    lemma_two_syls_not_dagdra(t[0].syls);
                    assert(m_cleaned(t[0]) == spec_text_cleaned(t[0].syls, false, false));
                    assert(!spec_is_dagdra(m_cleaned(t[0])));
                }
            }
            assert(w.drop_first() =~= t);
            assert(spec_merge_dagdra(w) == seq![w[0]] + spec_merge_dagdra(t));
            assert(spec_merge_dagdra(t) == t);
            assert(spec_merge_dagdra(w) == seq![s[0]] + t);
        }
    }
}

} // verus!

