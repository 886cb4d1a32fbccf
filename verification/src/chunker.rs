//! The chunker: a single pass that cuts a text into typed chunks.
//!
//! Each chunk is a syllable, a punctuation run, a number run, a symbol
//! run, a Latin run, a CJK run, or a single other character. Transparent
//! characters are swallowed by the chunk before them; a leading run of
//! transparent characters belongs to no chunk. The specification
//! functions below define the exact cut, and `make_chunks` returns
//! precisely the chunks they describe.

use vstd::prelude::*;
use crate::char_categories::{
    spec_char_category, spec_is_syllable_part, BoString, CharCategory,
};
use crate::strutil::{byte_len, lemma_byte_len_take_monotone, string_from_chars, str_chars, utf8_len, lemma_byte_len_take_succ, char_utf8_len};
use crate::token::ChunkType;

verus! {

/// A chunk of text: its cleaned syllable (for syllable chunks), its
/// type, and its byte range.
#[derive(Debug, Clone)]
pub struct Chunk {
    /// The cleaned syllable, without its trailing tsek; absent for
    /// non-syllable chunks
    pub syl: Option<String>,
    /// The kind of text this chunk spans
    pub chunk_type: ChunkType,
    /// Starting byte offset
    pub start: usize,
    /// Length in bytes
    pub len: usize,
}

impl Chunk {
    /// A chunk with the given parts.
    pub fn new(syl: Option<String>, chunk_type: ChunkType, start: usize, len: usize) -> (r:
        Chunk)
        ensures
            r.syl == syl,
            r.chunk_type == chunk_type,
            r.start == start,
            r.len == len,
    {
        Chunk { syl, chunk_type, start, len }
    }
}

/// The chunk a region of text becomes, in character indices.
pub ghost struct ChunkModel {
    /// The cleaned syllable of a syllable chunk
    pub syl: Option<Seq<char>>,
    /// The kind of chunk
    pub chunk_type: ChunkType,
    /// First character of the chunk
    pub start_char: int,
    /// One past the last character of the chunk
    pub end_char: int,
}

/// Category of the character at `i`.
pub open spec fn cat_at(s: Seq<char>, i: int) -> CharCategory {
    spec_char_category(s[i])
}

/// Where the syllable scan started at `i` stops: syllable parts are
/// taken; a tsek is taken and ends the scan; a transparent character is
/// taken and the scan goes on only when a syllable part follows;
/// anything else ends the scan before it.
pub open spec fn syl_scan_end(s: Seq<char>, i: int) -> int
    decreases s.len() - i,
{
    if 0 <= i < s.len() {
        if spec_is_syllable_part(cat_at(s, i)) {
            syl_scan_end(s, i + 1)
        } else if cat_at(s, i) == CharCategory::Tsek {
            i + 1
        } else if cat_at(s, i) == CharCategory::Transparent {
            if i + 1 < s.len() && spec_is_syllable_part(cat_at(s, i + 1)) {
                syl_scan_end(s, i + 1)
            } else {
                i + 1
            }
        } else {
            i
        }
    } else {
        i
    }
}

/// The syllable-part characters the syllable scan collects.
pub open spec fn syl_scan_chars(s: Seq<char>, i: int) -> Seq<char>
    decreases s.len() - i,
{
    if 0 <= i < s.len() {
        if spec_is_syllable_part(cat_at(s, i)) {
            seq![s[i]] + syl_scan_chars(s, i + 1)
        } else if cat_at(s, i) == CharCategory::Tsek {
            Seq::empty()
        } else if cat_at(s, i) == CharCategory::Transparent {
            if i + 1 < s.len() && spec_is_syllable_part(cat_at(s, i + 1)) {
                syl_scan_chars(s, i + 1)
            } else {
                Seq::empty()
            }
        } else {
            Seq::empty()
        }
    } else {
        Seq::empty()
    }
}

/// Whether a character of this category belongs to a run of the given
/// chunk type. Every run also swallows transparent characters.
pub open spec fn run_allowed(t: ChunkType, c: CharCategory) -> bool {
    match t {
        ChunkType::Punct => c == CharCategory::NormalPunct || c == CharCategory::SpecialPunct
            || c == CharCategory::Transparent,
        ChunkType::Num => c == CharCategory::Numeral || c == CharCategory::Transparent,
        ChunkType::Sym => c == CharCategory::Symbol || c == CharCategory::Transparent,
        ChunkType::Latin => c == CharCategory::Latin || c == CharCategory::Transparent,
        ChunkType::Cjk => c == CharCategory::Cjk || c == CharCategory::Transparent,
        _ => false,
    }
}

/// Where the run of the given chunk type started at `i` stops.
pub open spec fn run_end(s: Seq<char>, i: int, t: ChunkType) -> int
    decreases s.len() - i,
{
    if 0 <= i < s.len() && run_allowed(t, cat_at(s, i)) {
        run_end(s, i + 1, t)
    } else {
        i
    }
}

/// Where the run of transparent characters started at `i` stops.
pub open spec fn transparent_end(s: Seq<char>, i: int) -> int
    decreases s.len() - i,
{
    if 0 <= i < s.len() && cat_at(s, i) == CharCategory::Transparent {
        transparent_end(s, i + 1)
    } else {
        i
    }
}

/// Bounds of the syllable scan; it advances when it starts on a
/// syllable part, a tsek, or a transparent character.
pub proof fn lemma_syl_scan_end(s: Seq<char>, i: int)
    requires
        0 <= i <= s.len(),
    ensures
        i <= syl_scan_end(s, i) <= s.len(),
        i < s.len() && (spec_is_syllable_part(cat_at(s, i)) || cat_at(s, i)
            == CharCategory::Tsek || cat_at(s, i) == CharCategory::Transparent) ==> syl_scan_end(
            s,
            i,
        ) >= i + 1,
    decreases s.len() - i,
{
    if i < s.len() {
        lemma_syl_scan_end(s, i + 1);
    }
}


/// Bounds of a run scan; it advances when its first character belongs
/// to the run.
pub proof fn lemma_run_end(s: Seq<char>, i: int, t: ChunkType)
    requires
        0 <= i <= s.len(),
    ensures
        i <= run_end(s, i, t) <= s.len(),
        i < s.len() && run_allowed(t, cat_at(s, i)) ==> run_end(s, i, t) >= i + 1,
        run_end(s, i, t) < s.len() ==> !run_allowed(t, cat_at(s, run_end(s, i, t))),
    decreases s.len() - i,
{
    if i < s.len() && run_allowed(t, cat_at(s, i)) {
        lemma_run_end(s, i + 1, t);
    }
}

/// Bounds of the transparent scan; it stops on a non-transparent
/// character or at the end.
pub proof fn lemma_transparent_end(s: Seq<char>, i: int)
    requires
        0 <= i <= s.len(),
    ensures
        i <= transparent_end(s, i) <= s.len(),
        transparent_end(s, i) < s.len() ==> cat_at(s, transparent_end(s, i))
            != CharCategory::Transparent,
    decreases s.len() - i,
{
    if i < s.len() && cat_at(s, i) == CharCategory::Transparent {
        lemma_transparent_end(s, i + 1);
    }
}

/// The single chunk that starts at the non-transparent character `i`,
/// before trailing transparent characters are attached.
pub open spec fn spec_chunk_step(s: Seq<char>, i: int) -> ChunkModel
    recommends
        0 <= i < s.len(),
        cat_at(s, i) != CharCategory::Transparent,
{
    let k = cat_at(s, i);
    if spec_is_syllable_part(k) {
        ChunkModel {
            syl: Some(syl_scan_chars(s, i)),
            chunk_type: ChunkType::Text,
            start_char: i,
            end_char: syl_scan_end(s, i),
        }
    } else if k == CharCategory::Tsek {
        ChunkModel { syl: None, chunk_type: ChunkType::Punct, start_char: i, end_char: i + 1 }
    } else if k == CharCategory::NormalPunct || k == CharCategory::SpecialPunct {
        ChunkModel {
            syl: None,
            chunk_type: ChunkType::Punct,
            start_char: i,
            end_char: run_end(s, i, ChunkType::Punct),
        }
    } else if k == CharCategory::Numeral {
        ChunkModel {
            syl: None,
            chunk_type: ChunkType::Num,
            start_char: i,
            end_char: run_end(s, i, ChunkType::Num),
        }
    } else if k == CharCategory::Symbol {
        ChunkModel {
            syl: None,
            chunk_type: ChunkType::Sym,
            start_char: i,
            end_char: run_end(s, i, ChunkType::Sym),
        }
    } else if k == CharCategory::Latin {
        ChunkModel {
            syl: None,
            chunk_type: ChunkType::Latin,
            start_char: i,
            end_char: run_end(s, i, ChunkType::Latin),
        }
    } else if k == CharCategory::Cjk {
        ChunkModel {
            syl: None,
            chunk_type: ChunkType::Cjk,
            start_char: i,
            end_char: run_end(s, i, ChunkType::Cjk),
        }
    } else {
        ChunkModel { syl: None, chunk_type: ChunkType::Other, start_char: i, end_char: i + 1 }
    }
}

/// A chunk step always advances and stays inside the text.
pub proof fn lemma_chunk_step_bounds(s: Seq<char>, i: int)
    requires
        0 <= i < s.len(),
    ensures
        i < spec_chunk_step(s, i).end_char <= s.len(),
        spec_chunk_step(s, i).start_char == i,
{
    lemma_syl_scan_end(s, i);
    lemma_run_end(s, i, ChunkType::Punct);
    lemma_run_end(s, i, ChunkType::Num);
    lemma_run_end(s, i, ChunkType::Sym);
    lemma_run_end(s, i, ChunkType::Latin);
    lemma_run_end(s, i, ChunkType::Cjk);
}

/// The chunks of the text from position `i` on, where `i` stands on a
/// non-transparent character or at the end: one chunk step, extended by
/// the transparent run that follows it, then the rest.
pub open spec fn spec_chunks_from(s: Seq<char>, i: int) -> Seq<ChunkModel>
    decreases s.len() - i,
        via spec_chunks_from_dec
{
    if 0 <= i < s.len() {
        let m = spec_chunk_step(s, i);
        let e2 = transparent_end(s, m.end_char);
        seq![
            ChunkModel {
                syl: m.syl,
                chunk_type: m.chunk_type,
                start_char: i,
                end_char: e2,
            },
        ] + spec_chunks_from(s, e2)
    } else {
        Seq::empty()
    }
}

#[via_fn]
proof fn spec_chunks_from_dec(s: Seq<char>, i: int) {
    if 0 <= i < s.len() {
        lemma_chunk_step_bounds(s, i);
        lemma_transparent_end(s, spec_chunk_step(s, i).end_char);
    }
}

/// The chunks of a whole text: a leading transparent run belongs to no
/// chunk, then chunks follow each other.
pub open spec fn spec_chunks(s: Seq<char>) -> Seq<ChunkModel> {
    spec_chunks_from(s, transparent_end(s, 0))
}

/// Whether an executable chunk is the given model over the text `s`:
/// same syllable, same type, and the byte range that the model's
/// character range occupies.
#[verifier::opaque]
pub open spec fn chunk_matches(c: Chunk, m: ChunkModel, s: Seq<char>) -> bool {
    &&& (match (c.syl, m.syl) {
        (Some(cs), Some(ms)) => cs@ == ms,
        (None, None) => true,
        _ => false,
    })
    &&& c.chunk_type == m.chunk_type
    &&& c.start as int == byte_len(s.take(m.start_char))
    &&& c.len as int == byte_len(s.take(m.end_char)) - byte_len(s.take(m.start_char))
}

/// The chunks starting at a non-transparent position follow each other
/// without a gap, each is non-empty, and together they reach the end of
/// the text.
pub proof fn lemma_chunks_from_cover(s: Seq<char>, i: int)
    requires
        0 <= i <= s.len(),
        i < s.len() ==> cat_at(s, i) != CharCategory::Transparent,
    ensures
        ({
            let cs = spec_chunks_from(s, i);
            &&& (cs.len() == 0 <==> i == s.len())
            &&& (cs.len() > 0 ==> cs[0].start_char == i && cs[cs.len() - 1].end_char == s.len())
            &&& forall|k: int| 0 <= k < cs.len() ==> (#[trigger] cs[k]).start_char < cs[k].end_char
            &&& forall|k: int|
                0 <= k < cs.len() - 1 ==> (#[trigger] cs[k + 1]).start_char == cs[k].end_char
            &&& forall|k: int|
                0 <= k < cs.len() ==> 0 <= (#[trigger] cs[k]).start_char && cs[k].end_char
                    <= s.len()
        }),
    decreases s.len() - i,
{
    let cs = spec_chunks_from(s, i);
    if 0 <= i < s.len() {
        let m = spec_chunk_step(s, i);
        let e2 = transparent_end(s, m.end_char);
        lemma_chunk_step_bounds(s, i);
        lemma_transparent_end(s, m.end_char);
        lemma_chunks_from_cover(s, e2);
        let rest = spec_chunks_from(s, e2);
        assert(cs[0].start_char == i && cs[0].end_char == e2);
        assert(forall|k: int| 0 <= k < rest.len() ==> (#[trigger] rest[k]) == cs[k + 1]);
        if rest.len() == 0 {
            assert(e2 == s.len());
            assert(cs.len() == 1);
        }
    }
}

/// The chunks of a text with no leading transparent character are
/// contiguous in bytes: the first starts at byte zero, each begins
/// where the one before it ends, and the last ends at the last byte.
/// Concatenating the chunks' byte ranges gives back the whole text.
pub proof fn lemma_chunks_partition(s: Seq<char>)
    requires
        s.len() > 0 ==> spec_char_category(s[0]) != CharCategory::Transparent,
    ensures
        ({
            let cs = spec_chunks(s);
            &&& (cs.len() == 0 <==> s.len() == 0)
            &&& (cs.len() > 0 ==> byte_len(s.take(cs[0].start_char)) == 0)
            &&& (cs.len() > 0 ==> byte_len(s.take(cs[cs.len() - 1].end_char)) == byte_len(s))
            &&& forall|k: int|
                0 <= k < cs.len() - 1 ==> byte_len(s.take((#[trigger] cs[k + 1]).start_char))
                    == byte_len(s.take(cs[k].end_char))
            &&& forall|k: int|
                0 <= k < cs.len() ==> byte_len(s.take((#[trigger] cs[k]).start_char)) < byte_len(
                    s.take(cs[k].end_char),
                )
        }),
{
    if s.len() > 0 {
        assert(transparent_end(s, 0) == 0);
    }
    lemma_chunks_from_cover(s, transparent_end(s, 0));
    let cs = spec_chunks(s);
    if cs.len() > 0 {
        assert(s.take(0) =~= Seq::<char>::empty());
        crate::strutil::lemma_byte_len_empty();
        assert(s.take(s.len() as int) =~= s);
    }
    assert forall|k: int| 0 <= k < cs.len() implies byte_len(
        s.take((#[trigger] cs[k]).start_char),
    ) < byte_len(s.take(cs[k].end_char)) by {
        lemma_byte_len_take_succ(s, cs[k].start_char);
        lemma_byte_len_take_monotone(s, cs[k].start_char + 1, cs[k].end_char);
        crate::strutil::lemma_char_utf8_len_bounds(s[cs[k].start_char]);
    }
}

/// The chunker: a text with its per-character categories.
pub struct Chunker {
    bs: BoString,
}

/// Byte offsets of every character boundary of `s`.
pub open spec fn bp_ok(bp: Seq<usize>, s: Seq<char>) -> bool {
    &&& bp.len() == s.len() + 1
    &&& forall|k: int| 0 <= k <= s.len() ==> (#[trigger] bp[k]) as int == byte_len(s.take(k))
}

impl Chunker {
    /// The text this chunker cuts.
    pub closed spec fn spec_text(&self) -> Seq<char> {
        self.bs.string@
    }

    /// The chunker's category table matches its text.
    pub closed spec fn wf(&self) -> bool {
        self.bs.wf()
    }

    /// A chunker over the given text.
    pub fn new(text: &str) -> (r: Chunker)
        ensures
            r.wf(),
            r.spec_text() == text@,
    {
        Chunker { bs: BoString::new(text) }
    }

    /// The text this chunker cuts.
    pub fn string(&self) -> (r: &str)
        ensures
            r@ == self.spec_text(),
    {
        self.bs.string.as_str()
    }

    /// Category of character `i`, from the table.
    fn cat(&self, i: usize) -> (r: CharCategory)
        requires
            self.wf(),
            i < self.spec_text().len(),
        ensures
            r == cat_at(self.spec_text(), i as int),
    {
        self.bs.categories[i]
    }

    /// End of the transparent run starting at `i`.
    fn skip_transparent(&self, i: usize) -> (r: usize)
        requires
            self.wf(),
            i <= self.spec_text().len(),
        ensures
            r as int == transparent_end(self.spec_text(), i as int),
            i <= r <= self.spec_text().len(),
    {
        let ghost s = self.spec_text();
        let n = self.bs.categories.len();
        let mut j = i;
        while j < n && self.bs.categories[j] == CharCategory::Transparent
            invariant
                i <= j <= n,
                n == s.len(),
                self.wf(),
                s == self.spec_text(),
                transparent_end(s, i as int) == transparent_end(s, j as int),
            decreases n - j,
        {
            j = j + 1;
        }
        j
    }

    /// End of the run of the given chunk type starting at `i`.
    fn scan_run(&self, i: usize, t: ChunkType) -> (r: usize)
        requires
            self.wf(),
            i <= self.spec_text().len(),
        ensures
            r as int == run_end(self.spec_text(), i as int, t),
            i <= r <= self.spec_text().len(),
    {
        let ghost s = self.spec_text();
        let n = self.bs.categories.len();
        let mut j = i;
        while j < n && run_allowed_exec(t, self.bs.categories[j])
            invariant
                i <= j <= n,
                n == s.len(),
                self.wf(),
                s == self.spec_text(),
                run_end(s, i as int, t) == run_end(s, j as int, t),
            decreases n - j,
        {
            j = j + 1;
        }
        j
    }

    /// Collect one syllable: append the collected characters to `acc`
    /// and return the scan's end.
    fn syl_scan(&self, chars: &Vec<char>, i: usize, acc: &mut Vec<char>) -> (end: usize)
        requires
            self.wf(),
            chars@ == self.spec_text(),
            i <= self.spec_text().len(),
        ensures
            end as int == syl_scan_end(self.spec_text(), i as int),
            final(acc)@ == old(acc)@ + syl_scan_chars(self.spec_text(), i as int),
            i <= end <= self.spec_text().len(),
        decreases self.spec_text().len() - i,
    {
        let ghost s = self.spec_text();
        let n = self.bs.categories.len();
        if i >= n {
            proof {
                assert(final(acc)@ =~= old(acc)@ + syl_scan_chars(s, i as int));
            }
            return i;
        }
        let k = self.cat(i);
        if k.is_syllable_part() {
            acc.push(chars[i]);
            let end = self.syl_scan(chars, i + 1, acc);
            proof {
                assert(final(acc)@ =~= old(acc)@ + (seq![s[i as int]] + syl_scan_chars(
                    s,
                    i + 1,
                )));
            }
            end
        } else if k == CharCategory::Tsek {
            proof {
                assert(final(acc)@ =~= old(acc)@ + syl_scan_chars(s, i as int));
            }
            i + 1
        } else if k == CharCategory::Transparent {
            if i + 1 < n && self.cat(i + 1).is_syllable_part() {
                self.syl_scan(chars, i + 1, acc)
            } else {
                proof {
                    assert(final(acc)@ =~= old(acc)@ + syl_scan_chars(s, i as int));
                }
                i + 1
            }
        } else {
            proof {
                assert(final(acc)@ =~= old(acc)@ + syl_scan_chars(s, i as int));
            }
            i
        }
    }

    /// Read one syllable chunk starting at `start_i`: the cleaned
    /// syllable, the byte range up to the scan's end, and the end.
    fn read_syllable(&self, chars: &Vec<char>, bp: &Vec<usize>, start_i: usize) -> (r: (
        Chunk,
        usize,
    ))
        requires
            self.wf(),
            chars@ == self.spec_text(),
            bp_ok(bp@, self.spec_text()),
            start_i < self.spec_text().len(),
        ensures
            r.1 as int == syl_scan_end(self.spec_text(), start_i as int),
            start_i < r.1 <= self.spec_text().len() || (r.1 == start_i
                && !spec_is_syllable_part(cat_at(self.spec_text(), start_i as int))),
            r.0.chunk_type == ChunkType::Text,
            r.0.start == bp@[start_i as int],
            r.0.len as int == bp@[r.1 as int] - bp@[start_i as int],
            (match r.0.syl {
                Some(cs) => syl_scan_chars(self.spec_text(), start_i as int).len() > 0 && cs@
                    == syl_scan_chars(self.spec_text(), start_i as int),
                None => syl_scan_chars(self.spec_text(), start_i as int).len() == 0,
            }),
    {
        let ghost s = self.spec_text();
        let mut acc: Vec<char> = Vec::new();
        let end = self.syl_scan(chars, start_i, &mut acc);
        proof {
            lemma_syl_scan_end(s, start_i as int);
            lemma_byte_len_take_monotone(s, start_i as int, end as int);
        }
        let start = bp[start_i];
        let len = bp[end] - bp[start_i];
        let syl = if acc.len() == 0 {
            None
        } else {
            Some(string_from_chars(&acc))
        };
        (Chunk { syl, chunk_type: ChunkType::Text, start, len }, end)
    }

    /// Read one punctuation chunk starting at `start_i`.
    fn read_punct(&self, chars: &Vec<char>, bp: &Vec<usize>, start_i: usize) -> (r: (
        Chunk,
        usize,
    ))
        requires
            self.wf(),
            chars@ == self.spec_text(),
            bp_ok(bp@, self.spec_text()),
            start_i < self.spec_text().len(),
        ensures
            r.1 as int == run_end(self.spec_text(), start_i as int, ChunkType::Punct),
            start_i <= r.1 <= self.spec_text().len(),
            r.0.syl is None,
            r.0.chunk_type == ChunkType::Punct,
            r.0.start == bp@[start_i as int],
            r.0.len as int == bp@[r.1 as int] - bp@[start_i as int],
    {
        self.read_run(chars, bp, start_i, ChunkType::Punct)
    }

    /// Read one number chunk starting at `start_i`.
    fn read_numbers(&self, chars: &Vec<char>, bp: &Vec<usize>, start_i: usize) -> (r: (
        Chunk,
        usize,
    ))
        requires
            self.wf(),
            chars@ == self.spec_text(),
            bp_ok(bp@, self.spec_text()),
            start_i < self.spec_text().len(),
        ensures
            r.1 as int == run_end(self.spec_text(), start_i as int, ChunkType::Num),
            start_i <= r.1 <= self.spec_text().len(),
            r.0.syl is None,
            r.0.chunk_type == ChunkType::Num,
            r.0.start == bp@[start_i as int],
            r.0.len as int == bp@[r.1 as int] - bp@[start_i as int],
    {
        self.read_run(chars, bp, start_i, ChunkType::Num)
    }

    /// Read one symbol chunk starting at `start_i`.
    fn read_symbols(&self, chars: &Vec<char>, bp: &Vec<usize>, start_i: usize) -> (r: (
        Chunk,
        usize,
    ))
        requires
            self.wf(),
            chars@ == self.spec_text(),
            bp_ok(bp@, self.spec_text()),
            start_i < self.spec_text().len(),
        ensures
            r.1 as int == run_end(self.spec_text(), start_i as int, ChunkType::Sym),
            start_i <= r.1 <= self.spec_text().len(),
            r.0.syl is None,
            r.0.chunk_type == ChunkType::Sym,
            r.0.start == bp@[start_i as int],
            r.0.len as int == bp@[r.1 as int] - bp@[start_i as int],
    {
        self.read_run(chars, bp, start_i, ChunkType::Sym)
    }

    /// Read one Latin chunk starting at `start_i`.
    fn read_latin(&self, chars: &Vec<char>, bp: &Vec<usize>, start_i: usize) -> (r: (
        Chunk,
        usize,
    ))
        requires
            self.wf(),
            chars@ == self.spec_text(),
            bp_ok(bp@, self.spec_text()),
            start_i < self.spec_text().len(),
        ensures
            r.1 as int == run_end(self.spec_text(), start_i as int, ChunkType::Latin),
            start_i <= r.1 <= self.spec_text().len(),
            r.0.syl is None,
            r.0.chunk_type == ChunkType::Latin,
            r.0.start == bp@[start_i as int],
            r.0.len as int == bp@[r.1 as int] - bp@[start_i as int],
    {
        self.read_run(chars, bp, start_i, ChunkType::Latin)
    }

    /// Read one CJK chunk starting at `start_i`.
    fn read_cjk(&self, chars: &Vec<char>, bp: &Vec<usize>, start_i: usize) -> (r: (Chunk, usize))
        requires
            self.wf(),
            chars@ == self.spec_text(),
            bp_ok(bp@, self.spec_text()),
            start_i < self.spec_text().len(),
        ensures
            r.1 as int == run_end(self.spec_text(), start_i as int, ChunkType::Cjk),
            start_i <= r.1 <= self.spec_text().len(),
            r.0.syl is None,
            r.0.chunk_type == ChunkType::Cjk,
            r.0.start == bp@[start_i as int],
            r.0.len as int == bp@[r.1 as int] - bp@[start_i as int],
    {
        self.read_run(chars, bp, start_i, ChunkType::Cjk)
    }

    /// Read one run chunk of the given type starting at `start_i`.
    fn read_run(&self, chars: &Vec<char>, bp: &Vec<usize>, start_i: usize, t: ChunkType) -> (r: (
        Chunk,
        usize,
    ))
        requires
            self.wf(),
            chars@ == self.spec_text(),
            bp_ok(bp@, self.spec_text()),
            start_i < self.spec_text().len(),
        ensures
            r.1 as int == run_end(self.spec_text(), start_i as int, t),
            start_i <= r.1 <= self.spec_text().len(),
            r.0.syl is None,
            r.0.chunk_type == t,
            r.0.start == bp@[start_i as int],
            r.0.len as int == bp@[r.1 as int] - bp@[start_i as int],
    {
        let ghost s = self.spec_text();
        let end = self.scan_run(start_i, t);
        proof {
            lemma_byte_len_take_monotone(s, start_i as int, end as int);
        }
        let start = bp[start_i];
        let len = bp[end] - bp[start_i];
        (Chunk { syl: None, chunk_type: t, start, len }, end)
    }

    /// Cut the whole text into chunks, exactly as `spec_chunks` says.
    pub fn make_chunks(&self) -> (r: Vec<Chunk>)
        requires
            self.wf(),
        ensures
            r@.len() == spec_chunks(self.spec_text()).len(),
            forall|j: int|
                0 <= j < r@.len() ==> chunk_matches(
                    r@[j],
                    spec_chunks(self.spec_text())[j],
                    self.spec_text(),
                ),
    {
        let ghost s = self.spec_text();
        let ghost cs = spec_chunks(s);
        let chars = str_chars(self.bs.string.as_str());
        let n = chars.len();
        let total = crate::strutil::str_byte_len(self.bs.string.as_str());
        proof {
            crate::strutil::lemma_byte_len_take_all(s);
            assert(total as int == byte_len(s));
        }

        // byte offset of every character boundary
        let mut bp: Vec<usize> = Vec::new();
        let mut pos: usize = 0;
        bp.push(0);
        proof {
            crate::strutil::lemma_byte_len_empty();
            assert(s.take(0) =~= Seq::<char>::empty());
        }
        let mut ci: usize = 0;
        while ci < n
            invariant
                ci <= n,
                n == s.len(),
                chars@ == s,
                total as int == byte_len(s),
                pos as int == byte_len(s.take(ci as int)),
                bp@.len() == ci + 1,
                forall|k: int| 0 <= k <= ci ==> (#[trigger] bp@[k]) as int == byte_len(s.take(k)),
            decreases n - ci,
        {
            proof {
                lemma_byte_len_take_succ(s, ci as int);
                lemma_byte_len_take_monotone(s, ci + 1, n as int);
                crate::strutil::lemma_byte_len_take_all(s);
            }
            let w = utf8_len(chars[ci]);
            pos = pos + w;
            bp.push(pos);
            ci = ci + 1;
        }
        proof {
            assert(bp_ok(bp@, s));
        }

        let mut chunks: Vec<Chunk> = Vec::new();
        let mut i = self.skip_transparent(0);
        proof {
            lemma_transparent_end(s, 0);
            assert(spec_chunks_from(s, i as int) == cs.skip(0)) by {
                assert(cs.skip(0) =~= cs);
            }
        }
        while i < n
            invariant
                i <= n,
                n == s.len(),
                chars@ == s,
                self.wf(),
                s == self.spec_text(),
                cs == spec_chunks(s),
                bp_ok(bp@, s),
                spec_chunks_from(s, i as int) == cs.skip(chunks@.len() as int),
                chunks@.len() <= cs.len(),
                forall|j: int| 0 <= j < chunks@.len() ==> chunk_matches(chunks@[j], cs[j], s),
                i < n ==> cat_at(s, i as int) != CharCategory::Transparent,
            decreases n - i,
        {
            let ghost k_done = chunks@.len() as int;
            let ghost m = spec_chunk_step(s, i as int);
            let ghost e2 = transparent_end(s, m.end_char);
            proof {
                lemma_chunk_step_bounds(s, i as int);
                lemma_transparent_end(s, m.end_char);
                let rest0 = spec_chunks_from(s, e2);
                let mm = ChunkModel {
                    syl: m.syl,
                    chunk_type: m.chunk_type,
                    start_char: i as int,
                    end_char: e2,
                };
                assert(spec_chunks_from(s, i as int) == seq![mm] + rest0);
                assert((seq![mm] + rest0)[0] == mm);
                assert(cs.skip(k_done).len() == 1 + rest0.len());
                assert(cs.skip(k_done)[0] == cs[k_done]);
                assert(cs[k_done] == mm);
                assert(cs.skip(k_done).drop_first() =~= cs.skip(k_done + 1));
                assert((seq![mm] + rest0).drop_first() =~= rest0);
                assert(spec_chunks_from(s, e2) == cs.skip(k_done + 1));
            }
            let k = self.cat(i);
            let (mut chunk, step_end) = if k.is_syllable_part() {
                self.read_syllable(&chars, &bp, i)
            } else if k == CharCategory::Tsek {
                proof {
                    lemma_byte_len_take_monotone(s, i as int, i + 1);
                }
                (
                    Chunk {
                        syl: None,
                        chunk_type: ChunkType::Punct,
                        start: bp[i],
                        len: bp[i + 1] - bp[i],
                    },
                    i + 1,
                )
            } else if k == CharCategory::NormalPunct || k == CharCategory::SpecialPunct {
                self.read_punct(&chars, &bp, i)
            } else if k == CharCategory::Numeral {
                self.read_numbers(&chars, &bp, i)
            } else if k == CharCategory::Symbol {
                self.read_symbols(&chars, &bp, i)
            } else if k == CharCategory::Latin {
                self.read_latin(&chars, &bp, i)
            } else if k == CharCategory::Cjk {
                self.read_cjk(&chars, &bp, i)
            } else {
                proof {
                    lemma_byte_len_take_monotone(s, i as int, i + 1);
                }
                (
                    Chunk {
                        syl: None,
                        chunk_type: ChunkType::Other,
                        start: bp[i],
                        len: bp[i + 1] - bp[i],
                    },
                    i + 1,
                )
            };
            proof {
                assert(step_end as int == m.end_char);
                lemma_byte_len_take_monotone(s, i as int, step_end as int);
                lemma_byte_len_take_monotone(s, step_end as int, e2);
                lemma_byte_len_take_monotone(s, e2, n as int);
            }
            let after = self.skip_transparent(step_end);
            proof {
                assert(after as int == e2);
            }
            chunk.len = chunk.len + (bp[after] - bp[step_end]);
            chunks.push(chunk);
            i = after;
            proof {
                reveal(chunk_matches);
                assert(chunk_matches(chunks@.last(), cs[k_done], s));
                assert(forall|j: int|
                    0 <= j < k_done ==> chunk_matches(#[trigger] chunks@[j], cs[j], s));
            }
        }
        proof {
            assert(spec_chunks_from(s, i as int) =~= Seq::<ChunkModel>::empty());
            assert(cs.skip(chunks@.len() as int).len() == 0);
            assert(chunks@.len() == cs.len());
        }
        chunks
    }
}

/// Executable test for run membership, mirroring `run_allowed`.
fn run_allowed_exec(t: ChunkType, c: CharCategory) -> (r: bool)
    ensures
        r == run_allowed(t, c),
{
    match t {
        ChunkType::Punct => c == CharCategory::NormalPunct || c == CharCategory::SpecialPunct
            || c == CharCategory::Transparent,
        ChunkType::Num => c == CharCategory::Numeral || c == CharCategory::Transparent,
        ChunkType::Sym => c == CharCategory::Symbol || c == CharCategory::Transparent,
        ChunkType::Latin => c == CharCategory::Latin || c == CharCategory::Transparent,
        ChunkType::Cjk => c == CharCategory::Cjk || c == CharCategory::Transparent,
        _ => false,
    }
}

} // verus!
