//! Small string helpers shared across the crate: character extraction,
//! UTF-8 byte lengths, equality, and decimal parsing.

use vstd::prelude::*;
use vstd::utf8::{encode_scalar, encode_utf8, char_is_scalar, char_u32_cast};

verus! {

/// Collect the characters of a string into a vector.
pub fn str_chars(s: &str) -> (r: Vec<char>)
    ensures
        r@ == s@,
{
    let n = s.unicode_len();
    let mut r: Vec<char> = Vec::new();
    let mut i: usize = 0;
    while i < n
        invariant
            i <= n,
            n == s@.len(),
            r@ == s@.take(i as int),
        decreases n - i,
    {
        r.push(s.get_char(i));
        proof {
            assert(r@ =~= s@.take(i + 1 as int));
        }
        i = i + 1;
    }
    proof {
        assert(r@ =~= s@);
    }
    r
}

/// Relies on `String::from_iter` over `char`: the resulting string holds
/// exactly the given characters, in order.
#[verifier::external_body]
pub fn string_from_chars(v: &Vec<char>) -> (r: String)
    ensures
        r@ == v@,
{
    v.iter().collect()
}

/// Whether two string slices hold the same characters.
pub fn str_eq(a: &str, b: &str) -> (r: bool)
    ensures
        r == (a@ == b@),
{
    let na = a.unicode_len();
    let nb = b.unicode_len();
    if na != nb {
        proof {
            assert(a@ != b@);
        }
        return false;
    }
    let mut i: usize = 0;
    while i < na
        invariant
            i <= na,
            na == a@.len(),
            na == b@.len(),
            forall|j: int| 0 <= j < i ==> a@[j] == b@[j],
        decreases na - i,
    {
        if a.get_char(i) != b.get_char(i) {
            proof {
                assert(a@[i as int] != b@[i as int]);
            }
            return false;
        }
        i = i + 1;
    }
    proof {
        assert(a@ =~= b@);
    }
    true
}

/// Whether a character vector ends with the given suffix.
pub fn chars_end_with(v: &Vec<char>, suffix: &Vec<char>) -> (r: bool)
    ensures
        r == (v@.len() >= suffix@.len() && v@.skip(v@.len() - suffix@.len()) == suffix@),
{
    let n = v.len();
    let m = suffix.len();
    if n < m {
        return false;
    }
    let mut i: usize = 0;
    while i < m
        invariant
            i <= m,
            m <= n,
            n == v@.len(),
            m == suffix@.len(),
            forall|j: int| 0 <= j < i ==> v@[n - m + j] == suffix@[j],
        decreases m - i,
    {
        if v[n - m + i] != suffix[i] {
            proof {
                assert(v@.skip(n as int - m as int)[i as int] != suffix@[i as int]);
            }
            return false;
        }
        i = i + 1;
    }
    proof {
        assert(v@.skip(n as int - m as int) =~= suffix@);
    }
    true
}

/// Whether two character vectors hold the same characters.
pub fn chars_eq(a: &Vec<char>, b: &Vec<char>) -> (r: bool)
    ensures
        r == (a@ == b@),
{
    let na = a.len();
    let nb = b.len();
    if na != nb {
        proof {
            assert(a@ != b@);
        }
        return false;
    }
    let mut i: usize = 0;
    while i < na
        invariant
            i <= na,
            na == a@.len(),
            na == b@.len(),
            forall|j: int| 0 <= j < i ==> a@[j] == b@[j],
        decreases na - i,
    {
        if a[i] != b[i] {
            return false;
        }
        i = i + 1;
    }
    proof {
        assert(a@ =~= b@);
    }
    true
}

/// Copy of an optional string, preserving the value.
pub fn clone_opt_string(o: &Option<String>) -> (r: Option<String>)
    ensures
        r == *o,
{
    match o {
        Some(s) => Some(s.clone()),
        None => None,
    }
}

/// Concatenation of two character vectors.
pub fn concat_chars(a: &Vec<char>, b: &Vec<char>) -> (r: Vec<char>)
    ensures
        r@ == a@ + b@,
{
    let mut r: Vec<char> = Vec::new();
    let mut i: usize = 0;
    while i < a.len()
        invariant
            i <= a@.len(),
            r@ == a@.take(i as int),
        decreases a@.len() - i,
    {
        r.push(a[i]);
        proof {
            assert(r@ =~= a@.take(i + 1 as int));
        }
        i = i + 1;
    }
    let mut j: usize = 0;
    while j < b.len()
        invariant
            j <= b@.len(),
            r@ == a@.take(a@.len() as int) + b@.take(j as int),
        decreases b@.len() - j,
    {
        r.push(b[j]);
        proof {
            assert(r@ =~= a@.take(a@.len() as int) + b@.take(j + 1 as int));
        }
        j = j + 1;
    }
    proof {
        assert(r@ =~= a@ + b@);
    }
    r
}

/// Number of bytes of the UTF-8 encoding of one character.
#[verifier::opaque]
pub open spec fn char_utf8_len(c: char) -> int {
    encode_scalar(c as u32).len() as int
}

/// Number of bytes of the UTF-8 encoding of a character sequence.
#[verifier::opaque]
pub open spec fn byte_len(s: Seq<char>) -> int {
    encode_utf8(s).len() as int
}

/// The empty text has no bytes.
pub proof fn lemma_byte_len_empty()
    ensures
        byte_len(Seq::<char>::empty()) == 0,
{
    reveal(byte_len);
}

/// The encoding of a concatenation is the concatenation of the encodings.
pub proof fn lemma_encode_utf8_concat(a: Seq<char>, b: Seq<char>)
    ensures
        encode_utf8(a + b) == encode_utf8(a) + encode_utf8(b),
    decreases a.len(),
{
    if a.len() == 0 {
        assert(a + b =~= b);
        assert(encode_utf8(a) + encode_utf8(b) =~= encode_utf8(b));
    } else {
        lemma_encode_utf8_concat(a.drop_first(), b);
        assert((a + b).drop_first() =~= a.drop_first() + b);
        assert(encode_utf8(a + b) =~= encode_utf8(a) + encode_utf8(b));
    }
}

/// Byte length distributes over concatenation.
pub proof fn lemma_byte_len_concat(a: Seq<char>, b: Seq<char>)
    ensures
        byte_len(a + b) == byte_len(a) + byte_len(b),
{
    reveal(byte_len);
    lemma_encode_utf8_concat(a, b);
}

/// Extending a prefix by one character adds that character's byte length.
pub proof fn lemma_byte_len_take_succ(s: Seq<char>, i: int)
    requires
        0 <= i < s.len(),
    ensures
        byte_len(s.take(i + 1)) == byte_len(s.take(i)) + char_utf8_len(s[i]),
{
    reveal(byte_len);
    reveal(char_utf8_len);
    assert(s.take(i + 1) =~= s.take(i) + seq![s[i]]);
    lemma_byte_len_concat(s.take(i), seq![s[i]]);
    assert(encode_utf8(seq![s[i]]).len() == encode_scalar(s[i] as u32).len()) by {
        assert(seq![s[i]].drop_first() =~= Seq::<char>::empty());
        assert(encode_utf8(seq![s[i]]) =~= encode_scalar(s[i] as u32) + encode_utf8(
            Seq::<char>::empty(),
        ));
    }
}

/// Every character encodes to at least one byte.
pub proof fn lemma_char_utf8_len_bounds(c: char)
    ensures
        1 <= char_utf8_len(c) <= 4,
{
    reveal(char_utf8_len);
}

/// Byte positions grow with the character index.
pub proof fn lemma_byte_len_take_monotone(s: Seq<char>, i: int, j: int)
    requires
        0 <= i <= j <= s.len(),
    ensures
        byte_len(s.take(i)) <= byte_len(s.take(j)),
    decreases j - i,
{
    if i < j {
        lemma_byte_len_take_monotone(s, i, j - 1);
        lemma_byte_len_take_succ(s, j - 1);
        lemma_char_utf8_len_bounds(s[j - 1]);
    }
}

/// A full take is the sequence itself.
pub proof fn lemma_byte_len_take_all(s: Seq<char>)
    ensures
        byte_len(s.take(s.len() as int)) == byte_len(s),
{
    assert(s.take(s.len() as int) =~= s);
}

/// Relies on `str::len`: the length of a string slice is the number of
/// bytes of its UTF-8 encoding, and it fits in `usize` because the
/// slice exists in memory.
#[verifier::external_body]
pub fn str_byte_len(s: &str) -> (r: usize)
    ensures
        r as int == byte_len(s@),
{
    s.len()
}

/// Number of bytes of the UTF-8 encoding of one character.
pub fn utf8_len(c: char) -> (r: usize)
    ensures
        r == char_utf8_len(c),
{
    proof {
        reveal(char_utf8_len);
        char_is_scalar(c);
    }
    let u = c as u32;
    if u < 0x80 {
        1
    } else if u < 0x800 {
        2
    } else if u < 0x10000 {
        3
    } else {
        4
    }
}

/// Parse a non-negative decimal integer, the way the dictionary loader
/// needs it: an optional leading `+`, then one or more ASCII digits, and
/// a value that fits in `u32`; anything else is rejected.
pub open spec fn spec_is_digit(c: char) -> bool {
    '0' <= c && c <= '9'
}

/// Numeric value of a digit sequence, most significant digit first.
pub open spec fn spec_digits_value(s: Seq<char>) -> int
    decreases s.len(),
{
    if s.len() == 0 {
        0
    } else {
        spec_digits_value(s.drop_last()) * 10 + (s.last() as int - '0' as int)
    }
}

/// The digit run of a numeral: everything after an optional leading `+`.
pub open spec fn spec_strip_plus(s: Seq<char>) -> Seq<char> {
    if s.len() > 0 && s[0] == '+' {
        s.drop_first()
    } else {
        s
    }
}

/// Value of a pure digit run, if it is one and fits in `u32`.
pub open spec fn spec_parse_digits(d: Seq<char>) -> Option<u32> {
    if d.len() > 0 && (forall|i: int| 0 <= i < d.len() ==> spec_is_digit(d[i]))
        && spec_digits_value(d) <= u32::MAX {
        Some(spec_digits_value(d) as u32)
    } else {
        None
    }
}

/// Whether a character sequence is an acceptable `u32` literal:
/// an optional `+` sign, then one or more digits, with a value in range.
pub open spec fn spec_parse_u32(s: Seq<char>) -> Option<u32> {
    spec_parse_digits(spec_strip_plus(s))
}

/// Parse the characters as a `u32`, as `spec_parse_u32` says.
pub fn parse_u32_chars(v: &Vec<char>, from: usize, to: usize) -> (r: Option<u32>)
    requires
        from <= to <= v@.len(),
    ensures
        r == spec_parse_u32(v@.subrange(from as int, to as int)),
{
    let ghost s = v@.subrange(from as int, to as int);
    let mut i: usize = from;
    if i < to && v[i] == '+' {
        i = i + 1;
    }
    let ghost digits = spec_strip_plus(s);
    proof {
        assert(digits =~= v@.subrange(i as int, to as int));
    }
    if i == to {
        return None;
    }
    let mut acc: u32 = 0;
    let ghost start = i as int;
    while i < to
        invariant
            0 <= start <= i as int,
            i <= to <= v@.len(),
            start < to,
            from <= to,
            s == v@.subrange(from as int, to as int),
            digits == spec_strip_plus(s),
            digits == v@.subrange(start, to as int),
            forall|j: int| start <= j < i ==> spec_is_digit(v@[j]),
            acc == spec_digits_value(v@.subrange(start, i as int)),
            acc <= u32::MAX,
        decreases to - i,
    {
        let c = v[i];
        if c < '0' || c > '9' {
            proof {
                assert(v@.subrange(start, to as int)[i - start] == v@[i as int]);
                assert(!spec_is_digit(digits[i - start]));
                assert(spec_parse_digits(digits) is None);
            }
            return None;
        }
        let d: u32 = (c as u32) - ('0' as u32);
        proof {
            char_u32_cast(c, c as u32);
            assert(d <= 9);
        }
        if acc > (u32::MAX - d) / 10 {
            proof {
                if forall|j: int| i as int <= j < to as int ==> spec_is_digit(v@[j]) {
                    lemma_digits_value_ge(v@, start, i as int, to as int, acc as int, d as int);
                    assert(spec_parse_digits(digits) is None);
                } else {
                    let j = choose|j: int|
                        i as int <= j < to as int && !spec_is_digit(v@[j]);
                    assert(v@.subrange(start, to as int)[j - start] == v@[j]);
                    assert(!spec_is_digit(digits[j - start]));
                    assert(spec_parse_digits(digits) is None);
                }
            }
            return None;
        }
        let next = acc * 10 + d;
        proof {
            assert(v@.subrange(start, i + 1).drop_last() =~= v@.subrange(start, i as int));
            assert(v@.subrange(start, i + 1).last() == v@[i as int]);
        }
        acc = next;
        i = i + 1;
    }
    proof {
        assert(v@.subrange(start, to as int) =~= digits);
    }
    Some(acc)
}

/// If the next accumulated value would exceed `u32::MAX`, then the value of
/// the whole digit run exceeds it too, so the parse must fail.
proof fn lemma_digits_value_ge(v: Seq<char>, start: int, i: int, to: int, acc: int, d: int)
    requires
        0 <= start <= i < to <= v.len(),
        acc == spec_digits_value(v.subrange(start, i)),
        d == v[i] as int - '0' as int,
        0 <= d <= 9,
        acc * 10 + d > u32::MAX,
        forall|j: int| start <= j < i ==> spec_is_digit(v[j]),
        forall|j: int| i <= j < to ==> spec_is_digit(v[j]),
    ensures
        spec_digits_value(v.subrange(start, to)) > u32::MAX,
{
    assert(v.subrange(start, i + 1).drop_last() =~= v.subrange(start, i));
    assert(v.subrange(start, i + 1).last() == v[i]);
    assert(spec_digits_value(v.subrange(start, i + 1)) == acc * 10 + d);
    lemma_digits_value_monotone(v, start, i + 1, to);
}

/// Appending digits never decreases the value of the run.
proof fn lemma_digits_value_monotone(v: Seq<char>, start: int, i: int, to: int)
    requires
        0 <= start <= i <= to <= v.len(),
        forall|j: int| start <= j < to ==> spec_is_digit(v[j]),
    ensures
        spec_digits_value(v.subrange(start, to)) >= spec_digits_value(v.subrange(start, i)),
        spec_digits_value(v.subrange(start, i)) >= 0,
    decreases to - i,
{
    lemma_digits_value_nonneg(v.subrange(start, i));
    if i < to {
        lemma_digits_value_monotone(v, start, i + 1, to);
        assert(v.subrange(start, i + 1).drop_last() =~= v.subrange(start, i));
        lemma_digits_value_nonneg(v.subrange(start, i + 1));
    }
}

/// The value of a digit run is non-negative.
proof fn lemma_digits_value_nonneg(s: Seq<char>)
    requires
        forall|i: int| 0 <= i < s.len() ==> spec_is_digit(s[i]),
    ensures
        spec_digits_value(s) >= 0,
    decreases s.len(),
{
    if s.len() > 0 {
        lemma_digits_value_nonneg(s.drop_last());
    }
}


/// The UTF-8 encoding of a character sequence, by name.
pub open spec fn spec_encode(s: Seq<char>) -> Seq<u8> {
    encode_utf8(s)
}

/// Slicing the encoding between two character boundaries gives the
/// encoding of the characters between them.
pub proof fn lemma_encode_slice(s: Seq<char>, a: int, b: int)
    requires
        0 <= a <= b <= s.len(),
    ensures
        spec_encode(s.subrange(a, b)) == spec_encode(s).subrange(
            byte_len(s.take(a)),
            byte_len(s.take(b)),
        ),
{
    reveal(byte_len);
    assert(s =~= s.take(a) + (s.subrange(a, b) + s.skip(b)));
    lemma_encode_utf8_concat(s.take(a), s.subrange(a, b) + s.skip(b));
    lemma_encode_utf8_concat(s.subrange(a, b), s.skip(b));
    assert(s.take(b) =~= s.take(a) + s.subrange(a, b));
    lemma_encode_utf8_concat(s.take(a), s.subrange(a, b));
    assert(encode_utf8(s) == encode_utf8(s.take(a)) + (encode_utf8(s.subrange(a, b))
        + encode_utf8(s.skip(b))));
    assert(encode_utf8(s).subrange(
        encode_utf8(s.take(a)).len() as int,
        encode_utf8(s.take(a)).len() as int + encode_utf8(s.subrange(a, b)).len() as int,
    ) =~= encode_utf8(s.subrange(a, b)));
}

} // verus!

