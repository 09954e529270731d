//! How positions among the characters of a string relate to offsets in its UTF-8 encoding.
use vstd::prelude::*;
use vstd::utf8::*;

verus! {

/// The byte offset at which character `k` of `s` begins.
pub open spec fn byte_offset(s: Seq<char>, k: int) -> int {
    encode_utf8(s.take(k)).len() as int
}

/// The encoding of a concatenation is the concatenation of the encodings.
pub proof fn lemma_encode_concat(a: Seq<char>, b: Seq<char>)
    ensures
        encode_utf8(a + b) == encode_utf8(a) + encode_utf8(b),
    decreases a.len(),
{
    if a.len() == 0 {
        assert(a + b =~= b);
        assert(encode_utf8(a) + encode_utf8(b) =~= encode_utf8(b));
    } else {
        assert((a + b).drop_first() =~= a.drop_first() + b);
        lemma_encode_concat(a.drop_first(), b);
        assert(encode_utf8(a + b) =~= encode_utf8(a) + encode_utf8(b));
    }
}

/// Two strings with the same encoding are the same string.
pub proof fn lemma_encode_injective(a: Seq<char>, b: Seq<char>)
    requires
        encode_utf8(a) == encode_utf8(b),
    ensures
        a == b,
{
    encode_utf8_decode_utf8(a);
    encode_utf8_decode_utf8(b);
}

/// A non-empty string has a non-empty encoding, which does not begin with a continuation byte.
pub proof fn lemma_encode_nonempty(s: Seq<char>)
    requires
        s.len() > 0,
    ensures
        encode_utf8(s).len() > 0,
        !is_continuation_byte(encode_utf8(s)[0]),
{
    encode_utf8_first_scalar(s);
}

/// The encoding of a string splits at the offset of each of its characters.
pub proof fn lemma_encode_split(s: Seq<char>, k: int)
    requires
        0 <= k <= s.len(),
    ensures
        encode_utf8(s) == encode_utf8(s.take(k)) + encode_utf8(s.skip(k)),
        0 <= byte_offset(s, k) <= encode_utf8(s).len(),
        encode_utf8(s).take(byte_offset(s, k)) == encode_utf8(s.take(k)),
        encode_utf8(s).skip(byte_offset(s, k)) == encode_utf8(s.skip(k)),
{
    assert(s =~= s.take(k) + s.skip(k));
    lemma_encode_concat(s.take(k), s.skip(k));
    assert(encode_utf8(s).take(byte_offset(s, k)) =~= encode_utf8(s.take(k)));
    assert(encode_utf8(s).skip(byte_offset(s, k)) =~= encode_utf8(s.skip(k)));
}

/// Offsets grow with the position.
pub proof fn lemma_byte_offset_monotone(s: Seq<char>, j: int, k: int)
    requires
        0 <= j < k <= s.len(),
    ensures
        byte_offset(s, j) < byte_offset(s, k),
{
    let t = s.take(k);
    lemma_encode_split(t, j);
    assert(t.take(j) =~= s.take(j));
    lemma_encode_nonempty(t.skip(j));
}

/// Offsets tell positions apart.
pub proof fn lemma_byte_offset_injective(s: Seq<char>, j: int, k: int)
    requires
        0 <= j <= s.len(),
        0 <= k <= s.len(),
        byte_offset(s, j) == byte_offset(s, k),
    ensures
        j == k,
{
    if j < k {
        lemma_byte_offset_monotone(s, j, k);
    } else if k < j {
        lemma_byte_offset_monotone(s, k, j);
    }
}

/// The offset of a position in the rest of a string, seen from the start of the string.
pub proof fn lemma_byte_offset_skip(s: Seq<char>, j: int, k: int)
    requires
        0 <= j <= s.len(),
        0 <= k <= s.len() - j,
    ensures
        byte_offset(s, j + k) == byte_offset(s, j) + byte_offset(s.skip(j), k),
{
    lemma_encode_split(s.take(j + k), j);
    assert(s.take(j + k).take(j) =~= s.take(j));
    assert(s.take(j + k).skip(j) =~= s.skip(j).take(k));
}

proof fn lemma_ascii_width(c: char)
    requires
        c <= '\u{7f}',
    ensures
        encode_scalar(c as u32).len() == 1,
{
}

/// The next character begins where the encoding of this one ends.
pub proof fn lemma_byte_offset_next(s: Seq<char>, k: int)
    requires
        0 <= k < s.len(),
    ensures
        byte_offset(s, k + 1) == byte_offset(s, k) + encode_scalar(s[k] as u32).len(),
{
    lemma_byte_offset_skip(s, k, 1);
    let one = s.skip(k).take(1);
    assert(one[0] == s[k]);
    assert(encode_utf8(one.drop_first()) =~= Seq::<u8>::empty());
}

/// An ASCII character takes one byte.
pub proof fn lemma_byte_offset_ascii(s: Seq<char>, k: int)
    requires
        0 <= k < s.len(),
        s[k] <= '\u{7f}',
    ensures
        byte_offset(s, k + 1) == byte_offset(s, k) + 1,
{
    lemma_byte_offset_next(s, k);
    lemma_ascii_width(s[k]);
}

/// The number of bytes that a character takes.
pub fn width(c: char) -> (r: usize)
    ensures
        r == encode_scalar(c as u32).len(),
{
    if c <= '\u{7f}' {
        1
    } else if c <= '\u{7ff}' {
        2
    } else if c <= '\u{ffff}' {
        3
    } else {
        4
    }
}

/// Every position has an offset on a character boundary.
pub proof fn lemma_byte_offset_is_boundary(s: Seq<char>, k: int)
    requires
        0 <= k <= s.len(),
    ensures
        is_char_boundary(encode_utf8(s), byte_offset(s, k)),
    decreases k,
{
    encode_utf8_valid_utf8(s);
    if k == 0 {
        assert(s.take(0) =~= Seq::<char>::empty());
    } else {
        let rest = s.drop_first();
        lemma_byte_offset_is_boundary(rest, k - 1);
        encode_utf8_first_scalar(s);
        assert(pop_first_scalar(encode_utf8(s)) =~= encode_utf8(rest));
        assert(s.take(k).drop_first() =~= rest.take(k - 1));
        lemma_encode_split(s, k);
    }
}

/// Every character boundary is the offset of a position.
pub proof fn lemma_boundary_is_byte_offset(s: Seq<char>, i: int) -> (k: int)
    requires
        0 <= i <= encode_utf8(s).len(),
        is_char_boundary(encode_utf8(s), i),
    ensures
        0 <= k <= s.len(),
        i == byte_offset(s, k),
{
    let bytes = encode_utf8(s);
    encode_utf8_valid_utf8(s);
    encode_utf8_decode_utf8(s);
    valid_utf8_split(bytes, i);
    decode_utf8_split(bytes, i);
    let head = decode_utf8(bytes.subrange(0, i));
    decode_utf8_encode_utf8(bytes.subrange(0, i));
    assert(s.take(head.len() as int) =~= head);
    head.len() as int
}

/// Where the encoding of `pat` occurs in the encoding of `s`, `pat` occurs in `s`.
pub proof fn lemma_encoding_occurs(s: Seq<char>, pat: Seq<char>, i: int) -> (k: int)
    requires
        pat.len() > 0,
        0 <= i,
        i + encode_utf8(pat).len() <= encode_utf8(s).len(),
        encode_utf8(s).subrange(i, i + encode_utf8(pat).len()) == encode_utf8(pat),
    ensures
        0 <= k,
        k + pat.len() <= s.len(),
        i == byte_offset(s, k),
        s.subrange(k, k + pat.len()) == pat,
        i + encode_utf8(pat).len() == byte_offset(s, k + pat.len()),
{
    let bytes = encode_utf8(s);
    let m = encode_utf8(pat).len() as int;
    encode_utf8_valid_utf8(s);
    lemma_encode_nonempty(pat);
    assert(bytes[i] == bytes.subrange(i, i + m)[0]);
    is_char_boundary_iff_not_is_continuation_byte(bytes, i);
    let k = lemma_boundary_is_byte_offset(s, i);
    lemma_encode_split(s, k);
    let rest = s.skip(k);
    let rest_bytes = encode_utf8(rest);
    encode_utf8_valid_utf8(rest);
    encode_utf8_valid_utf8(pat);
    assert(rest_bytes.subrange(0, m) =~= encode_utf8(pat));
    let tail_bytes = rest_bytes.subrange(m, rest_bytes.len() as int);
    if !valid_utf8(tail_bytes) {
        partial_valid_partial_invalid_utf8(rest_bytes, m);
    }
    let tail = decode_utf8(tail_bytes);
    decode_utf8_encode_utf8(tail_bytes);
    lemma_encode_concat(pat, tail);
    assert(rest_bytes =~= encode_utf8(pat) + tail_bytes);
    lemma_encode_injective(rest, pat + tail);
    assert(s.subrange(k, k + pat.len()) =~= pat) by {
        assert(forall|j: int| 0 <= j < pat.len() ==> s[k + j] == #[trigger] rest[j]);
    }
    assert(rest.take(pat.len() as int) =~= pat);
    lemma_byte_offset_skip(s, k, pat.len() as int);
    k
}

/// Where `pat` occurs in `s`, its encoding occurs in the encoding of `s`.
pub proof fn lemma_occurrence_encodes(s: Seq<char>, pat: Seq<char>, k: int)
    requires
        0 <= k,
        k + pat.len() <= s.len(),
        s.subrange(k, k + pat.len()) == pat,
    ensures
        0 <= byte_offset(s, k),
        byte_offset(s, k) + encode_utf8(pat).len() == byte_offset(s, k + pat.len()),
        byte_offset(s, k + pat.len()) <= encode_utf8(s).len(),
        encode_utf8(s).subrange(
            byte_offset(s, k),
            byte_offset(s, k) + encode_utf8(pat).len(),
        ) == encode_utf8(pat),
{
    let rest = s.skip(k);
    assert(rest.take(pat.len() as int) =~= pat);
    lemma_byte_offset_skip(s, k, pat.len() as int);
    lemma_encode_split(s, k);
    lemma_encode_split(s, k + pat.len());
    lemma_encode_split(rest, pat.len() as int);
    assert(encode_utf8(s).subrange(
        byte_offset(s, k),
        byte_offset(s, k) + encode_utf8(pat).len(),
    ) =~= encode_utf8(rest).take(encode_utf8(pat).len() as int));
}

} // verus!
