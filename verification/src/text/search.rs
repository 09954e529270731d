//! Finding, cutting, trimming and replacing text.
use super::encoding::{
    byte_offset, lemma_byte_offset_ascii, lemma_byte_offset_injective, lemma_byte_offset_is_boundary,
    lemma_byte_offset_monotone, lemma_encode_injective, lemma_encode_nonempty, lemma_encode_split,
    lemma_encoding_occurs, lemma_occurrence_encodes,
};
use vstd::prelude::*;
use vstd::utf8::*;

verus! {

/// `pat` stands in `s` from character `i` on.
pub open spec fn occurs_at(s: Seq<char>, pat: Seq<char>, i: int) -> bool {
    &&& 0 <= i
    &&& i + pat.len() <= s.len()
    &&& s.subrange(i, i + pat.len()) == pat
}

/// `i` is the first position at which `pat` stands in `s`.
pub open spec fn is_first(s: Seq<char>, pat: Seq<char>, i: int) -> bool {
    &&& occurs_at(s, pat, i)
    &&& forall|j: int| 0 <= j < i ==> !#[trigger] occurs_at(s, pat, j)
}

/// `i` is the last position at which `pat` stands in `s`.
pub open spec fn is_last(s: Seq<char>, pat: Seq<char>, i: int) -> bool {
    &&& occurs_at(s, pat, i)
    &&& forall|j: int| i < j ==> !#[trigger] occurs_at(s, pat, j)
}

/// `pat` stands somewhere in `s`.
pub open spec fn contains(s: Seq<char>, pat: Seq<char>) -> bool {
    exists|i: int| #[trigger] occurs_at(s, pat, i)
}

/// The first position at which `pat` stands in `s`, if there is one.
#[verifier::opaque]
pub open spec fn first_occurrence(s: Seq<char>, pat: Seq<char>) -> Option<int> {
    if contains(s, pat) {
        Some(choose|i: int| #[trigger] is_first(s, pat, i))
    } else {
        None
    }
}

/// The last position at which `pat` stands in `s`, if there is one.
#[verifier::opaque]
pub open spec fn last_occurrence(s: Seq<char>, pat: Seq<char>) -> Option<int> {
    if contains(s, pat) {
        Some(choose|i: int| #[trigger] is_last(s, pat, i))
    } else {
        None
    }
}

proof fn lemma_least_occurrence(s: Seq<char>, pat: Seq<char>, i: int)
    requires
        occurs_at(s, pat, i),
    ensures
        exists|k: int| #[trigger] is_first(s, pat, k),
    decreases i,
{
    if exists|j: int| 0 <= j < i && #[trigger] occurs_at(s, pat, j) {
        let j = choose|j: int| 0 <= j < i && #[trigger] occurs_at(s, pat, j);
        lemma_least_occurrence(s, pat, j);
    } else {
        assert(is_first(s, pat, i));
    }
}

proof fn lemma_greatest_occurrence(s: Seq<char>, pat: Seq<char>, i: int)
    requires
        occurs_at(s, pat, i),
    ensures
        exists|k: int| #[trigger] is_last(s, pat, k),
    decreases s.len() - i,
{
    if exists|j: int| i < j && #[trigger] occurs_at(s, pat, j) {
        let j = choose|j: int| i < j && #[trigger] occurs_at(s, pat, j);
        lemma_greatest_occurrence(s, pat, j);
    } else {
        assert(is_last(s, pat, i));
    }
}

/// What [`first_occurrence`] gives is the first position, and it gives one whenever there is one.
pub proof fn lemma_first_occurrence(s: Seq<char>, pat: Seq<char>)
    ensures
        match first_occurrence(s, pat) {
            Some(i) => is_first(s, pat, i),
            None => forall|i: int| !#[trigger] occurs_at(s, pat, i),
        },
        first_occurrence(s, pat) is Some <==> contains(s, pat),
{
    reveal(first_occurrence);
    if contains(s, pat) {
        lemma_least_occurrence(s, pat, choose|i: int| #[trigger] occurs_at(s, pat, i));
    }
}

/// What [`last_occurrence`] gives is the last position, and it gives one whenever there is one.
pub proof fn lemma_last_occurrence(s: Seq<char>, pat: Seq<char>)
    ensures
        match last_occurrence(s, pat) {
            Some(i) => is_last(s, pat, i),
            None => forall|i: int| !#[trigger] occurs_at(s, pat, i),
        },
        last_occurrence(s, pat) is Some <==> contains(s, pat),
{
    reveal(last_occurrence);
    if contains(s, pat) {
        lemma_greatest_occurrence(s, pat, choose|i: int| #[trigger] occurs_at(s, pat, i));
    }
}

/// There is only one first position.
pub proof fn lemma_first_is(s: Seq<char>, pat: Seq<char>, i: int)
    requires
        is_first(s, pat, i),
    ensures
        first_occurrence(s, pat) == Some(i),
{
    lemma_first_occurrence(s, pat);
    let k = first_occurrence(s, pat)->0;
    if k < i {
        assert(!occurs_at(s, pat, k));
    } else if i < k {
        assert(!occurs_at(s, pat, i));
    }
}

/// There is only one last position.
pub proof fn lemma_last_is(s: Seq<char>, pat: Seq<char>, i: int)
    requires
        is_last(s, pat, i),
    ensures
        last_occurrence(s, pat) == Some(i),
{
    lemma_last_occurrence(s, pat);
    let k = last_occurrence(s, pat)->0;
    if k < i {
        assert(!occurs_at(s, pat, i));
    } else if i < k {
        assert(!occurs_at(s, pat, k));
    }
}

/// An occurrence in the rest of a string is an occurrence in the string.
pub proof fn lemma_occurs_in_rest(s: Seq<char>, pat: Seq<char>, d: int, i: int)
    requires
        0 <= d <= s.len(),
        0 <= i,
    ensures
        occurs_at(s.skip(d), pat, i) <==> occurs_at(s, pat, d + i),
{
    if i + pat.len() <= s.len() - d {
        assert(s.skip(d).subrange(i, i + pat.len()) =~= s.subrange(d + i, d + i + pat.len()));
    }
}

/// Where the rest of a string first has an occurrence, the string first has one from there on.
pub proof fn lemma_first_in_rest(s: Seq<char>, pat: Seq<char>, d: int)
    requires
        0 <= d <= s.len(),
    ensures
        match first_occurrence(s.skip(d), pat) {
            Some(i) => {
                &&& occurs_at(s, pat, d + i)
                &&& forall|j: int| d <= j < d + i ==> !#[trigger] occurs_at(s, pat, j)
            },
            None => forall|j: int| d <= j ==> !#[trigger] occurs_at(s, pat, j),
        },
{
    lemma_first_occurrence(s.skip(d), pat);
    match first_occurrence(s.skip(d), pat) {
        Some(i) => {
            lemma_occurs_in_rest(s, pat, d, i);
            assert forall|j: int| d <= j < d + i implies !#[trigger] occurs_at(s, pat, j) by {
                lemma_occurs_in_rest(s, pat, d, j - d);
                assert(!occurs_at(s.skip(d), pat, j - d));
            }
        },
        None => {
            assert forall|j: int| d <= j implies !#[trigger] occurs_at(s, pat, j) by {
                lemma_occurs_in_rest(s, pat, d, j - d);
                assert(!occurs_at(s.skip(d), pat, j - d));
            }
        },
    }
}

/// A byte offset stands for a position in `s`, if there is one.
pub open spec fn offset_for(r: Option<usize>, s: Seq<char>, k: Option<int>) -> bool {
    match r {
        Some(i) => k is Some && i == byte_offset(s, k->0),
        None => k is None,
    }
}

/// Whether `needle` stands in `hay` at byte `at`.
pub(crate) fn bytes_at(hay: &[u8], needle: &[u8], at: usize) -> (r: bool)
    requires
        at + needle@.len() <= hay@.len(),
    ensures
        r == (hay@.subrange(at as int, at + needle@.len()) == needle@),
{
    let n = hay.len();
    let m = needle.len();
    let mut j: usize = 0;
    while j < m
        invariant
            n == hay@.len(),
            m == needle@.len(),
            at + m <= n,
            j <= m,
            forall|x: int| 0 <= x < j ==> hay@[at + x] == #[trigger] needle@[x],
        decreases m - j,
    {
        if hay[at + j] != needle[j] {
            assert(hay@.subrange(at as int, at + m)[j as int] != needle@[j as int]);
            return false;
        }
        j += 1;
    }
    assert(hay@.subrange(at as int, at + m) =~= needle@);
    true
}

/// The byte offset of the first occurrence of `pat` in `s`.
pub fn find(s: &str, pat: &str) -> (r: Option<usize>)
    requires
        pat@.len() > 0,
    ensures
        offset_for(r, s@, first_occurrence(s@, pat@)),
{
    let hay = s.as_bytes();
    let needle = pat.as_bytes();
    let n = hay.len();
    let m = needle.len();
    if m <= n {
        let mut i: usize = 0;
        while i <= n - m
            invariant
                hay@ == encode_utf8(s@),
                needle@ == encode_utf8(pat@),
                n == hay@.len(),
                m == needle@.len(),
                pat@.len() > 0,
                m <= n,
                i <= n - m + 1,
                forall|k: int| #[trigger] occurs_at(s@, pat@, k) ==> i <= byte_offset(s@, k),
            decreases n - m + 1 - i,
        {
            if bytes_at(hay, needle, i) {
                proof {
                    let k = lemma_encoding_occurs(s@, pat@, i as int);
                    assert(occurs_at(s@, pat@, k));
                    assert forall|j: int| 0 <= j < k implies !#[trigger] occurs_at(
                        s@,
                        pat@,
                        j,
                    ) by {
                        lemma_byte_offset_monotone(s@, j, k);
                    }
                    lemma_first_is(s@, pat@, k);
                }
                return Some(i);
            }
            assert forall|k: int| #[trigger] occurs_at(s@, pat@, k) implies i + 1 <= byte_offset(
                s@,
                k,
            ) by {
                lemma_occurrence_encodes(s@, pat@, k);
            }
            proof {
                lemma_encode_nonempty(pat@);
            }
            i += 1;
        }
        assert forall|k: int| !#[trigger] occurs_at(s@, pat@, k) by {
            if occurs_at(s@, pat@, k) {
                lemma_occurrence_encodes(s@, pat@, k);
            }
        }
    } else {
        assert forall|k: int| !#[trigger] occurs_at(s@, pat@, k) by {
            if occurs_at(s@, pat@, k) {
                lemma_occurrence_encodes(s@, pat@, k);
            }
        }
    }
    proof {
        lemma_first_occurrence(s@, pat@);
    }
    None
}

/// The byte offset of the last occurrence of `pat` in `s`.
pub fn rfind(s: &str, pat: &str) -> (r: Option<usize>)
    requires
        pat@.len() > 0,
    ensures
        offset_for(r, s@, last_occurrence(s@, pat@)),
{
    let hay = s.as_bytes();
    let needle = pat.as_bytes();
    let n = hay.len();
    let m = needle.len();
    if m <= n {
        let mut i: usize = n - m;
        proof {
            lemma_encode_nonempty(pat@);
            assert forall|k: int| #[trigger] occurs_at(s@, pat@, k) implies byte_offset(s@, k)
                <= i by {
                lemma_occurrence_encodes(s@, pat@, k);
            }
        }
        loop
            invariant
                hay@ == encode_utf8(s@),
                needle@ == encode_utf8(pat@),
                n == hay@.len(),
                m == needle@.len(),
                pat@.len() > 0,
                m <= n,
                i <= n - m,
                forall|k: int| #[trigger] occurs_at(s@, pat@, k) ==> byte_offset(s@, k) <= i,
            decreases i,
        {
            if bytes_at(hay, needle, i) {
                proof {
                    let k = lemma_encoding_occurs(s@, pat@, i as int);
                    assert(occurs_at(s@, pat@, k));
                    assert forall|j: int| k < j implies !#[trigger] occurs_at(s@, pat@, j) by {
                        if occurs_at(s@, pat@, j) {
                            lemma_byte_offset_monotone(s@, k, j);
                        }
                    }
                    lemma_last_is(s@, pat@, k);
                }
                return Some(i);
            }
            assert forall|k: int| #[trigger] occurs_at(s@, pat@, k) implies byte_offset(s@, k)
                < i by {
                lemma_occurrence_encodes(s@, pat@, k);
            }
            if i == 0 {
                assert forall|k: int| !#[trigger] occurs_at(s@, pat@, k) by {}
                proof {
                    lemma_last_occurrence(s@, pat@);
                }
                return None;
            }
            i -= 1;
        }
    }
    assert forall|k: int| !#[trigger] occurs_at(s@, pat@, k) by {
        if occurs_at(s@, pat@, k) {
            lemma_occurrence_encodes(s@, pat@, k);
        }
    }
    proof {
        lemma_last_occurrence(s@, pat@);
    }
    None
}

/// Whether `pat` stands somewhere in `s`.
pub fn has(s: &str, pat: &str) -> (r: bool)
    requires
        pat@.len() > 0,
    ensures
        r == contains(s@, pat@),
{
    proof {
        lemma_first_occurrence(s@, pat@);
    }
    find(s, pat).is_some()
}

/// The two parts of `s` before and from the byte offset `at`, at which character `k` begins.
pub(crate) fn split<'a>(s: &'a str, at: usize, Ghost(k): Ghost<int>) -> (r: (&'a str, &'a str))
    requires
        0 <= k <= s@.len(),
        at == byte_offset(s@, k),
    ensures
        r.0@ == s@.take(k),
        r.1@ == s@.skip(k),
{
    proof {
        lemma_byte_offset_is_boundary(s@, k);
        lemma_encode_split(s@, k);
    }
    let r = s.split_at(at);
    proof {
        assert(encode_utf8(s@).subrange(0, at as int) =~= encode_utf8(s@).take(at as int));
        assert(encode_utf8(s@).subrange(at as int, encode_utf8(s@).len() as int)
            =~= encode_utf8(s@).skip(at as int));
        lemma_encode_injective(r.0@, s@.take(k));
        lemma_encode_injective(r.1@, s@.skip(k));
    }
    r
}

/// Where `pat` first stands in `s`, as a byte offset, with what stands before and after it.
pub(crate) fn cut<'a>(s: &'a str, pat: &str) -> (r: Option<(usize, &'a str, &'a str)>)
    requires
        pat@.len() > 0,
    ensures
        match r {
            Some((at, head, tail)) => {
                &&& first_occurrence(s@, pat@) matches Some(i)
                &&& is_first(s@, pat@, i)
                &&& at == byte_offset(s@, i)
                &&& at + encode_utf8(pat@).len() == byte_offset(s@, i + pat@.len())
                &&& byte_offset(s@, i + pat@.len()) <= encode_utf8(s@).len() <= usize::MAX
                &&& head@ == s@.take(i)
                &&& tail@ == s@.skip(i + pat@.len())
            },
            None => first_occurrence(s@, pat@) is None,
        },
{
    match find(s, pat) {
        Some(at) => {
            let ghost i = first_occurrence(s@, pat@)->0;
            proof {
                lemma_first_occurrence(s@, pat@);
                lemma_occurrence_encodes(s@, pat@, i);
            }
            let n = byte_len(s);
            let head = split(s, at, Ghost(i)).0;
            let tail = split(s, at + byte_len(pat), Ghost(i + pat@.len())).1;
            Some((at, head, tail))
        },
        None => None,
    }
}

/// Where `pat` last stands in `s`, as a byte offset, with what stands before and after it.
pub(crate) fn rcut<'a>(s: &'a str, pat: &str) -> (r: Option<(usize, &'a str, &'a str)>)
    requires
        pat@.len() > 0,
    ensures
        match r {
            Some((at, head, tail)) => {
                &&& last_occurrence(s@, pat@) matches Some(i)
                &&& is_last(s@, pat@, i)
                &&& at == byte_offset(s@, i)
                &&& at + encode_utf8(pat@).len() == byte_offset(s@, i + pat@.len())
                &&& byte_offset(s@, i + pat@.len()) <= encode_utf8(s@).len() <= usize::MAX
                &&& head@ == s@.take(i)
                &&& tail@ == s@.skip(i + pat@.len())
            },
            None => last_occurrence(s@, pat@) is None,
        },
{
    match rfind(s, pat) {
        Some(at) => {
            let ghost i = last_occurrence(s@, pat@)->0;
            proof {
                lemma_last_occurrence(s@, pat@);
                lemma_occurrence_encodes(s@, pat@, i);
            }
            let n = byte_len(s);
            let head = split(s, at, Ghost(i)).0;
            let tail = split(s, at + byte_len(pat), Ghost(i + pat@.len())).1;
            Some((at, head, tail))
        },
        None => None,
    }
}

/// The byte offset in `s` at which its part `rest`, which begins with character `k`, begins.
pub(crate) fn offset_of_rest(s: &str, rest: &str, Ghost(k): Ghost<int>) -> (r: usize)
    requires
        0 <= k <= s@.len(),
        rest@ == s@.skip(k),
    ensures
        r == byte_offset(s@, k),
{
    proof {
        lemma_encode_split(s@, k);
    }
    byte_len(s) - byte_len(rest)
}

/// The part of `s` behind character `i`, an ASCII character that begins at byte `at`.
pub(crate) fn behind<'a>(s: &'a str, at: usize, Ghost(i): Ghost<int>) -> (r: &'a str)
    requires
        0 <= i < s@.len(),
        s@[i] <= '\u{7f}',
        at == byte_offset(s@, i),
    ensures
        r@ == s@.skip(i + 1),
{
    let n = byte_len(s);
    proof {
        lemma_byte_offset_ascii(s@, i);
        lemma_encode_split(s@, i + 1);
    }
    split(s, at + 1, Ghost(i + 1)).1
}

/// The number of bytes in `s`.
pub(crate) fn byte_len(s: &str) -> (r: usize)
    ensures
        r == encode_utf8(s@).len(),
        r == byte_offset(s@, s@.len() as int),
{
    assert(s@.take(s@.len() as int) =~= s@);
    s.as_bytes().len()
}

/// Whether two strings are the same.
pub fn same(a: &str, b: &str) -> (r: bool)
    ensures
        r == (a@ == b@),
{
    let x = a.as_bytes();
    let y = b.as_bytes();
    if x.len() != y.len() {
        return false;
    }
    let r = bytes_at(x, y, 0);
    proof {
        assert(x@.subrange(0, y@.len() as int) =~= x@);
        if r {
            lemma_encode_injective(a@, b@);
        }
    }
    r
}

/// Whether `s` begins with `pat`.
pub fn starts_with(s: &str, pat: &str) -> (r: bool)
    ensures
        r == occurs_at(s@, pat@, 0),
{
    let hay = s.as_bytes();
    let needle = pat.as_bytes();
    if pat.is_empty() {
        assert(s@.subrange(0, 0) =~= pat@);
        return true;
    }
    assert(s@.take(0) =~= Seq::<char>::empty());
    if needle.len() > hay.len() {
        proof {
            if occurs_at(s@, pat@, 0) {
                lemma_occurrence_encodes(s@, pat@, 0);
            }
        }
        return false;
    }
    let r = bytes_at(hay, needle, 0);
    proof {
        if r {
            let k = lemma_encoding_occurs(s@, pat@, 0);
            lemma_byte_offset_injective(s@, k, 0);
        } else if occurs_at(s@, pat@, 0) {
            lemma_occurrence_encodes(s@, pat@, 0);
        }
    }
    r
}

/// Whether `s` ends with `pat`.
pub fn ends_with(s: &str, pat: &str) -> (r: bool)
    ensures
        r == occurs_at(s@, pat@, s@.len() - pat@.len()),
{
    let hay = s.as_bytes();
    let needle = pat.as_bytes();
    if pat.is_empty() {
        assert(s@.subrange(s@.len() as int, s@.len() as int) =~= pat@);
        return true;
    }
    let ghost at = s@.len() - pat@.len();
    assert(s@.take(s@.len() as int) =~= s@);
    if needle.len() > hay.len() {
        proof {
            if occurs_at(s@, pat@, at) {
                lemma_occurrence_encodes(s@, pat@, at);
            }
        }
        return false;
    }
    let r = bytes_at(hay, needle, hay.len() - needle.len());
    proof {
        if r {
            let k = lemma_encoding_occurs(s@, pat@, hay@.len() - needle@.len());
            lemma_byte_offset_injective(s@, k + pat@.len(), s@.len() as int);
        } else if occurs_at(s@, pat@, at) {
            lemma_occurrence_encodes(s@, pat@, at);
        }
    }
    r
}

} // verus!
