//! Where a pattern stands in a text that is put together of parts.
use super::edit::{trimmed, trimmed_end, trimmed_start, whitespace};
use super::search::{
    contains, first_occurrence, is_first, is_last, last_occurrence, lemma_first_is,
    lemma_first_occurrence, lemma_last_is, lemma_last_occurrence, occurs_at,
};
use vstd::prelude::*;

verus! {

/// An occurrence of `pat` that begins before `u` cannot reach into `u`: the first character of
/// `u` is none of those that follow the first in `pat`.
pub open spec fn severed(u: Seq<char>, pat: Seq<char>) -> bool {
    u.len() == 0 || forall|j: int| 1 <= j < pat.len() ==> #[trigger] pat[j] != u[0]
}

/// The first character of `pat` does not come again in `pat`.
pub open spec fn lone_head(pat: Seq<char>) -> bool {
    pat.len() > 0 && forall|j: int| 1 <= j < pat.len() ==> #[trigger] pat[j] != pat[0]
}

/// An occurrence in two parts, of which the second is severed, is an occurrence in one of them.
pub proof fn lemma_occurs_concat(s: Seq<char>, u: Seq<char>, pat: Seq<char>, j: int)
    requires
        pat.len() > 0,
        severed(u, pat),
    ensures
        occurs_at(s + u, pat, j) <==> (occurs_at(s, pat, j) || (s.len() <= j && occurs_at(
            u,
            pat,
            j - s.len(),
        ))),
{
    let t = s + u;
    if occurs_at(s, pat, j) {
        assert(t.subrange(j, j + pat.len()) =~= s.subrange(j, j + pat.len()));
    }
    if s.len() <= j && occurs_at(u, pat, j - s.len()) {
        let k = j - s.len();
        assert(t.subrange(j, j + pat.len()) =~= u.subrange(k, k + pat.len()));
    }
    if occurs_at(t, pat, j) {
        if j + pat.len() <= s.len() {
            assert(s.subrange(j, j + pat.len()) =~= t.subrange(j, j + pat.len()));
        } else if s.len() <= j {
            let k = j - s.len();
            assert(u.subrange(k, k + pat.len()) =~= t.subrange(j, j + pat.len()));
        } else {
            let k = s.len() - j;
            assert(t.subrange(j, j + pat.len())[k] == u[0]);
            assert(pat[k] != u[0]);
        }
    }
}

/// Where a pattern first stands in two parts, of which the second is severed.
pub proof fn lemma_first_concat(s: Seq<char>, u: Seq<char>, pat: Seq<char>)
    requires
        pat.len() > 0,
        severed(u, pat),
    ensures
        first_occurrence(s + u, pat) == (match first_occurrence(s, pat) {
            Some(i) => Some(i),
            None => match first_occurrence(u, pat) {
                Some(i) => Some(s.len() + i),
                None => None,
            },
        }),
{
    let t = s + u;
    assert forall|j: int| #[trigger] occurs_at(t, pat, j) <==> (occurs_at(s, pat, j) || (s.len()
        <= j && occurs_at(u, pat, j - s.len()))) by {
        lemma_occurs_concat(s, u, pat, j);
    }
    lemma_first_occurrence(s, pat);
    lemma_first_occurrence(u, pat);
    lemma_first_occurrence(t, pat);
    match first_occurrence(s, pat) {
        Some(i) => {
            assert(is_first(t, pat, i));
            lemma_first_is(t, pat, i);
        },
        None => match first_occurrence(u, pat) {
            Some(i) => {
                assert(occurs_at(t, pat, s.len() + i));
                assert(is_first(t, pat, s.len() + i));
                lemma_first_is(t, pat, s.len() + i);
            },
            None => {
                assert(forall|j: int| !#[trigger] occurs_at(t, pat, j));
            },
        },
    }
}

/// Where a pattern last stands in two parts, of which the second is severed.
pub proof fn lemma_last_concat(s: Seq<char>, u: Seq<char>, pat: Seq<char>)
    requires
        pat.len() > 0,
        severed(u, pat),
    ensures
        last_occurrence(s + u, pat) == (match last_occurrence(u, pat) {
            Some(i) => Some(s.len() + i),
            None => last_occurrence(s, pat),
        }),
{
    let t = s + u;
    assert forall|j: int| #[trigger] occurs_at(t, pat, j) <==> (occurs_at(s, pat, j) || (s.len()
        <= j && occurs_at(u, pat, j - s.len()))) by {
        lemma_occurs_concat(s, u, pat, j);
    }
    lemma_last_occurrence(s, pat);
    lemma_last_occurrence(u, pat);
    lemma_last_occurrence(t, pat);
    match last_occurrence(u, pat) {
        Some(i) => {
            assert(occurs_at(t, pat, s.len() + i));
            assert forall|j: int| s.len() + i < j implies !#[trigger] occurs_at(t, pat, j) by {
                assert(!occurs_at(u, pat, j - s.len()));
            }
            assert(is_last(t, pat, s.len() + i));
            lemma_last_is(t, pat, s.len() + i);
        },
        None => match last_occurrence(s, pat) {
            Some(i) => {
                assert(is_last(t, pat, i));
                lemma_last_is(t, pat, i);
            },
            None => {
                assert(forall|j: int| !#[trigger] occurs_at(t, pat, j));
            },
        },
    }
}

/// A pattern whose first character does not come again stands in itself, followed by a text
/// without it, at the start alone.
pub proof fn lemma_pattern_then(pat: Seq<char>, g: Seq<char>)
    requires
        lone_head(pat),
        !contains(g, pat),
    ensures
        first_occurrence(pat + g, pat) == Some(0int),
        last_occurrence(pat + g, pat) == Some(0int),
{
    let t = pat + g;
    assert(t.subrange(0, pat.len() as int) =~= pat);
    assert forall|j: int| 0 < j implies !#[trigger] occurs_at(t, pat, j) by {
        if occurs_at(t, pat, j) {
            if j < pat.len() {
                assert(t.subrange(j, j + pat.len())[0] == pat[j]);
            } else {
                let k = j - pat.len();
                assert(g.subrange(k, k + pat.len()) =~= t.subrange(j, j + pat.len()));
                assert(occurs_at(g, pat, k));
            }
        }
    }
    assert(is_first(t, pat, 0));
    assert(is_last(t, pat, 0));
    lemma_first_is(t, pat, 0);
    lemma_last_is(t, pat, 0);
}

/// A pattern does not stand in a text that does not have its first character.
pub proof fn lemma_no_head(s: Seq<char>, pat: Seq<char>)
    requires
        pat.len() > 0,
        forall|j: int| 0 <= j < s.len() ==> #[trigger] s[j] != pat[0],
    ensures
        !contains(s, pat),
        first_occurrence(s, pat) is None,
        last_occurrence(s, pat) is None,
{
    assert forall|j: int| !#[trigger] occurs_at(s, pat, j) by {
        if occurs_at(s, pat, j) {
            assert(s.subrange(j, j + pat.len())[0] == s[j]);
        }
    }
    lemma_first_occurrence(s, pat);
    lemma_last_occurrence(s, pat);
}

/// Where a pattern first stands in a text without it, followed by the pattern.
pub proof fn lemma_first_behind(s: Seq<char>, pat: Seq<char>, t: Seq<char>)
    requires
        lone_head(pat),
        !contains(s, pat),
    ensures
        first_occurrence(s + (pat + t), pat) == Some(s.len() as int),
{
    let u = pat + t;
    assert(u[0] == pat[0]);
    lemma_first_concat(s, u, pat);
    lemma_first_occurrence(s, pat);
    assert(u.subrange(0, pat.len() as int) =~= pat);
    assert(is_first(u, pat, 0));
    lemma_first_is(u, pat, 0);
}

/// A pattern stands in two parts, of which the second is severed, if it stands in one of them.
pub proof fn lemma_contains_concat(s: Seq<char>, u: Seq<char>, pat: Seq<char>)
    requires
        pat.len() > 0,
        severed(u, pat),
    ensures
        contains(s + u, pat) <==> contains(s, pat) || contains(u, pat),
{
    lemma_first_concat(s, u, pat);
    lemma_first_occurrence(s + u, pat);
    lemma_first_occurrence(s, pat);
    lemma_first_occurrence(u, pat);
}

/// A pattern stands in a text behind a tag if it stands in the text, where the tag has the first
/// character of the pattern at its start alone, and is another than the pattern at `k`.
pub proof fn lemma_contains_behind_tag(tag: Seq<char>, u: Seq<char>, pat: Seq<char>, k: int)
    requires
        lone_head(tag),
        1 <= k < tag.len(),
        k < pat.len(),
        tag[0] == pat[0],
        tag[k] != pat[k],
    ensures
        contains(tag + u, pat) <==> contains(u, pat),
{
    let t = tag + u;
    assert forall|j: int| 0 <= j < tag.len() implies !#[trigger] occurs_at(t, pat, j) by {
        if occurs_at(t, pat, j) {
            let found = t.subrange(j, j + pat.len());
            assert(found[0] == t[j] && found[k] == t[j + k]);
        }
    }
    lemma_contains_behind(tag, u, pat);
}

/// A pattern stands in a text behind another text if it stands in it, where no occurrence
/// begins in the other.
pub proof fn lemma_contains_behind(s: Seq<char>, u: Seq<char>, pat: Seq<char>)
    requires
        forall|j: int| 0 <= j < s.len() ==> !#[trigger] occurs_at(s + u, pat, j),
    ensures
        contains(s + u, pat) <==> contains(u, pat),
        forall|j: int| 0 <= j ==> (#[trigger] occurs_at(u, pat, j) <==> occurs_at(
            s + u,
            pat,
            s.len() + j,
        )),
{
    let t = s + u;
    assert forall|j: int| 0 <= j implies (#[trigger] occurs_at(u, pat, j) <==> occurs_at(
        t,
        pat,
        s.len() + j,
    )) by {
        if j + pat.len() <= u.len() {
            assert(t.subrange(s.len() + j, s.len() + j + pat.len()) =~= u.subrange(
                j,
                j + pat.len(),
            ));
        }
    }
    if contains(t, pat) {
        let j = choose|j: int| #[trigger] occurs_at(t, pat, j);
        assert(occurs_at(u, pat, j - s.len()));
    }
    if contains(u, pat) {
        let j = choose|j: int| #[trigger] occurs_at(u, pat, j);
        assert(occurs_at(t, pat, s.len() + j));
    }
}

/// A pattern stands in a text behind one that does not have the first character of the pattern
/// if it stands in the text.
pub proof fn lemma_contains_behind_plain(s: Seq<char>, u: Seq<char>, pat: Seq<char>)
    requires
        pat.len() > 0,
        forall|j: int| 0 <= j < s.len() ==> #[trigger] s[j] != pat[0],
    ensures
        contains(s + u, pat) <==> contains(u, pat),
{
    let t = s + u;
    assert forall|j: int| 0 <= j < s.len() implies !#[trigger] occurs_at(t, pat, j) by {
        if occurs_at(t, pat, j) {
            assert(t.subrange(j, j + pat.len())[0] == s[j]);
        }
    }
    lemma_contains_behind(s, u, pat);
}

/// A pattern that does not stand in a text does not stand in a beginning of it.
pub proof fn lemma_take_free(s: Seq<char>, pat: Seq<char>, n: int)
    requires
        !contains(s, pat),
        0 <= n <= s.len(),
    ensures
        !contains(s.take(n), pat),
{
    if contains(s.take(n), pat) {
        let j = choose|j: int| #[trigger] occurs_at(s.take(n), pat, j);
        assert(s.subrange(j, j + pat.len()) =~= s.take(n).subrange(j, j + pat.len()));
        assert(occurs_at(s, pat, j));
    }
}

/// A pattern that does not stand in a text does not stand in what follows a beginning of it.
pub proof fn lemma_skip_free(s: Seq<char>, pat: Seq<char>, n: int)
    requires
        !contains(s, pat),
        0 <= n <= s.len(),
    ensures
        !contains(s.skip(n), pat),
{
    if contains(s.skip(n), pat) {
        let j = choose|j: int| #[trigger] occurs_at(s.skip(n), pat, j);
        assert(s.subrange(n + j, n + j + pat.len()) =~= s.skip(n).subrange(j, j + pat.len()));
        assert(occurs_at(s, pat, n + j));
    }
}

/// White space is not taken off a text that neither begins nor ends with it.
pub proof fn lemma_trimmed(s: Seq<char>)
    requires
        s.len() > 0 ==> !whitespace(s[0]) && !whitespace(s.last()),
    ensures
        trimmed(s) == s,
        trimmed_start(s) == s,
        trimmed_end(s) == s,
{
}

/// A text that is trimmed neither begins nor ends with white space.
pub proof fn lemma_is_trimmed(s: Seq<char>)
    requires
        trimmed(s) == s,
        s.len() > 0,
    ensures
        !whitespace(s[0]),
        !whitespace(s.last()),
{
    lemma_trimmed_start_len(s);
    lemma_trimmed_end_len(trimmed_start(s));
}

proof fn lemma_trimmed_start_len(s: Seq<char>)
    ensures
        trimmed_start(s).len() <= s.len(),
        s.len() > 0 && whitespace(s[0]) ==> trimmed_start(s).len() < s.len(),
    decreases s.len(),
{
    if s.len() > 0 && whitespace(s[0]) {
        lemma_trimmed_start_len(s.skip(1));
    }
}

proof fn lemma_trimmed_end_len(s: Seq<char>)
    ensures
        trimmed_end(s).len() <= s.len(),
        s.len() > 0 && whitespace(s.last()) ==> trimmed_end(s).len() < s.len(),
    decreases s.len(),
{
    if s.len() > 0 && whitespace(s.last()) {
        lemma_trimmed_end_len(s.drop_last());
    }
}

} // verus!
