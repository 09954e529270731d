//! Trimming, stripping and replacing.
use super::encoding::lemma_occurrence_encodes;
use super::search::{
    byte_len, contains, cut, ends_with, first_occurrence, lemma_first_is, lemma_first_occurrence,
    occurs_at, split, starts_with,
};
use vstd::prelude::*;

verus! {

/// `c` has the Unicode property White_Space.
pub open spec fn whitespace(c: char) -> bool {
    ||| '\u{9}' <= c <= '\u{d}'
    ||| c == ' '
    ||| c == '\u{85}'
    ||| c == '\u{a0}'
    ||| c == '\u{1680}'
    ||| '\u{2000}' <= c <= '\u{200a}'
    ||| c == '\u{2028}'
    ||| c == '\u{2029}'
    ||| c == '\u{202f}'
    ||| c == '\u{205f}'
    ||| c == '\u{3000}'
}

/// `s` without the white space at its start.
pub open spec fn trimmed_start(s: Seq<char>) -> Seq<char>
    decreases s.len(),
{
    if s.len() > 0 && whitespace(s[0]) {
        trimmed_start(s.skip(1))
    } else {
        s
    }
}

/// `s` without the white space at its end.
pub open spec fn trimmed_end(s: Seq<char>) -> Seq<char>
    decreases s.len(),
{
    if s.len() > 0 && whitespace(s.last()) {
        trimmed_end(s.drop_last())
    } else {
        s
    }
}

/// `s` without the white space around it.
pub open spec fn trimmed(s: Seq<char>) -> Seq<char> {
    trimmed_end(trimmed_start(s))
}

/// `s` without its prefix `pat`, if it has it.
pub open spec fn without_prefix(s: Seq<char>, pat: Seq<char>) -> Option<Seq<char>> {
    if occurs_at(s, pat, 0) {
        Some(s.skip(pat.len() as int))
    } else {
        None
    }
}

/// `s` without its suffix `pat`, if it has it.
pub open spec fn without_suffix(s: Seq<char>, pat: Seq<char>) -> Option<Seq<char>> {
    if occurs_at(s, pat, s.len() - pat.len()) {
        Some(s.take(s.len() - pat.len()))
    } else {
        None
    }
}

/// `s` without the copies of `pat` that stand at its end.
pub open spec fn trimmed_end_of(s: Seq<char>, pat: Seq<char>) -> Seq<char>
    decreases s.len(),
{
    if pat.len() > 0 && occurs_at(s, pat, s.len() - pat.len()) {
        trimmed_end_of(s.take(s.len() - pat.len()), pat)
    } else {
        s
    }
}

/// `s` with every occurrence of `pat`, taken from the left and without overlap, replaced by
/// `with`.
pub open spec fn replaced(s: Seq<char>, pat: Seq<char>, with: Seq<char>) -> Seq<char>
    decreases s.len(),
{
    match first_occurrence(s, pat) {
        Some(i) => if pat.len() > 0 && 0 <= i && i + pat.len() <= s.len() {
            s.take(i) + with + replaced(s.skip(i + pat.len()), pat, with)
        } else {
            s
        },
        None => s,
    }
}

/// All of `s` is white space.
pub open spec fn blank(s: Seq<char>) -> bool {
    forall|j: int| 0 <= j < s.len() ==> whitespace(#[trigger] s[j])
}

/// A prefix is taken off just where the text begins with it, and the rest stays as it is.
pub proof fn lemma_without_prefix(s: Seq<char>, pat: Seq<char>)
    ensures
        without_prefix(s, pat) is Some <==> pat.len() <= s.len() && s.take(pat.len() as int) == pat,
        without_prefix(s, pat) matches Some(rest) ==> s == pat + rest,
{
    if pat.len() <= s.len() {
        assert(s.subrange(0, pat.len() as int) =~= s.take(pat.len() as int));
    }
    if without_prefix(s, pat) is Some {
        assert(s =~= s.subrange(0, pat.len() as int) + s.skip(pat.len() as int));
    }
}

/// A suffix is taken off just where the text ends with it, and the rest stays as it is.
pub proof fn lemma_without_suffix(s: Seq<char>, pat: Seq<char>)
    ensures
        without_suffix(s, pat) is Some <==> pat.len() <= s.len() && s.skip(s.len() - pat.len())
            == pat,
        without_suffix(s, pat) matches Some(rest) ==> s == rest + pat,
{
    let n = s.len() - pat.len();
    if pat.len() <= s.len() {
        assert(s.subrange(n, n + pat.len()) =~= s.skip(n));
    }
    if without_suffix(s, pat) is Some {
        assert(s =~= s.take(n) + s.subrange(n, n + pat.len()));
    }
}

/// All copies of a token are taken off the end of a text, and nothing else.
pub proof fn lemma_end_taken(s: Seq<char>, pat: Seq<char>)
    ensures
        trimmed_end_of(s + pat, pat) == trimmed_end_of(s, pat) || pat.len() == 0,
        pat.len() == 0 || without_suffix(s, pat) is None ==> trimmed_end_of(s, pat) == s,
{
    let t = s + pat;
    if pat.len() > 0 {
        assert(t.subrange(t.len() - pat.len(), t.len() as int) =~= pat);
        assert(t.take(t.len() - pat.len()) =~= s);
    }
}

/// Where a pattern stands in a text, its first occurrence is replaced, what stands before it stays,
/// and what follows it is replaced in turn. Where it does not stand, nothing is replaced.
pub proof fn lemma_replaced(
    before: Seq<char>,
    pat: Seq<char>,
    after: Seq<char>,
    with: Seq<char>,
)
    requires
        pat.len() > 0,
    ensures
        !contains(before, pat) ==> replaced(before, pat, with) == before,
        (forall|j: int|
            0 <= j < before.len() ==> !#[trigger] occurs_at(before + (pat + after), pat, j))
            ==> replaced(before + (pat + after), pat, with) == before + (with + replaced(
            after,
            pat,
            with,
        )),
{
    lemma_first_occurrence(before, pat);
    let s = before + (pat + after);
    let i = before.len() as int;
    if forall|j: int| 0 <= j < i ==> !#[trigger] occurs_at(s, pat, j) {
        assert(s.subrange(i, i + pat.len()) =~= pat);
        lemma_first_is(s, pat, i);
        assert(s.take(i) =~= before);
        assert(s.skip(i + pat.len()) =~= after);
        assert(replaced(s, pat, with) =~= before + (with + replaced(after, pat, with)));
    }
}

/// White space is these characters: the controls from tab to carriage return, the space, the next
/// line, the no-break space, the Ogham space, the spaces of General Punctuation, its two
/// separators, its narrow and its mathematical space, and the ideographic space.
pub proof fn lemma_whitespace(c: char)
    ensures
        whitespace(c) <==> (c == '\t' || c == '\n' || c == '\u{b}' || c == '\u{c}' || c == '\r' || c
            == ' ' || c == '\u{85}' || c == '\u{a0}' || c == '\u{1680}' || c == '\u{2000}' || c
            == '\u{2001}' || c == '\u{2002}' || c == '\u{2003}' || c == '\u{2004}' || c
            == '\u{2005}' || c == '\u{2006}' || c == '\u{2007}' || c == '\u{2008}' || c
            == '\u{2009}' || c == '\u{200a}' || c == '\u{2028}' || c == '\u{2029}' || c
            == '\u{202f}' || c == '\u{205f}' || c == '\u{3000}'),
{
}

/// What is taken off the start of a text is white space, and all that there is.
pub proof fn lemma_trimmed_start_is(s: Seq<char>)
    ensures
        ({
            let n = s.len() - trimmed_start(s).len();
            &&& 0 <= n
            &&& trimmed_start(s) == s.skip(n)
            &&& blank(s.take(n))
            &&& trimmed_start(s).len() > 0 ==> !whitespace(trimmed_start(s)[0])
        }),
    decreases s.len(),
{
    if s.len() > 0 && whitespace(s[0]) {
        lemma_trimmed_start_is(s.skip(1));
        let n = s.len() - trimmed_start(s).len();
        assert(s.skip(1).skip(n - 1) =~= s.skip(n));
        assert forall|j: int| 0 <= j < n implies whitespace(#[trigger] s.take(n)[j]) by {
            if j > 0 {
                assert(s.skip(1).take(n - 1)[j - 1] == s[j]);
            }
        }
    } else {
        assert(s.skip(0) =~= s);
    }
}

/// What is taken off the end of a text is white space, and all that there is.
pub proof fn lemma_trimmed_end_is(s: Seq<char>)
    ensures
        ({
            let n = trimmed_end(s).len() as int;
            &&& n <= s.len()
            &&& trimmed_end(s) == s.take(n)
            &&& blank(s.skip(n))
            &&& n > 0 ==> !whitespace(trimmed_end(s).last())
        }),
    decreases s.len(),
{
    if s.len() > 0 && whitespace(s.last()) {
        let before = s.drop_last();
        lemma_trimmed_end_is(before);
        let n = trimmed_end(s).len() as int;
        assert(before.take(n) =~= s.take(n));
        assert forall|j: int| 0 <= j < s.skip(n).len() implies whitespace(
            #[trigger] s.skip(n)[j],
        ) by {
            if j < before.len() - n {
                assert(before.skip(n)[j] == s[n + j]);
            }
        }
    } else {
        assert(s.take(s.len() as int) =~= s);
    }
}

/// What is taken off a text is the white space around it, and all that there is.
pub proof fn lemma_trimmed_is(s: Seq<char>)
    ensures
        ({
            let t = trimmed(s);
            let a = s.len() - trimmed_start(s).len();
            &&& 0 <= a
            &&& a + t.len() <= s.len()
            &&& t == s.subrange(a, a + t.len())
            &&& blank(s.take(a))
            &&& blank(s.skip(a + t.len()))
            &&& t.len() > 0 ==> !whitespace(t[0]) && !whitespace(t.last())
        }),
{
    let u = trimmed_start(s);
    let t = trimmed(s);
    let a = s.len() - u.len();
    lemma_trimmed_start_is(s);
    lemma_trimmed_end_is(u);
    assert(t =~= s.subrange(a, a + t.len()));
    assert(u.skip(t.len() as int) =~= s.skip(a + t.len()));
}

/// A text with white space around it is trimmed to that text.
pub proof fn lemma_trimmed_padded(before: Seq<char>, s: Seq<char>, after: Seq<char>)
    requires
        blank(before),
        blank(after),
        s.len() > 0 ==> !whitespace(s[0]) && !whitespace(s.last()),
    ensures
        trimmed(before + (s + after)) == s,
    decreases before.len() + after.len(),
{
    let all = before + (s + after);
    if before.len() > 0 {
        assert(whitespace(before[0]));
        assert(all.skip(1) =~= before.skip(1) + (s + after));
        assert(blank(before.skip(1)));
        lemma_trimmed_padded(before.skip(1), s, after);
    } else {
        assert(all =~= s + after);
        if s.len() > 0 {
            assert(trimmed_start(all) == all);
            lemma_end_padded(s, after);
        } else {
            assert(all =~= after);
            lemma_trimmed_start_is(after);
            let n = after.len() - trimmed_start(after).len();
            if trimmed_start(after).len() > 0 {
                assert(trimmed_start(after)[0] == after[n]);
            }
            assert(trimmed(all) =~= s);
        }
    }
}

proof fn lemma_end_padded(s: Seq<char>, after: Seq<char>)
    requires
        blank(after),
        s.len() > 0 ==> !whitespace(s.last()),
    ensures
        trimmed_end(s + after) == s,
    decreases after.len(),
{
    let all = s + after;
    if after.len() > 0 {
        assert(all.last() == after[after.len() - 1]);
        assert(all.drop_last() =~= s + after.drop_last());
        assert(blank(after.drop_last()));
        lemma_end_padded(s, after.drop_last());
    } else {
        assert(all =~= s);
    }
}

/// Trimming the start of a text that is not all white space leaves what follows as it is.
pub proof fn lemma_trimmed_start_concat(s: Seq<char>, t: Seq<char>)
    requires
        trimmed_start(s).len() > 0,
    ensures
        trimmed_start(s + t) == trimmed_start(s) + t,
    decreases s.len(),
{
    if whitespace(s[0]) {
        assert((s + t).skip(1) =~= s.skip(1) + t);
        lemma_trimmed_start_concat(s.skip(1), t);
    }
}

/// Whether `c` has the Unicode property White_Space.
pub fn is_whitespace(c: char) -> (r: bool)
    ensures
        r == whitespace(c),
{
    ('\u{9}' <= c && c <= '\u{d}') || c == ' ' || c == '\u{85}' || c == '\u{a0}' || c == '\u{1680}'
        || ('\u{2000}' <= c && c <= '\u{200a}') || c == '\u{2028}' || c == '\u{2029}' || c
        == '\u{202f}' || c == '\u{205f}' || c == '\u{3000}'
}

/// The characters of `s`.
pub(crate) fn characters(s: &str) -> (r: Vec<char>)
    ensures
        r@ == s@,
{
    let mut r: Vec<char> = Vec::new();
    for c in it: s.chars()
        invariant
            r@ == s@.take(it.index()),
            it.seq() == s@,
    {
        proof {
            assert(s@.take(it.index() + 1) =~= s@.take(it.index()).push(c));
        }
        r.push(c);
    }
    assert(s@.take(s@.len() as int) =~= s@);
    r
}

/// The first character of `s`.
pub(crate) fn first_char(s: &str) -> (r: Option<char>)
    ensures
        r == (if s@.len() > 0 {
            Some(s@[0])
        } else {
            None
        }),
{
    let mut it = s.chars();
    it.next()
}

/// `s` without the white space at its start.
pub fn trim_start(s: &str) -> (r: &str)
    ensures
        r@ == trimmed_start(s@),
{
    let cs = characters(s);
    let n = cs.len();
    let mut i: usize = 0;
    assert(s@.skip(0) =~= s@);
    while i < n && is_whitespace(cs[i])
        invariant
            cs@ == s@,
            n == cs@.len(),
            i <= n,
            trimmed_start(s@) == trimmed_start(s@.skip(i as int)),
        decreases n - i,
    {
        assert(s@.skip(i as int).skip(1) =~= s@.skip(i + 1));
        i += 1;
    }
    assert(s@.skip(i as int) =~= s@.subrange(i as int, n as int));
    s.substring_char(i, n)
}

/// `s` without the white space at its end.
pub fn trim_end(s: &str) -> (r: &str)
    ensures
        r@ == trimmed_end(s@),
{
    let cs = characters(s);
    let mut n = cs.len();
    assert(s@.take(n as int) =~= s@);
    while n > 0 && is_whitespace(cs[n - 1])
        invariant
            cs@ == s@,
            n <= cs@.len(),
            trimmed_end(s@) == trimmed_end(s@.take(n as int)),
        decreases n,
    {
        assert(s@.take(n as int).drop_last() =~= s@.take(n - 1));
        n -= 1;
    }
    assert(s@.take(n as int) =~= s@.subrange(0, n as int));
    s.substring_char(0, n)
}

/// `s` without the white space around it.
pub fn trim(s: &str) -> (r: &str)
    ensures
        r@ == trimmed(s@),
{
    trim_end(trim_start(s))
}

/// `s` without its prefix `pat`, if it has it.
pub fn strip_prefix<'a>(s: &'a str, pat: &str) -> (r: Option<&'a str>)
    ensures
        match r {
            Some(t) => without_prefix(s@, pat@) == Some(t@),
            None => without_prefix(s@, pat@) is None,
        },
{
    if starts_with(s, pat) {
        proof {
            lemma_occurrence_encodes(s@, pat@, 0);
            assert(s@.take(0) =~= Seq::<char>::empty());
        }
        Some(split(s, byte_len(pat), Ghost(pat@.len() as int)).1)
    } else {
        None
    }
}

/// `s` without its suffix `pat`, if it has it.
pub fn strip_suffix<'a>(s: &'a str, pat: &str) -> (r: Option<&'a str>)
    ensures
        match r {
            Some(t) => without_suffix(s@, pat@) == Some(t@),
            None => without_suffix(s@, pat@) is None,
        },
{
    if ends_with(s, pat) {
        let ghost at = s@.len() - pat@.len();
        proof {
            lemma_occurrence_encodes(s@, pat@, at);
        }
        Some(split(s, byte_len(s) - byte_len(pat), Ghost(at)).0)
    } else {
        None
    }
}

/// `s` without the copies of `pat` that stand at its end.
pub fn trim_end_of<'a>(s: &'a str, pat: &str) -> (r: &'a str)
    requires
        pat@.len() > 0,
    ensures
        r@ == trimmed_end_of(s@, pat@),
{
    let mut rest = s;
    loop
        invariant
            pat@.len() > 0,
            trimmed_end_of(s@, pat@) == trimmed_end_of(rest@, pat@),
        decreases rest@.len(),
    {
        match strip_suffix(rest, pat) {
            Some(t) => {
                rest = t;
            },
            None => {
                return rest;
            },
        }
    }
}

/// `s` with every occurrence of `pat`, taken from the left and without overlap, replaced by
/// `with`.
pub fn replace(s: &str, pat: &str, with: &str) -> (r: String)
    requires
        pat@.len() > 0,
    ensures
        r@ == replaced(s@, pat@, with@),
{
    let mut out = String::new();
    let mut rest = s;
    assert(out@ + replaced(rest@, pat@, with@) =~= replaced(s@, pat@, with@));
    loop
        invariant
            pat@.len() > 0,
            replaced(s@, pat@, with@) == out@ + replaced(rest@, pat@, with@),
        decreases rest@.len(),
    {
        match cut(rest, pat) {
            Some((_, head, tail)) => {
                let ghost before = out@;
                out.append(head);
                out.append(with);
                proof {
                    assert(out@ + replaced(tail@, pat@, with@) =~= before + (head@ + with@
                        + replaced(tail@, pat@, with@)));
                }
                rest = tail;
            },
            None => {
                out.append(rest);
                return out;
            },
        }
    }
}

} // verus!
