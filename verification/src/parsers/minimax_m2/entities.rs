//! The XML entities in the values of parameters.
use super::MinimaxM2Parser;
use crate::text::edit::strip_prefix;
use crate::text::search::{cut, first_occurrence, occurs_at, split};
use vstd::prelude::*;

verus! {

/// The character that the entity at the start of `s` stands for, and the length of the entity.
pub open spec fn entity(s: Seq<char>) -> Option<(char, int)> {
    if occurs_at(s, "&lt;"@, 0) {
        Some(('<', "&lt;"@.len() as int))
    } else if occurs_at(s, "&gt;"@, 0) {
        Some(('>', "&gt;"@.len() as int))
    } else if occurs_at(s, "&amp;"@, 0) {
        Some(('&', "&amp;"@.len() as int))
    } else if occurs_at(s, "&quot;"@, 0) {
        Some(('"', "&quot;"@.len() as int))
    } else if occurs_at(s, "&apos;"@, 0) {
        Some(('\'', "&apos;"@.len() as int))
    } else {
        None
    }
}

/// `s` with each of its common XML entities decoded, once.
pub open spec fn decoded(s: Seq<char>) -> Seq<char>
    decreases s.len(),
{
    if s.len() == 0 {
        seq![]
    } else {
        match entity(s) {
            Some((c, n)) => {
                proof {
                    lemma_entity(s);
                }
                seq![c] + decoded(s.skip(n))
            },
            None => seq![s[0]] + decoded(s.skip(1)),
        }
    }
}

/// An entity begins with an ampersand and lies in the text.
pub proof fn lemma_entity(s: Seq<char>)
    ensures
        entity(s) matches Some((_, n)) ==> 0 < n <= s.len() && s[0] == '&',
{
    reveal_strlit("&lt;");
    reveal_strlit("&gt;");
    reveal_strlit("&amp;");
    reveal_strlit("&quot;");
    reveal_strlit("&apos;");
    if let Some((_, n)) = entity(s) {
        assert(s.subrange(0, n)[0] == s[0]);
    }
}

/// What stands before the first ampersand stays as it is.
proof fn lemma_decoded_behind(head: Seq<char>, rest: Seq<char>)
    requires
        forall|j: int| 0 <= j < head.len() ==> #[trigger] head[j] != '&',
    ensures
        decoded(head + rest) == head + decoded(rest),
    decreases head.len(),
{
    let s = head + rest;
    if head.len() == 0 {
        assert(s =~= rest);
        assert(head + decoded(rest) =~= decoded(rest));
    } else {
        assert(s[0] == head[0]);
        lemma_entity(s);
        assert(s.skip(1) =~= head.skip(1) + rest);
        lemma_decoded_behind(head.skip(1), rest);
        assert(decoded(s) =~= head + decoded(rest));
    }
}

/// A text without an ampersand stays as it is.
pub proof fn lemma_decoded_plain(s: Seq<char>)
    requires
        forall|j: int| 0 <= j < s.len() ==> #[trigger] s[j] != '&',
    ensures
        decoded(s) == s,
{
    lemma_decoded_behind(s, seq![]);
    assert(s + seq![] =~= s);
    assert(s + decoded(seq![]) =~= s);
}

/// The character as XML writes it in text.
pub open spec fn escaped_char(c: char) -> Seq<char> {
    if c == '<' {
        "&lt;"@
    } else if c == '>' {
        "&gt;"@
    } else if c == '&' {
        "&amp;"@
    } else if c == '"' {
        "&quot;"@
    } else if c == '\'' {
        "&apos;"@
    } else {
        seq![c]
    }
}

/// The text as XML writes it.
pub open spec fn escaped(s: Seq<char>) -> Seq<char>
    decreases s.len(),
{
    if s.len() == 0 {
        seq![]
    } else {
        escaped_char(s[0]) + escaped(s.skip(1))
    }
}

/// A text that is written with its entities is read back. No entity is decoded twice.
pub proof fn lemma_entities_round_trip(s: Seq<char>)
    ensures
        decoded(escaped(s)) == s,
    decreases s.len(),
{
    if s.len() == 0 {
        assert(decoded(escaped(s)) =~= s);
    } else {
        reveal_strlit("&lt;");
        reveal_strlit("&gt;");
        reveal_strlit("&amp;");
        reveal_strlit("&quot;");
        reveal_strlit("&apos;");
        let c = s[0];
        let one = escaped_char(c);
        let rest = escaped(s.skip(1));
        let text = escaped(s);
        lemma_entities_round_trip(s.skip(1));
        lemma_entity(text);
        let n = one.len() as int;
        assert(text.subrange(0, n) =~= one);
        assert(text.skip(n) =~= rest);
        if c == '<' || c == '>' || c == '&' || c == '"' || c == '\'' {
            assert(occurs_at(text, one, 0));
            assert(text[1] == one[1] && text[2] == one[2]);
            assert forall|pat: Seq<char>| #[trigger] occurs_at(text, pat, 0) && pat.len() > 2 implies
                pat[1] == one[1] && pat[2] == one[2] by {
                assert(text.subrange(0, pat.len() as int)[1] == text[1]);
                assert(text.subrange(0, pat.len() as int)[2] == text[2]);
            }
            assert(entity(text) == Some((c, n)));
        }
        assert(decoded(text) == seq![c] + decoded(rest));
        assert(s =~= seq![c] + s.skip(1));
    }
}

/// The five entities stand for one character each, and what follows an entity is decoded by
/// itself.
pub proof fn lemma_entities_decoded(rest: Seq<char>)
    ensures
        decoded("&lt;"@ + rest) == seq!['<'] + decoded(rest),
        decoded("&gt;"@ + rest) == seq!['>'] + decoded(rest),
        decoded("&amp;"@ + rest) == seq!['&'] + decoded(rest),
        decoded("&quot;"@ + rest) == seq!['"'] + decoded(rest),
        decoded("&apos;"@ + rest) == seq!['\''] + decoded(rest),
{
    lemma_one_decoded('<', rest);
    lemma_one_decoded('>', rest);
    lemma_one_decoded('&', rest);
    lemma_one_decoded('"', rest);
    lemma_one_decoded('\'', rest);
}

proof fn lemma_one_decoded(c: char, rest: Seq<char>)
    requires
        c == '<' || c == '>' || c == '&' || c == '"' || c == '\'',
    ensures
        decoded(escaped_char(c) + rest) == seq![c] + decoded(rest),
{
    reveal_strlit("&lt;");
    reveal_strlit("&gt;");
    reveal_strlit("&amp;");
    reveal_strlit("&quot;");
    reveal_strlit("&apos;");
    let one = escaped_char(c);
    let text = one + rest;
    let n = one.len() as int;
    assert(text.subrange(0, n) =~= one);
    assert(text.skip(n) =~= rest);
    assert(text[1] == one[1] && text[2] == one[2]);
    assert forall|pat: Seq<char>| #[trigger] occurs_at(text, pat, 0) && pat.len() > 2 implies pat[1]
        == one[1] && pat[2] == one[2] by {
        assert(text.subrange(0, pat.len() as int)[1] == text[1]);
        assert(text.subrange(0, pat.len() as int)[2] == text[2]);
    }
    assert(entity(text) == Some((c, n)));
}

/// The text does not begin with `pat`.
pub open spec fn begins_not(s: Seq<char>, pat: Seq<char>) -> bool {
    s.len() < pat.len() || s.take(pat.len() as int) != pat
}

/// A character that does not begin one of the five entities stays as it is, an ampersand too.
pub proof fn lemma_other_stays(c: char, rest: Seq<char>)
    requires
        begins_not(seq![c] + rest, "&lt;"@),
        begins_not(seq![c] + rest, "&gt;"@),
        begins_not(seq![c] + rest, "&amp;"@),
        begins_not(seq![c] + rest, "&quot;"@),
        begins_not(seq![c] + rest, "&apos;"@),
    ensures
        decoded(seq![c] + rest) == seq![c] + decoded(rest),
{
    let text = seq![c] + rest;
    assert(text.skip(1) =~= rest);
    assert forall|pat: Seq<char>| #[trigger] begins_not(text, pat) implies !occurs_at(
        text,
        pat,
        0,
    ) by {
        if occurs_at(text, pat, 0) {
            assert(text.subrange(0, pat.len() as int) =~= text.take(pat.len() as int));
        }
    }
}

/// The entity at the start of `s`: the character that it stands for, and what follows it.
fn read_entity<'a>(s: &'a str) -> (r: Option<(&'static str, &'a str)>)
    ensures
        match r {
            Some((c, rest)) => {
                &&& entity(s@) matches Some((d, n))
                &&& c@ == seq![d]
                &&& rest@ == s@.skip(n)
            },
            None => entity(s@) is None,
        },
{
    proof {
        reveal_strlit("<");
        reveal_strlit(">");
        reveal_strlit("&");
        reveal_strlit("\"");
        reveal_strlit("'");
        assert("<"@ =~= seq!['<']);
        assert(">"@ =~= seq!['>']);
        assert("&"@ =~= seq!['&']);
        assert("\""@ =~= seq!['"']);
        assert("'"@ =~= seq!['\'']);
    }
    match strip_prefix(s, "&lt;") {
        Some(rest) => {
            return Some(("<", rest));
        },
        None => {},
    }
    match strip_prefix(s, "&gt;") {
        Some(rest) => {
            return Some((">", rest));
        },
        None => {},
    }
    match strip_prefix(s, "&amp;") {
        Some(rest) => {
            return Some(("&", rest));
        },
        None => {},
    }
    match strip_prefix(s, "&quot;") {
        Some(rest) => {
            return Some(("\"", rest));
        },
        None => {},
    }
    match strip_prefix(s, "&apos;") {
        Some(rest) => Some(("'", rest)),
        None => None,
    }
}

impl MinimaxM2Parser {
    /// Decodes the common XML entities, each once: what comes of `&amp;` is not decoded again.
    pub fn decode_xml_entities(text: &str) -> (r: String)
        ensures
            r@ == decoded(text@),
    {
        let mut out = String::new();
        let mut rest = text;
        assert(out@ + decoded(rest@) =~= decoded(text@));
        loop
            invariant
                out@ + decoded(rest@) == decoded(text@),
            decreases rest@.len(),
        {
            proof {
                reveal_strlit("&");
            }
            let ghost before = out@;
            match cut(rest, "&") {
                Some((at, head, behind)) => {
                    let ghost i = first_occurrence(rest@, "&"@)->0;
                    let from = split(rest, at, Ghost(i)).1;
                    proof {
                        lemma_no_ampersand(rest@, i);
                        assert(rest@ =~= head@ + from@);
                        lemma_decoded_behind(head@, from@);
                        lemma_entity(from@);
                        assert(rest@.subrange(i, i + 1)[0] == rest@[i]);
                        assert(from@[0] == '&');
                        assert(from@.skip(1) =~= behind@);
                    }
                    out.append(head);
                    match read_entity(from) {
                        Some((c, next)) => {
                            out.append(c);
                            assert(out@ + decoded(next@) =~= before + (head@ + (c@ + decoded(
                                next@,
                            ))));
                            rest = next;
                        },
                        None => {
                            out.append("&");
                            assert("&"@ =~= seq!['&']);
                            assert(out@ + decoded(behind@) =~= before + (head@ + ("&"@ + decoded(
                                behind@,
                            ))));
                            rest = behind;
                        },
                    }
                },
                None => {
                    proof {
                        lemma_no_ampersand(rest@, rest@.len() as int);
                        lemma_decoded_plain(rest@);
                    }
                    out.append(rest);
                    return out;
                },
            }
        }
    }
}

/// No ampersand stands before the first.
proof fn lemma_no_ampersand(s: Seq<char>, n: int)
    requires
        match first_occurrence(s, "&"@) {
            Some(i) => n == i,
            None => n == s.len(),
        },
    ensures
        0 <= n <= s.len(),
        forall|j: int| 0 <= j < n ==> #[trigger] s[j] != '&',
{
    reveal_strlit("&");
    crate::text::search::lemma_first_occurrence(s, "&"@);
    assert forall|j: int| 0 <= j < n implies #[trigger] s[j] != '&' by {
        if s[j] == '&' {
            assert(s.subrange(j, j + 1) =~= "&"@);
            assert(occurs_at(s, "&"@, j));
        }
    }
}

} // verus!
