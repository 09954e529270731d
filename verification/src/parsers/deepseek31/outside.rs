//! Tokens that stand outside the strings of a JSON text.
use super::DeepSeek31Parser;
use crate::text::edit::characters;
use crate::text::encoding::{
    byte_offset, lemma_byte_offset_injective, lemma_byte_offset_next, lemma_encode_split,
    lemma_encoding_occurs, lemma_occurrence_encodes, width,
};
use crate::text::search::{bytes_at, occurs_at, offset_for, split};
use vstd::prelude::*;
use vstd::utf8::*;

verus! {

/// Where a reader of JSON text stands.
#[derive(Clone, Copy, PartialEq, Eq, Structural)]
pub enum Place {
    /// Outside the strings.
    Outside,
    /// Inside a string.
    Inside,
    /// Inside a string, behind a backslash.
    Escaped,
}

/// Where the reader stands after one more character.
pub open spec fn place_after(place: Place, c: char) -> Place {
    match place {
        Place::Outside => if c == '"' {
            Place::Inside
        } else {
            Place::Outside
        },
        Place::Inside => if c == '\\' {
            Place::Escaped
        } else if c == '"' {
            Place::Outside
        } else {
            Place::Inside
        },
        Place::Escaped => Place::Inside,
    }
}

/// Where the reader stands who has read `s`.
pub open spec fn place(s: Seq<char>) -> Place
    decreases s.len(),
{
    if s.len() == 0 {
        Place::Outside
    } else {
        place_after(place(s.drop_last()), s.last())
    }
}

/// `token` stands in `s` from character `i` on, outside the strings.
pub open spec fn stands_outside(s: Seq<char>, token: Seq<char>, i: int) -> bool {
    &&& i < s.len()
    &&& occurs_at(s, token, i)
    &&& place(s.take(i)) == Place::Outside
    &&& s[i] != '"'
}

/// `i` is the first position at which `token` stands in `s` outside the strings.
pub open spec fn is_first_outside(s: Seq<char>, token: Seq<char>, i: int) -> bool {
    &&& stands_outside(s, token, i)
    &&& forall|j: int| 0 <= j < i ==> !#[trigger] stands_outside(s, token, j)
}

/// The first position at which `token` stands in `s` outside the strings, if there is one.
#[verifier::opaque]
pub open spec fn first_outside(s: Seq<char>, token: Seq<char>) -> Option<int> {
    if exists|i: int| #[trigger] is_first_outside(s, token, i) {
        Some(choose|i: int| #[trigger] is_first_outside(s, token, i))
    } else {
        None
    }
}

/// There is only one first position.
pub proof fn lemma_first_outside_is(s: Seq<char>, token: Seq<char>, i: int)
    requires
        is_first_outside(s, token, i),
    ensures
        first_outside(s, token) == Some(i),
{
    reveal(first_outside);
    let k = first_outside(s, token)->0;
    if k < i {
        assert(!stands_outside(s, token, k));
    } else if i < k {
        assert(!stands_outside(s, token, i));
    }
}

proof fn lemma_least_outside(s: Seq<char>, token: Seq<char>, i: int)
    requires
        stands_outside(s, token, i),
    ensures
        exists|k: int| #[trigger] is_first_outside(s, token, k),
    decreases i,
{
    if exists|j: int| 0 <= j < i && #[trigger] stands_outside(s, token, j) {
        let j = choose|j: int| 0 <= j < i && #[trigger] stands_outside(s, token, j);
        lemma_least_outside(s, token, j);
    } else {
        assert(is_first_outside(s, token, i));
    }
}

/// What [`first_outside`] gives is the first position, and it gives one whenever there is one.
pub proof fn lemma_first_outside(s: Seq<char>, token: Seq<char>)
    ensures
        match first_outside(s, token) {
            Some(i) => is_first_outside(s, token, i),
            None => forall|i: int| !#[trigger] stands_outside(s, token, i),
        },
{
    reveal(first_outside);
    if exists|i: int| #[trigger] stands_outside(s, token, i) {
        lemma_least_outside(s, token, choose|i: int| #[trigger] stands_outside(s, token, i));
    }
}

/// The characters of a string as JSON writes them, with a backslash before quotation marks and
/// backslashes.
pub open spec fn string_body(s: Seq<char>) -> Seq<char>
    decreases s.len(),
{
    if s.len() == 0 {
        seq![]
    } else if s[0] == '"' || s[0] == '\\' {
        seq!['\\', s[0]] + string_body(s.skip(1))
    } else {
        seq![s[0]] + string_body(s.skip(1))
    }
}

/// A string as JSON writes it.
pub open spec fn quoted(s: Seq<char>) -> Seq<char> {
    seq!['"'] + (string_body(s) + seq!['"'])
}

proof fn lemma_next_place(a: Seq<char>, c: char)
    ensures
        place(a + seq![c]) == place_after(place(a), c),
{
    assert((a + seq![c]).drop_last() =~= a);
}

proof fn lemma_body_place(a: Seq<char>, s: Seq<char>)
    requires
        place(a) == Place::Inside,
    ensures
        place(a + string_body(s)) == Place::Inside,
        forall|i: int|
            a.len() <= i <= (a + string_body(s)).len() ==> place(
                #[trigger] (a + string_body(s)).take(i),
            ) != Place::Outside,
    decreases s.len(),
{
    let all = a + string_body(s);
    if s.len() == 0 {
        assert(all =~= a);
        assert forall|i: int| a.len() <= i <= all.len() implies place(#[trigger] all.take(i))
            != Place::Outside by {
            assert(all.take(i) =~= a);
        }
    } else {
        let c = s[0];
        let one = if c == '"' || c == '\\' {
            lemma_next_place(a, '\\');
            lemma_next_place(a + seq!['\\'], c);
            assert(a + seq!['\\', c] =~= a + seq!['\\'] + seq![c]);
            seq!['\\', c]
        } else {
            lemma_next_place(a, c);
            seq![c]
        };
        let b = a + one;
        lemma_body_place(b, s.skip(1));
        assert(b + string_body(s.skip(1)) =~= all);
        assert forall|i: int| a.len() <= i <= all.len() implies place(#[trigger] all.take(i))
            != Place::Outside by {
            if i == a.len() {
                assert(all.take(i) =~= a);
            } else if i < b.len() {
                assert(all.take(i) =~= a + seq!['\\']);
            }
        }
    }
}

/// A string, whatever stands in it, is read from its quotation mark to its quotation mark: within
/// it nothing stands outside the strings, and behind it the reader stands outside again.
pub proof fn lemma_string_place(a: Seq<char>, s: Seq<char>)
    requires
        place(a) == Place::Outside,
    ensures
        place(a + quoted(s)) == Place::Outside,
        forall|i: int|
            a.len() < i < (a + quoted(s)).len() ==> place(#[trigger] (a + quoted(s)).take(i))
                != Place::Outside,
{
    let all = a + quoted(s);
    let b = a + seq!['"'];
    let c = b + string_body(s);
    lemma_next_place(a, '"');
    lemma_body_place(b, s);
    lemma_next_place(c, '"');
    assert(all =~= c + seq!['"']);
    assert forall|i: int| a.len() < i < all.len() implies place(#[trigger] all.take(i))
        != Place::Outside by {
        assert(all.take(i) =~= c.take(i));
    }
}

/// Outside of the strings, a character other than a quotation mark leaves the reader there.
pub proof fn lemma_plain_place(a: Seq<char>, s: Seq<char>)
    requires
        place(a) == Place::Outside,
        forall|j: int| 0 <= j < s.len() ==> #[trigger] s[j] != '"',
    ensures
        place(a + s) == Place::Outside,
    decreases s.len(),
{
    if s.len() == 0 {
        assert(a + s =~= a);
    } else {
        assert((a + s).drop_last() =~= a + s.drop_last());
        assert forall|j: int| 0 <= j < s.drop_last().len() implies #[trigger] s.drop_last()[j]
            != '"' by {
            assert(s[j] != '"');
        }
        lemma_plain_place(a, s.drop_last());
        assert((a + s).last() == s[s.len() - 1]);
    }
}

/// A token that begins with a quotation mark does not stand outside the strings: it begins one.
pub proof fn lemma_quote_not_found(s: Seq<char>, token: Seq<char>)
    requires
        token.len() > 0,
        token[0] == '"',
    ensures
        first_outside(s, token) is None,
{
    lemma_first_outside(s, token);
    if let Some(i) = first_outside(s, token) {
        assert(s.subrange(i, i + token.len())[0] == s[i]);
    }
}

/// Where the reader stands after one more character.
fn step(place: Place, c: char) -> (r: Place)
    ensures
        r == place_after(place, c),
{
    match place {
        Place::Outside => {
            if c == '"' {
                Place::Inside
            } else {
                Place::Outside
            }
        },
        Place::Inside => {
            if c == '\\' {
                Place::Escaped
            } else if c == '"' {
                Place::Outside
            } else {
                Place::Inside
            }
        },
        Place::Escaped => Place::Inside,
    }
}

impl DeepSeek31Parser {
    /// The byte offset of `needle` in `s`, ignoring occurrences inside JSON strings.
    pub fn find_token_outside_json_strings(s: &str, needle: &str) -> (r: Option<usize>)
        requires
            needle@.len() > 0 || first_outside(s@, needle@) is Some || place(s@) == Place::Escaped,
        ensures
            offset_for(r, s@, first_outside(s@, needle@)),
    {
        let cs = characters(s);
        let hay = s.as_bytes();
        let pat = needle.as_bytes();
        let count = cs.len();
        let n = hay.len();
        let m = pat.len();
        let mut at = Place::Outside;
        let mut i: usize = 0;
        let mut k: usize = 0;
        proof {
            assert(s@.take(0) =~= Seq::<char>::empty());
        }
        while k < count
            invariant
                cs@ == s@,
                count == cs@.len(),
                hay@ == encode_utf8(s@),
                pat@ == encode_utf8(needle@),
                n == hay@.len(),
                m == pat@.len(),
                k <= count,
                i == byte_offset(s@, k as int),
                i <= n,
                at == place(s@.take(k as int)),
                forall|j: int| 0 <= j < k ==> !#[trigger] stands_outside(s@, needle@, j),
            decreases count - k,
        {
            let c = cs[k];
            if at == Place::Outside && c != '"' && m <= n - i {
                if bytes_at(hay, pat, i) {
                    proof {
                        if needle@.len() > 0 {
                            let x = lemma_encoding_occurs(s@, needle@, i as int);
                            lemma_byte_offset_injective(s@, x, k as int);
                        } else {
                            assert(s@.subrange(k as int, k as int) =~= needle@);
                        }
                        lemma_first_outside_is(s@, needle@, k as int);
                    }
                    return Some(i);
                }
            }
            proof {
                if stands_outside(s@, needle@, k as int) {
                    lemma_occurrence_encodes(s@, needle@, k as int);
                }
                assert(s@.take(k + 1).drop_last() =~= s@.take(k as int));
                lemma_byte_offset_next(s@, k as int);
                lemma_encode_split(s@, k + 1);
            }
            at = step(at, c);
            i += width(c);
            k += 1;
        }
        proof {
            assert forall|j: int| !#[trigger] stands_outside(s@, needle@, j) by {}
            lemma_first_outside(s@, needle@);
        }
        None
    }
}

/// Where `token` first stands in `s` outside the strings: what stands before it, and what
/// stands after it.
pub(crate) fn cut_outside<'a>(s: &'a str, token: &str) -> (r: Option<(&'a str, &'a str)>)
    requires
        token@.len() > 0,
    ensures
        match r {
            Some((head, tail)) => {
                &&& first_outside(s@, token@) matches Some(i)
                &&& is_first_outside(s@, token@, i)
                &&& head@ == s@.take(i)
                &&& tail@ == s@.skip(i + token@.len())
            },
            None => first_outside(s@, token@) is None,
        },
{
    match DeepSeek31Parser::find_token_outside_json_strings(s, token) {
        Some(at) => {
            let ghost i = first_outside(s@, token@)->0;
            proof {
                lemma_first_outside(s@, token@);
                lemma_occurrence_encodes(s@, token@, i);
            }
            let n = s.as_bytes().len();
            let head = split(s, at, Ghost(i)).0;
            let tail = split(s, at + token.as_bytes().len(), Ghost(i + token@.len())).1;
            Some((head, tail))
        },
        None => None,
    }
}

} // verus!
