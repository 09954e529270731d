//! The markup of MiniMax M2: `<minimax:tool_call>`, `<invoke name="..">` and
//! `<parameter name="..">` with their closing tags.
use crate::parsers::spans::{
    before_open, blocks, find_blocks, lemma_before_open_bounds, spans,
};
use crate::text::edit::{first_char, is_whitespace, whitespace};
use crate::text::search::{
    behind, byte_len, cut, find, first_occurrence, last_occurrence, lemma_first_in_rest,
    lemma_first_occurrence, lemma_last_occurrence, occurs_at, offset_for, offset_of_rest, rcut,
    split,
};
use crate::types::text_pairs;
use crate::text::encoding::{
    byte_offset, lemma_byte_offset_skip, lemma_encode_split, lemma_occurrence_encodes,
};
use vstd::prelude::*;

verus! {

/// Opens a group of calls.
pub const TOOL_CALL_OPEN: &'static str = "<minimax:tool_call>";

/// Closes a group of calls.
pub const TOOL_CALL_CLOSE: &'static str = "</minimax:tool_call>";

/// Closes a call.
pub const INVOKE_CLOSE: &'static str = "</invoke>";

/// Closes a parameter.
pub const PARAM_CLOSE: &'static str = "</parameter>";

/// The value of the attribute `name` among the attributes of a tag.
pub open spec fn name_attribute(attributes: Seq<char>) -> Option<Seq<char>> {
    match first_occurrence(attributes, "name=\""@) {
        Some(i) => {
            let rest = attributes.skip(i + "name=\""@.len());
            match first_occurrence(rest, "\""@) {
                Some(j) => Some(rest.take(j)),
                None => None,
            }
        },
        None => None,
    }
}

/// What follows the name of an opening tag, as far as it completes the tag: the value of its
/// attribute `name`, and the position past its `>`.
pub open spec fn tag_rest(after: Seq<char>) -> Option<(Seq<char>, int)> {
    if after.len() > 0 && (whitespace(after[0]) || after[0] == '>') {
        match first_occurrence(after, ">"@) {
            Some(gt) => match name_attribute(after.take(gt)) {
                Some(name) => Some((name, gt + 1)),
                None => None,
            },
            None => None,
        }
    } else {
        None
    }
}

/// The opening tag that begins with `open` at position `i` of `s`: its name, and the position
/// past it.
pub open spec fn named_open_at(s: Seq<char>, open: Seq<char>, i: int) -> Option<(Seq<char>, int)> {
    if occurs_at(s, open, i) {
        match tag_rest(s.skip(i + open.len())) {
            Some((name, k)) => Some((name, i + open.len() + k)),
            None => None,
        }
    } else {
        None
    }
}

/// `i` is the first position of `s` at which there is such a tag.
pub open spec fn is_first_named_open(s: Seq<char>, open: Seq<char>, i: int) -> bool {
    &&& named_open_at(s, open, i) is Some
    &&& forall|j: int| 0 <= j < i ==> (#[trigger] named_open_at(s, open, j)) is None
}

/// The first such tag in `s`: its name, and the position past it.
#[verifier::opaque]
pub open spec fn named_open(s: Seq<char>, open: Seq<char>) -> Option<(Seq<char>, int)> {
    if exists|i: int| #[trigger] is_first_named_open(s, open, i) {
        named_open_at(s, open, choose|i: int| #[trigger] is_first_named_open(s, open, i))
    } else {
        None
    }
}

/// The first place in `s` that looks like the tag `open`, if `s` has a complete such tag.
pub open spec fn open_position(s: Seq<char>, open: Seq<char>) -> Option<int> {
    if named_open(s, open) is Some {
        first_occurrence(s, open)
    } else {
        None
    }
}

proof fn lemma_least_named_open(s: Seq<char>, open: Seq<char>, i: int)
    requires
        0 <= i,
        named_open_at(s, open, i) is Some,
    ensures
        exists|k: int| #[trigger] is_first_named_open(s, open, k),
    decreases i,
{
    if exists|j: int| 0 <= j < i && (#[trigger] named_open_at(s, open, j)) is Some {
        let j = choose|j: int| 0 <= j < i && (#[trigger] named_open_at(s, open, j)) is Some;
        lemma_least_named_open(s, open, j);
    } else {
        assert(is_first_named_open(s, open, i));
    }
}

/// The first tag is where no tag stands before, and there is one wherever there is any.
pub proof fn lemma_named_open(s: Seq<char>, open: Seq<char>)
    ensures
        match named_open(s, open) {
            Some(found) => exists|i: int|
                #[trigger] is_first_named_open(s, open, i) && named_open_at(s, open, i) == Some(
                    found,
                ),
            None => forall|i: int| (#[trigger] named_open_at(s, open, i)) is None,
        },
{
    reveal(named_open);
    if exists|i: int| (#[trigger] named_open_at(s, open, i)) is Some {
        let i = choose|i: int| (#[trigger] named_open_at(s, open, i)) is Some;
        lemma_least_named_open(s, open, i);
    }
}

/// There is only one first tag.
pub proof fn lemma_named_open_is(s: Seq<char>, open: Seq<char>, i: int)
    requires
        is_first_named_open(s, open, i),
    ensures
        named_open(s, open) == named_open_at(s, open, i),
{
    reveal(named_open);
    let k = choose|k: int| #[trigger] is_first_named_open(s, open, k);
    assert(is_first_named_open(s, open, k));
    if k < i {
        assert(named_open_at(s, open, k) is None);
    } else if i < k {
        assert(named_open_at(s, open, i) is None);
    }
}

/// A tag ends within the text that it stands in, past its beginning.
pub proof fn lemma_named_open_bounds(s: Seq<char>, open: Seq<char>)
    ensures
        named_open(s, open) matches Some((_, end)) ==> open.len() < end <= s.len(),
{
    lemma_named_open(s, open);
    if named_open(s, open) is Some {
        let i = choose|i: int|
            #[trigger] is_first_named_open(s, open, i) && named_open_at(s, open, i) == named_open(
                s,
                open,
            );
        let after = s.skip(i + open.len());
        lemma_first_occurrence(after, ">"@);
        reveal_strlit(">");
    }
}

/// What follows the name of an opening tag, as far as it completes the tag: the value of its
/// attribute `name`, and what follows its `>`.
fn read_tag_rest<'a>(after: &'a str) -> (r: Option<(String, &'a str)>)
    ensures
        match r {
            Some((name, rest)) => {
                &&& tag_rest(after@) matches Some((n, k))
                &&& name@ == n
                &&& 0 <= k <= after@.len()
                &&& rest@ == after@.skip(k)
            },
            None => tag_rest(after@) is None,
        },
{
    proof {
        reveal_strlit(">");
        reveal_strlit("name=\"");
        reveal_strlit("\"");
    }
    match first_char(after) {
        Some(c) => {
            if !is_whitespace(c) && c != '>' {
                return None;
            }
        },
        None => {
            return None;
        },
    }
    let (_, attributes, rest) = match cut(after, ">") {
        Some(found) => found,
        None => {
            return None;
        },
    };
    let (_, _, name_rest) = match cut(attributes, "name=\"") {
        Some(found) => found,
        None => {
            return None;
        },
    };
    let (_, name, _) = match cut(name_rest, "\"") {
        Some(found) => found,
        None => {
            return None;
        },
    };
    Some((name.to_owned(), rest))
}

/// The first tag that begins with `open`: its name, and what follows it.
fn read_named_open<'a>(s: &'a str, open: &str) -> (r: Option<(String, &'a str)>)
    requires
        open@.len() > 0,
        open@[0] <= '\u{7f}',
    ensures
        match r {
            Some((name, rest)) => {
                &&& named_open(s@, open@) matches Some((n, k))
                &&& name@ == n
                &&& open@.len() < k <= s@.len()
                &&& rest@ == s@.skip(k)
            },
            None => named_open(s@, open@) is None,
        },
{
    let mut rest = s;
    let ghost mut done: int = 0;
    assert(s@.skip(0) =~= s@);
    loop
        invariant
            open@.len() > 0,
            open@[0] <= '\u{7f}',
            0 <= done <= s@.len(),
            rest@ == s@.skip(done),
            forall|j: int| 0 <= j < done ==> (#[trigger] named_open_at(s@, open@, j)) is None,
        decreases rest@.len(),
    {
        proof {
            lemma_first_in_rest(s@, open@, done);
        }
        match cut(rest, open) {
            None => {
                proof {
                    lemma_named_open(s@, open@);
                }
                return None;
            },
            Some((at, _, after)) => {
                let ghost i = first_occurrence(rest@, open@)->0;
                proof {
                    assert(after@ =~= s@.skip(done + i + open@.len()));
                    assert(rest@[i] == open@[0]) by {
                        assert(rest@.subrange(i, i + open@.len())[0] == open@[0]);
                    }
                }
                match read_tag_rest(after) {
                    Some((name, tail)) => {
                        proof {
                            assert(is_first_named_open(s@, open@, done + i));
                            lemma_named_open_is(s@, open@, done + i);
                            lemma_named_open_bounds(s@, open@);
                            assert(tail@ =~= s@.skip((named_open(s@, open@)->0).1));
                        }
                        return Some((name, tail));
                    },
                    None => {
                        rest = behind(rest, at, Ghost(i));
                        proof {
                            assert(rest@ =~= s@.skip(done + i + 1));
                            done = done + i + 1;
                        }
                    },
                }
            },
        }
    }
}

/// `<` followed by `tag`.
fn opening(tag: &str) -> (r: String)
    ensures
        r@ == "<"@ + tag@,
        r@.len() > 0,
        r@[0] == '<',
{
    proof {
        reveal_strlit("<");
    }
    let mut open = String::new();
    open.append("<");
    open.append(tag);
    assert(open@ =~= "<"@ + tag@);
    open
}

/// Finds `<tag ... name="...">`: its name, and the byte offset past its `>`.
pub fn find_named_open(s: &str, tag: &str) -> (r: Option<(String, usize)>)
    ensures
        match r {
            Some((name, end)) => {
                &&& named_open(s@, "<"@ + tag@) matches Some((n, k))
                &&& name@ == n
                &&& 0 < k <= s@.len()
                &&& end == byte_offset(s@, k)
            },
            None => named_open(s@, "<"@ + tag@) is None,
        },
{
    let open = opening(tag);
    match read_named_open(s, &open) {
        Some((name, rest)) => {
            let end = offset_of_rest(s, rest, Ghost((named_open(s@, open@)->0).1));
            Some((name, end))
        },
        None => None,
    }
}

/// What stands in `after` before the next sibling tag.
pub open spec fn before_sibling(after: Seq<char>, open: Seq<char>) -> Seq<char> {
    match open_position(after, open) {
        Some(i) => after.take(i),
        None => after,
    }
}

/// The value of a parameter whose opening tag stands before `after`, and what follows its
/// closing tag. The closing tag is the last one before the next parameter.
pub open spec fn parameter_value(after: Seq<char>) -> Option<(Seq<char>, Seq<char>)> {
    let region = before_sibling(after, "<parameter"@);
    match last_occurrence(region, PARAM_CLOSE@) {
        Some(c) => Some((region.take(c), after.skip(c + PARAM_CLOSE@.len()))),
        None => None,
    }
}

/// The names and values of the parameters in `s`, up to one that is not closed.
pub open spec fn parameter_pairs(s: Seq<char>) -> Seq<(Seq<char>, Seq<char>)>
    decreases s.len(),
{
    match named_open(s, "<parameter"@) {
        Some((key, k)) => match parameter_value(s.skip(k)) {
            Some((value, rest)) => {
                proof {
                    lemma_named_open_bounds(s, "<parameter"@);
                    lemma_parameter_value_bounds(s.skip(k));
                }
                seq![(key, value)] + parameter_pairs(rest)
            },
            None => seq![],
        },
        None => seq![],
    }
}

/// Every parameter in `s` is closed.
pub open spec fn fully_closed(s: Seq<char>) -> bool
    decreases s.len(),
{
    match named_open(s, "<parameter"@) {
        Some((_, k)) => match parameter_value(s.skip(k)) {
            Some((_, rest)) => {
                proof {
                    lemma_named_open_bounds(s, "<parameter"@);
                    lemma_parameter_value_bounds(s.skip(k));
                }
                fully_closed(rest)
            },
            None => false,
        },
        None => true,
    }
}

/// The first occurrence of `close`, not before `from`, of which `ok` accepts what stands before
/// it; what `ok` refuses is passed over.
pub open spec fn structural_close(
    s: Seq<char>,
    close: Seq<char>,
    ok: spec_fn(Seq<char>) -> bool,
    from: int,
) -> Option<int>
    decreases s.len() - from,
{
    if from < 0 || from > s.len() {
        None
    } else if close.len() == 0 {
        if ok(s.take(from)) {
            Some(from)
        } else {
            None
        }
    } else {
        match first_occurrence(s.skip(from), close) {
            Some(i) => {
                proof {
                    lemma_first_occurrence(s.skip(from), close);
                }
                if ok(s.take(from + i)) {
                    Some(from + i)
                } else {
                    structural_close(s, close, ok, from + i + close.len())
                }
            },
            None => None,
        }
    }
}

/// The first `</invoke>` in `s` before which every parameter is closed.
pub open spec fn invoke_end(s: Seq<char>) -> Option<int> {
    structural_close(s, INVOKE_CLOSE@, |t: Seq<char>| fully_closed(t), 0)
}

/// The last `</invoke>` in `s` before which every parameter is closed.
pub open spec fn last_close(s: Seq<char>) -> Option<int>
    decreases s.len(),
{
    match last_occurrence(s, INVOKE_CLOSE@) {
        Some(i) => if fully_closed(s.take(i)) {
            Some(i)
        } else if 0 <= i < s.len() {
            last_close(s.take(i))
        } else {
            None
        },
        None => None,
    }
}

/// What stands in `s` before the next call or the end of the group.
pub open spec fn before_next(s: Seq<char>) -> Seq<char> {
    before_sibling(before_open(s, TOOL_CALL_CLOSE@), "<invoke"@)
}

/// The end, in the text of a stream, of the call whose opening tag stands before it: there is
/// one as soon as every parameter is closed before an `</invoke>`, and it is the last such
/// `</invoke>` before the next call or the end of the group, as far as the text goes.
pub open spec fn call_end(s: Seq<char>) -> Option<int> {
    match invoke_end(s) {
        Some(c) => {
            let from = c + INVOKE_CLOSE@.len();
            last_close(s.take(from + before_next(s.skip(from)).len()))
        },
        None => None,
    }
}

/// The calls in `s`, each with its name and the markup of its parameters, up to one that is
/// not closed. A call reaches to the last `</invoke>` before the next call before which its
/// parameters are closed.
pub open spec fn invoke_blocks(s: Seq<char>) -> Seq<(Seq<char>, Seq<char>)>
    decreases s.len(),
{
    match named_open(s, "<invoke"@) {
        Some((name, k)) => {
            let after = s.skip(k);
            let region = before_sibling(after, "<invoke"@);
            match last_close(region) {
                Some(c) => {
                    proof {
                        lemma_named_open_bounds(s, "<invoke"@);
                        lemma_before_sibling_bounds(after, "<invoke"@);
                        lemma_last_close(region);
                    }
                    seq![(name, region.take(c))] + invoke_blocks(
                        after.skip(c + INVOKE_CLOSE@.len()),
                    )
                },
                None => seq![],
            }
        },
        None => seq![],
    }
}

/// The last accepted closing tag stands in the text, and every parameter is closed before it.
pub proof fn lemma_last_close(s: Seq<char>)
    ensures
        last_close(s) matches Some(c) ==> occurs_at(s, INVOKE_CLOSE@, c) && fully_closed(s.take(c)),
    decreases s.len(),
{
    lemma_last_occurrence(s, INVOKE_CLOSE@);
    if let Some(i) = last_occurrence(s, INVOKE_CLOSE@) {
        if !fully_closed(s.take(i)) && i < s.len() {
            let head = s.take(i);
            lemma_last_close(head);
            if let Some(c) = last_close(head) {
                assert(s.subrange(c, c + INVOKE_CLOSE@.len()) =~= head.subrange(
                    c,
                    c + INVOKE_CLOSE@.len(),
                ));
                assert(s.take(c) =~= head.take(c));
            }
        }
    }
}

/// What stands before the next call lies in the text.
pub proof fn lemma_before_next(s: Seq<char>)
    ensures
        before_next(s).len() <= s.len(),
        before_next(s) == s.take(before_next(s).len() as int),
{
    let group = before_open(s, TOOL_CALL_CLOSE@);
    lemma_before_open_bounds(s, TOOL_CALL_CLOSE@);
    lemma_before_sibling_bounds(group, "<invoke"@);
    let n = before_next(s).len() as int;
    assert(group.take(n) =~= s.take(n));
}

/// The end of a call is an occurrence of its closing tag.
pub proof fn lemma_call_end(s: Seq<char>)
    ensures
        call_end(s) matches Some(c) ==> occurs_at(s, INVOKE_CLOSE@, c) && fully_closed(s.take(c)),
{
    let ok = |t: Seq<char>| fully_closed(t);
    lemma_structural_close_bounds(s, INVOKE_CLOSE@, ok, 0);
    if let Some(c) = invoke_end(s) {
        let from = c + INVOKE_CLOSE@.len();
        lemma_before_next(s.skip(from));
        let head = s.take(from + before_next(s.skip(from)).len());
        lemma_last_close(head);
        if let Some(e) = last_close(head) {
            assert(s.subrange(e, e + INVOKE_CLOSE@.len()) =~= head.subrange(
                e,
                e + INVOKE_CLOSE@.len(),
            ));
            assert(s.take(e) =~= head.take(e));
        }
    }
}

/// What stands before a sibling is a prefix.
pub proof fn lemma_before_sibling_bounds(after: Seq<char>, open: Seq<char>)
    ensures
        before_sibling(after, open).len() <= after.len(),
        before_sibling(after, open) == after.take(before_sibling(after, open).len() as int),
{
    lemma_first_occurrence(after, open);
    assert(after.take(after.len() as int) =~= after);
}

/// What follows a parameter is shorter than what it stands in.
pub proof fn lemma_parameter_value_bounds(after: Seq<char>)
    ensures
        parameter_value(after) matches Some((value, rest)) ==> {
            &&& value.len() + PARAM_CLOSE@.len() + rest.len() == after.len()
            &&& value == after.take(value.len() as int)
            &&& rest == after.skip((value.len() + PARAM_CLOSE@.len()) as int)
        },
{
    let region = before_sibling(after, "<parameter"@);
    lemma_before_sibling_bounds(after, "<parameter"@);
    lemma_last_occurrence(region, PARAM_CLOSE@);
    if let Some(c) = last_occurrence(region, PARAM_CLOSE@) {
        assert(region.take(c) =~= after.take(c));
    }
}

/// A structural close is an occurrence of the closing tag.
pub proof fn lemma_structural_close_bounds(
    s: Seq<char>,
    close: Seq<char>,
    ok: spec_fn(Seq<char>) -> bool,
    from: int,
)
    ensures
        structural_close(s, close, ok, from) matches Some(c) ==> {
            &&& from <= c
            &&& occurs_at(s, close, c)
            &&& ok(s.take(c))
        },
    decreases s.len() - from,
{
    if close.len() == 0 {
        if 0 <= from <= s.len() {
            assert(s.subrange(from, from) =~= close);
        }
    } else if 0 <= from <= s.len() {
        lemma_first_in_rest(s, close, from);
        lemma_first_occurrence(s.skip(from), close);
        if let Some(i) = first_occurrence(s.skip(from), close) {
            if !ok(s.take(from + i)) {
                lemma_structural_close_bounds(s, close, ok, from + i + close.len());
            }
        }
    }
}

/// The first place that looks like the tag `open`, if there is a complete such tag.
fn open_offset(s: &str, open: &str) -> (r: Option<usize>)
    requires
        open@.len() > 0,
        open@[0] <= '\u{7f}',
    ensures
        offset_for(r, s@, open_position(s@, open@)),
{
    match read_named_open(s, open) {
        Some(_) => find(s, open),
        None => None,
    }
}

/// What stands in `after` before the next sibling tag.
fn region_before<'a>(after: &'a str, open: &str) -> (r: &'a str)
    requires
        open@.len() > 0,
        open@[0] <= '\u{7f}',
    ensures
        r@ == before_sibling(after@, open@),
{
    match open_offset(after, open) {
        Some(at) => {
            proof {
                lemma_first_occurrence(after@, open@);
            }
            split(after, at, Ghost(open_position(after@, open@)->0)).0
        },
        None => after,
    }
}

/// The byte offset of the first `<parameter`, if a complete opening tag of a parameter follows.
pub fn find_parameter_open_offset(s: &str) -> (r: Option<usize>)
    ensures
        offset_for(r, s@, open_position(s@, "<parameter"@)),
{
    proof {
        reveal_strlit("<parameter");
    }
    open_offset(s, "<parameter")
}

/// The byte offset of the first `<invoke`, if a complete opening tag of a call follows.
pub fn find_invoke_open_offset(s: &str) -> (r: Option<usize>)
    ensures
        offset_for(r, s@, open_position(s@, "<invoke"@)),
{
    proof {
        reveal_strlit("<invoke");
    }
    open_offset(s, "<invoke")
}

/// The value of a parameter whose opening tag stands before `after`, and what follows it.
fn read_parameter_value<'a>(after: &'a str) -> (r: Option<(&'a str, &'a str)>)
    ensures
        match r {
            Some((value, rest)) => parameter_value(after@) == Some((value@, rest@)),
            None => parameter_value(after@) is None,
        },
{
    proof {
        reveal_strlit("<parameter");
        reveal_strlit("</parameter>");
    }
    let region = region_before(after, "<parameter");
    match rcut(region, PARAM_CLOSE) {
        Some((_, value, _)) => {
            let ghost c = last_occurrence(region@, PARAM_CLOSE@)->0;
            proof {
                lemma_before_sibling_bounds(after@, "<parameter"@);
                assert(region@.take(c + PARAM_CLOSE@.len()) =~= after@.take(
                    c + PARAM_CLOSE@.len(),
                ));
            }
            let n = byte_len(after);
            let rest = split(
                after,
                byte_len(value) + byte_len(PARAM_CLOSE),
                Ghost(c + PARAM_CLOSE@.len()),
            ).1;
            Some((value, rest))
        },
        None => None,
    }
}

/// The names and values of the parameters in `params_text`, up to one that is not closed. A
/// closing tag inside a value is kept: a value reaches to the last closing tag before the next
/// parameter.
pub fn parse_parameter_pairs(params_text: &str) -> (r: Vec<(String, String)>)
    ensures
        text_pairs(r@) == parameter_pairs(params_text@),
{
    proof {
        reveal_strlit("<parameter");
    }
    let mut pairs: Vec<(String, String)> = Vec::new();
    let mut cursor = params_text;
    assert(text_pairs(pairs@) + parameter_pairs(cursor@) =~= parameter_pairs(params_text@));
    loop
        invariant
            text_pairs(pairs@) + parameter_pairs(cursor@) == parameter_pairs(params_text@),
            "<parameter"@.len() > 0,
            "<parameter"@[0] <= '\u{7f}',
        decreases cursor@.len(),
    {
        match read_named_open(cursor, "<parameter") {
            Some((key, after)) => match read_parameter_value(after) {
                Some((value, rest)) => {
                    let ghost before = pairs@;
                    proof {
                        lemma_parameter_value_bounds(after@);
                    }
                    let ghost pair = (key@, value@);
                    pairs.push((key, value.to_owned()));
                    assert(text_pairs(pairs@) =~= text_pairs(before).push(pair));
                    assert(text_pairs(pairs@) + parameter_pairs(rest@) =~= text_pairs(before) + (
                    seq![pair] + parameter_pairs(rest@)));
                    cursor = rest;
                },
                None => {
                    assert(text_pairs(pairs@) + seq![] =~= text_pairs(pairs@));
                    return pairs;
                },
            },
            None => {
                assert(text_pairs(pairs@) + seq![] =~= text_pairs(pairs@));
                return pairs;
            },
        }
    }
}

/// Whether every parameter in `params_text` is closed.
pub fn parameters_fully_closed(params_text: &str) -> (r: bool)
    ensures
        r == fully_closed(params_text@),
{
    proof {
        reveal_strlit("<parameter");
    }
    let mut cursor = params_text;
    loop
        invariant
            fully_closed(params_text@) == fully_closed(cursor@),
            "<parameter"@.len() > 0,
            "<parameter"@[0] <= '\u{7f}',
        decreases cursor@.len(),
    {
        match read_named_open(cursor, "<parameter") {
            Some((_, after)) => match read_parameter_value(after) {
                Some((_, rest)) => {
                    proof {
                        lemma_parameter_value_bounds(after@);
                    }
                    cursor = rest;
                },
                None => {
                    return false;
                },
            },
            None => {
                return true;
            },
        }
    }
}

/// `ok` says of every text what `params_prefix_ok` answers.
pub open spec fn answers<F: Fn(&str) -> bool>(
    params_prefix_ok: F,
    ok: spec_fn(Seq<char>) -> bool,
) -> bool {
    forall|t: &str, b: bool| #[trigger]
        call_ensures(params_prefix_ok, (t,), b) ==> b == ok(t@)
}

/// The byte offset of the first occurrence of `close` of which `params_prefix_ok` accepts what
/// stands before it. The contract speaks of every predicate that describes the answers.
pub fn find_structural_close(
    haystack: &str,
    close: &str,
    params_prefix_ok: impl Fn(&str) -> bool,
) -> (r: Option<usize>)
    requires
        close@.len() > 0 || forall|t: &str, b: bool| #[trigger]
            call_ensures(params_prefix_ok, (t,), b) && t@.len() == 0 ==> b,
        forall|t: &str| call_requires(params_prefix_ok, (t,)),
    ensures
        forall|ok: spec_fn(Seq<char>) -> bool|
            #![trigger answers(params_prefix_ok, ok)]
            answers(params_prefix_ok, ok) ==> offset_for(
                r,
                haystack@,
                structural_close(haystack@, close@, ok, 0),
            ),
{
    if close.is_empty() {
        proof {
            reveal_strlit("");
            assert(haystack@.take(0) =~= ""@);
            assert(""@ =~= Seq::<char>::empty());
        }
        if params_prefix_ok("") {
            return Some(0);
        }
        return None;
    }
    let mut rest = haystack;
    let ghost mut from: int = 0;
    assert(haystack@.skip(0) =~= haystack@);
    loop
        invariant
            close@.len() > 0,
            forall|t: &str| call_requires(params_prefix_ok, (t,)),
            0 <= from <= haystack@.len(),
            rest@ == haystack@.skip(from),
            forall|ok: spec_fn(Seq<char>) -> bool|
                #![trigger answers(params_prefix_ok, ok)]
                answers(params_prefix_ok, ok) ==> structural_close(haystack@, close@, ok, 0)
                    == structural_close(haystack@, close@, ok, from),
        decreases rest@.len(),
    {
        match cut(rest, close) {
            Some((at, _, after)) => {
                let ghost i = first_occurrence(rest@, close@)->0;
                assert(haystack@.skip(from).skip(i) =~= haystack@.skip(from + i));
                let abs = offset_of_rest(
                    haystack,
                    split(rest, at, Ghost(i)).1,
                    Ghost(from + i),
                );
                let prefix = split(haystack, abs, Ghost(from + i)).0;
                if params_prefix_ok(prefix) {
                    return Some(abs);
                }
                proof {
                    assert(after@ =~= haystack@.skip(from + i + close@.len()));
                    from = from + i + close@.len();
                }
                rest = after;
            },
            None => {
                return None;
            },
        }
    }
}

/// The byte offset of the first `</invoke>` in `buffer` before which every parameter is closed.
pub fn find_structural_invoke_end(buffer: &str) -> (r: Option<usize>)
    ensures
        offset_for(r, buffer@, invoke_end(buffer@)),
{
    proof {
        reveal_strlit("</invoke>");
        assert(answers(parameters_fully_closed, |t: Seq<char>| fully_closed(t)));
    }
    find_structural_close(buffer, INVOKE_CLOSE, parameters_fully_closed)
}

/// The byte offset of the last `</invoke>` in `text` before which every parameter is closed.
pub fn find_last_invoke_end(text: &str) -> (r: Option<usize>)
    ensures
        offset_for(r, text@, last_close(text@)),
{
    proof {
        reveal_strlit("</invoke>");
    }
    let mut rest = text;
    let ghost mut n: int = text@.len() as int;
    assert(text@.take(n) =~= text@);
    loop
        invariant
            0 <= n <= text@.len(),
            rest@ == text@.take(n),
            INVOKE_CLOSE@.len() > 0,
            last_close(text@) == last_close(rest@),
        decreases rest@.len(),
    {
        match rcut(rest, INVOKE_CLOSE) {
            Some((at, head, _)) => {
                let ghost i = last_occurrence(rest@, INVOKE_CLOSE@)->0;
                proof {
                    assert(rest@.take(i) =~= text@.take(i));
                }
                if parameters_fully_closed(head) {
                    return Some(at);
                }
                rest = head;
                proof {
                    n = i;
                }
            },
            None => {
                return None;
            },
        }
    }
}

/// The byte offset of the `</invoke>` that ends the call whose opening tag stands before
/// `buffer`, the text of a stream.
pub fn find_call_end(buffer: &str) -> (r: Option<usize>)
    ensures
        offset_for(r, buffer@, call_end(buffer@)),
        call_end(buffer@) matches Some(c) ==> occurs_at(buffer@, INVOKE_CLOSE@, c),
{
    proof {
        reveal_strlit("</invoke>");
        reveal_strlit("</minimax:tool_call>");
        reveal_strlit("<invoke");
        lemma_call_end(buffer@);
    }
    match find_structural_invoke_end(buffer) {
        Some(at) => {
            let ghost c = invoke_end(buffer@)->0;
            let ghost from = c + INVOKE_CLOSE@.len();
            proof {
                lemma_structural_close_bounds(
                    buffer@,
                    INVOKE_CLOSE@,
                    |t: Seq<char>| fully_closed(t),
                    0,
                );
                lemma_occurrence_encodes(buffer@, INVOKE_CLOSE@, c);
            }
            let total = byte_len(buffer);
            let behind = at + byte_len(INVOKE_CLOSE);
            let after = split(buffer, behind, Ghost(from)).1;
            let group = match cut(after, TOOL_CALL_CLOSE) {
                Some((_, head, _)) => head,
                None => after,
            };
            let region = region_before(group, "<invoke");
            let ghost n = region@.len() as int;
            proof {
                lemma_before_next(after@);
                lemma_byte_offset_skip(buffer@, from, n);
                lemma_encode_split(buffer@, from + n);
                assert(after@.take(n) =~= region@);
            }
            let prefix = split(buffer, behind + byte_len(region), Ghost(from + n)).0;
            let r = find_last_invoke_end(prefix);
            proof {
                lemma_last_close(prefix@);
                if let Some(e) = last_close(prefix@) {
                    assert(prefix@.take(e) =~= buffer@.take(e));
                }
            }
            r
        },
        None => None,
    }
}

/// The first complete opening tag of a call: its name, and the byte offset past it.
pub fn try_parse_invoke_open(buffer: &str) -> (r: Option<(String, usize)>)
    ensures
        match r {
            Some((name, end)) => {
                &&& named_open(buffer@, "<invoke"@) matches Some((n, k))
                &&& name@ == n
                &&& 0 < k <= buffer@.len()
                &&& end == byte_offset(buffer@, k)
            },
            None => named_open(buffer@, "<invoke"@) is None,
        },
{
    proof {
        reveal_strlit("<invoke");
        reveal_strlit("<");
        reveal_strlit("invoke");
        assert("<"@ + "invoke"@ =~= "<invoke"@);
    }
    find_named_open(buffer, "invoke")
}

/// The texts of some blocks.
pub open spec fn block_texts(blocks: Seq<(String, &str)>) -> Seq<(Seq<char>, Seq<char>)> {
    Seq::new(blocks.len(), |i: int| (blocks[i].0@, blocks[i].1@))
}

/// The calls in `block`, each with its name and the markup of its parameters, up to one that
/// is not closed.
pub fn iter_invoke_blocks(block: &str) -> (r: Vec<(String, &str)>)
    ensures
        block_texts(r@) == invoke_blocks(block@),
{
    proof {
        reveal_strlit("<invoke");
        reveal_strlit("</invoke>");
    }
    let mut out: Vec<(String, &str)> = Vec::new();
    let mut cursor = block;
    assert(block_texts(out@) + invoke_blocks(cursor@) =~= invoke_blocks(block@));
    loop
        invariant
            block_texts(out@) + invoke_blocks(cursor@) == invoke_blocks(block@),
            "<invoke"@.len() > 0,
            "<invoke"@[0] <= '\u{7f}',
            INVOKE_CLOSE@.len() > 0,
        decreases cursor@.len(),
    {
        match read_named_open(cursor, "<invoke") {
            Some((name, after)) => {
                let region = region_before(after, "<invoke");
                match find_last_invoke_end(region) {
                    Some(at) => {
                        let ghost c = last_close(region@)->0;
                        proof {
                            lemma_before_sibling_bounds(after@, "<invoke"@);
                            lemma_last_close(region@);
                            lemma_occurrence_encodes(region@, INVOKE_CLOSE@, c);
                            assert(region@.take(c + INVOKE_CLOSE@.len()) =~= after@.take(
                                c + INVOKE_CLOSE@.len(),
                            ));
                        }
                        let bound = byte_len(region);
                        let params_text = split(region, at, Ghost(c)).0;
                        let rest = split(
                            after,
                            at + byte_len(INVOKE_CLOSE),
                            Ghost(c + INVOKE_CLOSE@.len()),
                        ).1;
                        let ghost before = out@;
                        let ghost entry = (name@, params_text@);
                        out.push((name, params_text));
                        assert(block_texts(out@) =~= block_texts(before).push(entry));
                        assert(block_texts(out@) + invoke_blocks(rest@) =~= block_texts(before) + (
                        seq![entry] + invoke_blocks(rest@)));
                        cursor = rest;
                    },
                    None => {
                        assert(block_texts(out@) + seq![] =~= block_texts(out@));
                        return out;
                    },
                }
            },
            None => {
                assert(block_texts(out@) + seq![] =~= block_texts(out@));
                return out;
            },
        }
    }
}

/// The groups of calls in `text`, each with the byte offset at which it begins. A group reaches
/// from its opening tag to the last closing tag before the next group.
pub fn iter_tool_call_blocks(text: &str) -> (r: Vec<(usize, &str)>)
    ensures
        r@.len() == blocks(text@, TOOL_CALL_OPEN@, TOOL_CALL_CLOSE@).len(),
        forall|i: int|
            0 <= i < r@.len() ==> {
                &&& (#[trigger] r@[i]).0 == byte_offset(
                    text@,
                    spans(text@, TOOL_CALL_OPEN@, TOOL_CALL_CLOSE@, 0)[i].0,
                )
                &&& r@[i].1@ == blocks(text@, TOOL_CALL_OPEN@, TOOL_CALL_CLOSE@)[i]
            },
{
    proof {
        reveal_strlit("<minimax:tool_call>");
        reveal_strlit("</minimax:tool_call>");
    }
    find_blocks(text, TOOL_CALL_OPEN, TOOL_CALL_CLOSE)
}

} // verus!
