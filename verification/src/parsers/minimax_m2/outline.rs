//! Where the parts of a text of MiniMax M2 begin and end.
use super::markup::{
    before_sibling, fully_closed, invoke_blocks, is_first_named_open, last_close,
    lemma_named_open_is, name_attribute, named_open, named_open_at, open_position, parameter_pairs,
    structural_close, tag_rest, INVOKE_CLOSE, PARAM_CLOSE, TOOL_CALL_CLOSE, TOOL_CALL_OPEN,
};
use super::params::{collected, has_key, put, Params};
use super::round_trip::{
    clear_name, lemma_disjoint, lemma_named_open_tag, lemma_no_named_open, lemma_tags, tag,
};
use super::{block_calls, complete, first_valid, groups, groups_calls};
use crate::json::JsonModel;
use crate::parsers::spans::{
    before_open, lemma_before_open_bounds, lemma_spans_open, lemma_spans_ordered, lemma_spans_shift,
    lemma_spans_tail, lemma_spans_unclosed, spans,
};
use crate::text::concat::{lemma_first_behind, lemma_no_head, lemma_take_free, lone_head};
use crate::text::edit::whitespace;
use crate::text::search::{
    contains, first_occurrence, last_occurrence, lemma_first_in_rest, lemma_first_occurrence,
    lemma_last_occurrence, occurs_at,
};
use crate::types::{CallModel, Tool};
use vstd::prelude::*;

verus! {

/// An opening tag has the name that its attribute `name` gives, whatever other attributes stand
/// before it and behind it.
pub proof fn lemma_tag_attributes(
    lead: Seq<char>,
    open: Seq<char>,
    before: Seq<char>,
    name: Seq<char>,
    after: Seq<char>,
    tail: Seq<char>,
)
    requires
        lone_head(open),
        !contains(lead, open),
        before.len() > 0,
        whitespace(before[0]),
        !contains(before, "name=\""@),
        forall|j: int| 0 <= j < before.len() ==> #[trigger] before[j] != '>',
        forall|j: int| 0 <= j < name.len() ==> #[trigger] name[j] != '>' && name[j] != '"',
        forall|j: int| 0 <= j < after.len() ==> #[trigger] after[j] != '>',
    ensures
        ({
            let attributes = before + ("name=\""@ + (name + ("\""@ + after)));
            let s = lead + (open + (attributes + (">"@ + tail)));
            named_open(s, open) == Some(
                (name, (lead.len() + open.len() + attributes.len() + 1) as int),
            )
        }),
{
    reveal_strlit("name=\"");
    reveal_strlit("\"");
    reveal_strlit(">");
    let quoted = name + ("\""@ + after);
    let attributes = before + ("name=\""@ + quoted);
    let rest = attributes + (">"@ + tail);
    let s = lead + (open + rest);
    let i = lead.len() as int;
    lemma_first_behind(lead, open, rest);
    lemma_first_occurrence(s, open);
    assert(s.skip(i + open.len()) =~= rest);
    assert(lone_head("name=\""@));
    assert forall|j: int| 0 <= j < attributes.len() implies #[trigger] attributes[j] != ">"@[0] by {
        let a = j - before.len() - 6;
        if j < before.len() {
            assert(attributes[j] == before[j]);
        } else if 0 <= a < name.len() {
            assert(attributes[j] == name[a]);
        } else if a > name.len() {
            assert(attributes[j] == after[a - name.len() - 1]);
        }
    }
    lemma_no_head(attributes, ">"@);
    lemma_first_behind(attributes, ">"@, tail);
    assert(rest.take(attributes.len() as int) =~= attributes);
    lemma_first_behind(before, "name=\""@, quoted);
    assert(attributes.skip(before.len() as int + 6) =~= quoted);
    assert forall|j: int| 0 <= j < name.len() implies #[trigger] name[j] != "\""@[0] by {}
    lemma_no_head(name, "\""@);
    lemma_first_behind(name, "\""@, after);
    assert(quoted.take(name.len() as int) =~= name);
    assert(name_attribute(attributes) == Some(name));
    assert(rest[0] == before[0]);
    assert(tag_rest(rest) == Some((name, attributes.len() as int + 1)));
    assert(is_first_named_open(s, open, i)) by {
        assert forall|j: int| 0 <= j < i implies (#[trigger] named_open_at(s, open, j)) is None by {
            assert(!occurs_at(s, open, j));
        }
    }
    lemma_named_open_is(s, open, i);
}

/// What begins like a tag but goes on with another character than white space or `>` is none, nor
/// is a tag without the attribute `name`.
pub proof fn lemma_no_tag(lead: Seq<char>, open: Seq<char>, rest: Seq<char>)
    ensures
        rest.len() > 0 && !whitespace(rest[0]) && rest[0] != '>' ==> named_open_at(
            lead + (open + rest),
            open,
            lead.len() as int,
        ) is None,
        !contains(rest, "name=\""@) ==> named_open_at(
            lead + (open + rest),
            open,
            lead.len() as int,
        ) is None,
        (forall|j: int| 0 <= j < rest.len() ==> #[trigger] rest[j] != '>') ==> named_open_at(
            lead + (open + rest),
            open,
            lead.len() as int,
        ) is None,
{
    reveal_strlit(">");
    let s = lead + (open + rest);
    assert(s.skip(lead.len() as int + open.len()) =~= rest);
    lemma_first_occurrence(rest, ">"@);
    if let Some(gt) = first_occurrence(rest, ">"@) {
        assert(rest.subrange(gt, gt + 1)[0] == rest[gt]);
        if !contains(rest, "name=\""@) {
            lemma_take_free(rest, "name=\""@, gt);
            lemma_first_occurrence(rest.take(gt), "name=\""@);
        }
    }
}

/// A structural close is the first occurrence of the closing tag that is not refused.
pub proof fn lemma_structural_close_first(
    s: Seq<char>,
    close: Seq<char>,
    ok: spec_fn(Seq<char>) -> bool,
    from: int,
)
    requires
        lone_head(close),
        0 <= from <= s.len(),
    ensures
        match structural_close(s, close, ok, from) {
            Some(c) => {
                &&& from <= c
                &&& occurs_at(s, close, c)
                &&& ok(s.take(c))
                &&& forall|j: int|
                    from <= j < c && #[trigger] occurs_at(s, close, j) ==> !ok(s.take(j))
            },
            None => forall|j: int|
                from <= j && #[trigger] occurs_at(s, close, j) ==> !ok(s.take(j)),
        },
    decreases s.len() - from,
{
    lemma_first_in_rest(s, close, from);
    lemma_first_occurrence(s.skip(from), close);
    if let Some(i) = first_occurrence(s.skip(from), close) {
        let at = from + i;
        if !ok(s.take(at)) {
            let next = at + close.len();
            lemma_structural_close_first(s, close, ok, next);
            assert forall|j: int| from <= j < next && #[trigger] occurs_at(s, close, j) implies !ok(
                s.take(j),
            ) by {
                if j > at {
                    lemma_disjoint(s, close, at, j);
                }
            }
        }
    }
}

/// A call ends at the last of its closing tags before which all parameters are closed.
pub proof fn lemma_last_close_last(s: Seq<char>)
    ensures
        match last_close(s) {
            Some(c) => {
                &&& occurs_at(s, INVOKE_CLOSE@, c)
                &&& fully_closed(s.take(c))
                &&& forall|j: int|
                    c < j && #[trigger] occurs_at(s, INVOKE_CLOSE@, j) ==> !fully_closed(s.take(j))
            },
            None => forall|j: int| #[trigger]
                occurs_at(s, INVOKE_CLOSE@, j) ==> !fully_closed(s.take(j)),
        },
    decreases s.len(),
{
    reveal_strlit("</invoke>");
    let close = INVOKE_CLOSE@;
    assert(lone_head(close));
    lemma_last_occurrence(s, close);
    if let Some(i) = last_occurrence(s, close) {
        if !fully_closed(s.take(i)) {
            let head = s.take(i);
            lemma_last_close_last(head);
            if let Some(c) = last_close(head) {
                assert(s.subrange(c, c + close.len()) =~= head.subrange(c, c + close.len()));
                assert(s.take(c) =~= head.take(c));
            }
            assert forall|j: int| j < i && #[trigger] occurs_at(s, close, j) implies occurs_at(
                head,
                close,
                j,
            ) && head.take(j) == s.take(j) by {
                lemma_disjoint(s, close, j, i);
                assert(s.subrange(j, j + close.len()) =~= head.subrange(j, j + close.len()));
                assert(head.take(j) =~= s.take(j));
            }
        }
    }
}

/// A parameter whose name is new comes last; of one that is known, the value changes in its place.
pub proof fn lemma_collected_next(pairs: Params, key: Seq<char>, value: JsonModel)
    ensures
        ({
            let before = collected(pairs);
            let all = collected(pairs.push((key, value)));
            let known = exists|i: int| 0 <= i < pairs.len() && (#[trigger] pairs[i]).0 == key;
            &&& !known ==> all == before.push((key, value))
            &&& known ==> {
                &&& all.len() == before.len()
                &&& forall|i: int|
                    0 <= i < all.len() ==> {
                        &&& (#[trigger] all[i]).0 == before[i].0
                        &&& all[i].0 == key ==> all[i].1 == value
                        &&& all[i].0 != key ==> all[i].1 == before[i].1
                    }
            }
        }),
{
    let all = pairs.push((key, value));
    assert(all.drop_last() =~= pairs);
    lemma_collected_keys(pairs, key);
}

proof fn lemma_collected_keys(pairs: Params, key: Seq<char>)
    ensures
        has_key(collected(pairs), key) <==> exists|i: int|
            0 <= i < pairs.len() && (#[trigger] pairs[i]).0 == key,
    decreases pairs.len(),
{
    if pairs.len() > 0 {
        let before = pairs.drop_last();
        let known = collected(before);
        let last = pairs.last();
        lemma_collected_keys(before, key);
        let all = put(known, last.0, last.1);
        if has_key(known, key) {
            let i = choose|i: int| 0 <= i < known.len() && (#[trigger] known[i]).0 == key;
            assert(all[i].0 == key);
            let j = choose|j: int| 0 <= j < before.len() && (#[trigger] before[j]).0 == key;
            assert(pairs[j].0 == key);
        }
        if last.0 == key {
            assert(pairs[pairs.len() - 1].0 == key);
            if !has_key(known, key) {
                assert(all[known.len() as int].0 == key);
            }
        }
        if has_key(all, key) && last.0 != key {
            let i = choose|i: int| 0 <= i < all.len() && (#[trigger] all[i]).0 == key;
            assert(known[i].0 == key);
        }
        if exists|i: int| 0 <= i < pairs.len() && (#[trigger] pairs[i]).0 == key {
            let i = choose|i: int| 0 <= i < pairs.len() && (#[trigger] pairs[i]).0 == key;
            if i < before.len() {
                assert(before[i].0 == key);
            }
        }
    }
}

/// The groups are read each by itself.
pub proof fn lemma_groups_apart(first: Seq<Seq<char>>, more: Seq<Seq<char>>, tools: Seq<Tool>)
    ensures
        groups_calls(first + more, tools) == groups_calls(first, tools) + groups_calls(more, tools),
    decreases more.len(),
{
    if more.len() == 0 {
        assert(first + more =~= first);
        assert(groups_calls(first, tools) + groups_calls(more, tools) =~= groups_calls(
            first,
            tools,
        ));
    } else {
        assert((first + more).drop_last() =~= first + more.drop_last());
        lemma_groups_apart(first, more.drop_last(), tools);
        assert(groups_calls(first + more, tools) =~= groups_calls(first, tools) + groups_calls(
            more,
            tools,
        ));
    }
}

proof fn lemma_empty_groups(groups: Seq<Seq<char>>, tools: Seq<Tool>)
    requires
        forall|i: int| 0 <= i < groups.len() ==> invoke_blocks(#[trigger] groups[i]).len() == 0,
    ensures
        groups_calls(groups, tools).len() == 0,
    decreases groups.len(),
{
    if groups.len() > 0 {
        let before = groups.drop_last();
        assert forall|i: int| 0 <= i < before.len() implies invoke_blocks(
            #[trigger] before[i],
        ).len() == 0 by {
            assert(before[i] == groups[i]);
        }
        lemma_empty_groups(before, tools);
        assert(invoke_blocks(groups[groups.len() - 1]).len() == 0);
    }
}

/// The first group with a call.
proof fn lemma_first_valid(text: Seq<char>, i: int) -> (k: int)
    requires
        0 <= i,
    ensures
        match first_valid(text, i) {
            Some(pos) => {
                &&& i <= k < groups(text).len()
                &&& pos == spans(text, TOOL_CALL_OPEN@, TOOL_CALL_CLOSE@, 0)[k].0
                &&& invoke_blocks(groups(text)[k]).len() > 0
                &&& forall|j: int|
                    i <= j < k ==> invoke_blocks(#[trigger] groups(text)[j]).len() == 0
            },
            None => forall|j: int|
                i <= j < groups(text).len() ==> invoke_blocks(#[trigger] groups(text)[j]).len()
                    == 0,
        },
    decreases groups(text).len() - i,
{
    if i >= groups(text).len() {
        i
    } else if invoke_blocks(groups(text)[i]).len() > 0 {
        i
    } else {
        lemma_first_valid(text, i + 1)
    }
}

/// The normal text of a complete text is all of it where there are no calls. Else it is what
/// stands before the first group with a call, as it is: what begins there has no normal text, and
/// the same calls.
pub proof fn lemma_normal_text(text: Seq<char>, tools: Seq<Tool>)
    ensures
        ({
            let (normal, calls) = complete(text, tools);
            &&& calls.len() == 0 ==> normal == text
            &&& calls.len() > 0 ==> {
                &&& normal == text.take(normal.len() as int)
                &&& occurs_at(text, TOOL_CALL_OPEN@, normal.len() as int)
                &&& complete(text.skip(normal.len() as int), tools) == (Seq::<char>::empty(), calls)
            }
        }),
{
    let open = TOOL_CALL_OPEN@;
    let close = TOOL_CALL_CLOSE@;
    let all = groups(text);
    let places = spans(text, open, close, 0);
    let k = lemma_first_valid(text, 0);
    lemma_spans_ordered(text, open, close, 0);
    lemma_spans_open(text, open, close, 0);
    if let Some(pos) = first_valid(text, 0) {
        let normal = text.take(pos);
        let rest = text.skip(pos);
        let left = groups(rest);
        let moved = spans(rest, open, close, 0);
        assert(places.len() == all.len());
        assert(0 <= places[k].0 <= text.len());
        lemma_spans_tail(text, open, close, 0, k);
        lemma_spans_shift(text, open, close, pos, 0);
        assert(places.skip(k).len() == moved.len());
        assert forall|i: int| 0 <= i < left.len() implies #[trigger] left[i] == all[k + i] by {
            assert(places.skip(k)[i] == places[k + i]);
            assert(places[k + i].0 == pos + moved[i].0 && places[k + i].1 == pos + moved[i].1);
            lemma_spans_ordered(rest, open, close, 0);
            assert(rest.subrange(moved[i].0, moved[i].1) =~= text.subrange(
                places[k + i].0,
                places[k + i].1,
            ));
        }
        let first = all.take(k);
        assert(all =~= first + left);
        lemma_groups_apart(first, left, tools);
        assert forall|i: int| 0 <= i < first.len() implies invoke_blocks(
            #[trigger] first[i],
        ).len() == 0 by {
            assert(first[i] == all[i]);
        }
        lemma_empty_groups(first, tools);
        assert(groups_calls(all, tools) =~= groups_calls(left, tools));
        assert(left[0] == all[k]);
        assert(moved[0].0 == 0) by {
            assert(places.skip(k)[0] == places[k]);
        }
        assert(first_valid(rest, 0) == Some(0int));
        assert(rest.take(0) =~= Seq::<char>::empty());
        lemma_some_calls(left, tools);
    }
}

proof fn lemma_some_calls(groups: Seq<Seq<char>>, tools: Seq<Tool>)
    requires
        groups.len() > 0,
        invoke_blocks(groups[0]).len() > 0,
    ensures
        groups_calls(groups, tools).len() > 0,
    decreases groups.len(),
{
    if groups.len() > 1 {
        lemma_some_calls(groups.drop_last(), tools);
    }
}

/// A group that is not closed holds no calls: the text is given back as it is.
pub proof fn lemma_unclosed(lead: Seq<char>, rest: Seq<char>, tools: Seq<Tool>)
    requires
        !contains(lead, TOOL_CALL_OPEN@),
        !contains(rest, TOOL_CALL_CLOSE@),
    ensures
        complete(lead + (TOOL_CALL_OPEN@ + rest), tools) == (
            lead + (TOOL_CALL_OPEN@ + rest),
            Seq::<CallModel>::empty(),
        ),
{
    reveal_strlit("<minimax:tool_call>");
    let open = TOOL_CALL_OPEN@;
    let text = lead + (open + rest);
    assert(lone_head(open));
    lemma_first_behind(lead, open, rest);
    assert(text.skip(0) =~= text);
    assert(text.skip(lead.len() as int + open.len()) =~= rest);
    let region = before_open(rest, open);
    lemma_before_open_bounds(rest, open);
    lemma_take_free(rest, TOOL_CALL_CLOSE@, region.len() as int);
    lemma_last_occurrence(region, TOOL_CALL_CLOSE@);
    assert(spans(text, open, TOOL_CALL_CLOSE@, 0).len() == 0);
}

/// A group that is not closed before the next hides what follows it: the text is given back as it
/// is.
pub proof fn lemma_unclosed_hides(
    lead: Seq<char>,
    inner: Seq<char>,
    more: Seq<char>,
    tools: Seq<Tool>,
)
    requires
        !contains(lead, TOOL_CALL_OPEN@),
        !contains(inner, TOOL_CALL_OPEN@),
        !contains(inner, TOOL_CALL_CLOSE@),
    ensures
        ({
            let text = lead + (TOOL_CALL_OPEN@ + (inner + (TOOL_CALL_OPEN@ + more)));
            complete(text, tools) == (text, Seq::<CallModel>::empty())
        }),
{
    reveal_strlit("<minimax:tool_call>");
    let open = TOOL_CALL_OPEN@;
    let rest = open + more;
    assert(lone_head(open));
    assert(rest.take(open.len() as int) =~= open);
    lemma_spans_unclosed(lead, inner, rest, open, TOOL_CALL_CLOSE@);
}

/// The place of the next tag: the first that looks like one, as soon as there is a complete one at
/// it or behind it.
pub proof fn lemma_open_position(s: Seq<char>, open: Seq<char>)
    ensures
        open_position(s, open) is Some <==> named_open(s, open) is Some,
        open_position(s, open) matches Some(i) ==> {
            &&& occurs_at(s, open, i)
            &&& forall|j: int| 0 <= j < i ==> !#[trigger] occurs_at(s, open, j)
        },
{
    lemma_first_occurrence(s, open);
    if named_open(s, open) is Some {
        if !contains(s, open) {
            lemma_no_named_open(s, open);
        }
    }
}

/// A block without the beginning of a call holds no calls.
pub proof fn lemma_block_without_calls(block: Seq<char>, tools: Seq<Tool>)
    requires
        !contains(block, "<invoke"@),
    ensures
        block_calls(block, tools).len() == 0,
{
    lemma_no_named_open(block, "<invoke"@);
}

/// What follows something: nothing, or the next opening tag.
pub open spec fn is_next(rest: Seq<char>, open: Seq<char>) -> bool {
    rest.len() == 0 || exists|name: Seq<char>, tail: Seq<char>|
        clear_name(name) && rest == #[trigger] (tag(open, name) + tail)
}

proof fn lemma_before_next_tag(region: Seq<char>, rest: Seq<char>, open: Seq<char>)
    requires
        lone_head(open),
        !contains(region, open),
        is_next(rest, open),
    ensures
        before_sibling(region + rest, open) == region,
{
    if rest.len() > 0 {
        let (name, tail) = choose|name: Seq<char>, tail: Seq<char>|
            clear_name(name) && rest == #[trigger] (tag(open, name) + tail);
        lemma_named_open_tag(region, open, name, tail);
        assert((region + rest).take(region.len() as int) =~= region);
    } else {
        assert(region + rest =~= region);
        lemma_no_named_open(region, open);
    }
}

/// The parameters end with the first that is not closed before the next, whatever follows it, and
/// then not every parameter is closed.
pub proof fn lemma_parameter_unclosed(
    lead: Seq<char>,
    key: Seq<char>,
    value: Seq<char>,
    rest: Seq<char>,
)
    requires
        !contains(lead, "<parameter"@),
        clear_name(key),
        !contains(value, "<parameter"@),
        !contains(value, PARAM_CLOSE@),
        is_next(rest, "<parameter"@),
    ensures
        parameter_pairs(lead + (tag("<parameter"@, key) + (value + rest))).len() == 0,
        !fully_closed(lead + (tag("<parameter"@, key) + (value + rest))),
        fully_closed(lead),
{
    lemma_tags();
    lemma_named_open_tag(lead, "<parameter"@, key, value + rest);
    lemma_before_next_tag(value, rest, "<parameter"@);
    lemma_last_occurrence(value, PARAM_CLOSE@);
    lemma_no_named_open(lead, "<parameter"@);
}

/// The calls of a group end with the first that is not closed before the next, whatever follows
/// it.
pub proof fn lemma_call_unclosed(
    lead: Seq<char>,
    name: Seq<char>,
    body: Seq<char>,
    rest: Seq<char>,
)
    requires
        !contains(lead, "<invoke"@),
        clear_name(name),
        !contains(body, "<invoke"@),
        !contains(body, INVOKE_CLOSE@),
        is_next(rest, "<invoke"@),
    ensures
        invoke_blocks(lead + (tag("<invoke"@, name) + (body + rest))).len() == 0,
{
    lemma_tags();
    lemma_named_open_tag(lead, "<invoke"@, name, body + rest);
    lemma_before_next_tag(body, rest, "<invoke"@);
    lemma_last_occurrence(body, INVOKE_CLOSE@);
}

} // verus!
