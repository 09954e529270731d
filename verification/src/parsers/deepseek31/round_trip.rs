//! What is written in the format of DeepSeek V3.1 is read back.
use super::outside::{
    first_outside, is_first_outside, lemma_first_outside, lemma_first_outside_is, place,
    stands_outside, Place,
};
use super::pattern::partial_call;
use super::{
    as_object, call_after, call_end, calls_in, complete, lemma_parts_bounds, parts, TOOL_CALLS_BEGIN, TOOL_CALL_BEGIN,
    TOOL_CALL_END, TOOL_SEP,
};
use crate::json::{json_text, parsed_json};
use crate::text::concat::{
    lemma_contains_behind_tag, lemma_contains_concat, lemma_first_behind, lemma_last_concat,
    lemma_occurs_concat, lemma_pattern_then, lone_head,
};
use crate::text::edit::trimmed;
use crate::text::search::{contains, first_occurrence, lemma_first_occurrence};
use crate::types::CallModel;
use vstd::prelude::*;

verus! {

/// A call, by its name and the JSON text of its arguments.
pub struct DeepSeekCall {
    pub name: Seq<char>,
    pub arguments: Seq<char>,
}

/// A call, as the format writes it, with the text that follows it.
pub open spec fn written_call(call: DeepSeekCall, rest: Seq<char>) -> Seq<char> {
    TOOL_CALL_BEGIN@ + (call.name + (TOOL_SEP@ + (call.arguments + (TOOL_CALL_END@ + rest))))
}

/// Some calls, each with the text that follows it.
pub open spec fn written_calls(items: Seq<(DeepSeekCall, Seq<char>)>) -> Seq<char>
    decreases items.len(),
{
    if items.len() == 0 {
        seq![]
    } else {
        written_call(items[0].0, items[0].1 + written_calls(items.skip(1)))
    }
}

/// The call can be told from the tokens round it: its arguments are complete JSON text, and the
/// token that closes a call stands in their strings alone.
pub open spec fn clear_call(call: DeepSeekCall) -> bool {
    &&& trimmed(call.name).len() > 0
    &&& !contains(call.name, TOOL_SEP@)
    &&& place(call.arguments) == Place::Outside
    &&& first_outside(call.arguments, TOOL_CALL_END@) is None
    &&& parsed_json(trimmed(call.arguments)) is Ok
}

/// The calls can be told from each other and from the text between them.
pub open spec fn clear_calls(items: Seq<(DeepSeekCall, Seq<char>)>) -> bool {
    forall|i: int|
        0 <= i < items.len() ==> clear_call((#[trigger] items[i]).0) && !contains(
            items[i].1,
            TOOL_CALL_BEGIN@,
        )
}

/// The call as it is given to the caller, without the white space around its name.
pub open spec fn call_model(call: DeepSeekCall) -> CallModel {
    CallModel {
        name: trimmed(call.name),
        arguments: json_text(as_object(parsed_json(trimmed(call.arguments))->Ok_0)),
    }
}

/// The calls as they are given to the caller.
pub open spec fn calls_models(items: Seq<(DeepSeekCall, Seq<char>)>) -> Seq<CallModel> {
    Seq::new(items.len(), |i: int| call_model(items[i].0))
}

/// What the tokens begin with, and where they differ.
pub proof fn lemma_token_heads()
    ensures
        lone_head(TOOL_CALLS_BEGIN@),
        lone_head(TOOL_CALL_BEGIN@),
        lone_head(TOOL_SEP@),
        lone_head(TOOL_CALL_END@),
        TOOL_CALLS_BEGIN@[0] == '<',
        TOOL_CALL_BEGIN@[0] == '<',
        TOOL_SEP@[0] == '<',
        TOOL_CALL_END@[0] == '<',
        TOOL_CALLS_BEGIN@.len() > 11,
        TOOL_CALL_BEGIN@.len() > 11,
        TOOL_CALLS_BEGIN@[11] != TOOL_CALL_BEGIN@[11],
{
    reveal_strlit("<｜tool▁calls▁begin｜>");
    reveal_strlit("<｜tool▁call▁begin｜>");
    reveal_strlit("<｜tool▁sep｜>");
    reveal_strlit("<｜tool▁call▁end｜>");
}

/// A token that stands in the strings of a complete JSON text alone first stands outside of
/// them behind the text.
pub proof fn lemma_outside_behind(s: Seq<char>, token: Seq<char>, rest: Seq<char>)
    requires
        lone_head(token),
        token[0] != '"',
        place(s) == Place::Outside,
        first_outside(s, token) is None,
    ensures
        first_outside(s + (token + rest), token) == Some(s.len() as int),
{
    let u = token + rest;
    let t = s + u;
    let n = s.len() as int;
    lemma_first_outside(s, token);
    assert(u[0] == token[0]);
    assert(t.take(n) =~= s);
    assert(t.subrange(n, n + token.len()) =~= token);
    assert forall|j: int| 0 <= j < n implies !#[trigger] stands_outside(t, token, j) by {
        if stands_outside(t, token, j) {
            lemma_occurs_concat(s, u, token, j);
            assert(t.take(j) =~= s.take(j));
            assert(stands_outside(s, token, j));
        }
    }
    assert(is_first_outside(t, token, n));
    lemma_first_outside_is(t, token, n);
}

/// A call is read back as it was written. Tokens in the strings of its arguments are kept.
pub proof fn lemma_call_round_trip(call: DeepSeekCall, rest: Seq<char>)
    requires
        clear_call(call),
    ensures
        ({
            let text = written_call(call, rest);
            let after = text.skip(TOOL_CALL_BEGIN@.len() as int);
            &&& first_occurrence(text, TOOL_CALL_BEGIN@) == Some(0int)
            &&& call_after(after) matches Ok((model, end))
            &&& model == call_model(call)
            &&& after.skip(end) == rest
        }),
{
    lemma_token_heads();
    let text = written_call(call, rest);
    let tail = TOOL_CALL_END@ + rest;
    let arguments = call.arguments + tail;
    let after = call.name + (TOOL_SEP@ + arguments);
    assert(text =~= Seq::<char>::empty() + text);
    lemma_first_behind(Seq::empty(), TOOL_CALL_BEGIN@, after);
    assert(text.skip(TOOL_CALL_BEGIN@.len() as int) =~= after);
    lemma_first_behind(call.name, TOOL_SEP@, arguments);
    let i = call.name.len() as int;
    assert(after.take(i) =~= call.name);
    assert(after.skip(i + TOOL_SEP@.len()) =~= arguments);
    lemma_outside_behind(call.arguments, TOOL_CALL_END@, rest);
    let e = call.arguments.len() as int;
    assert(arguments.take(e) =~= call.arguments);
    let end = i + TOOL_SEP@.len() + e + TOOL_CALL_END@.len();
    assert(parts(after) == Some((call.name, call.arguments, end)));
    assert(after.skip(end) =~= rest);
}

/// The end of a call is found behind its arguments, whatever tokens stand in their strings.
pub proof fn lemma_call_end(lead: Seq<char>, call: DeepSeekCall, rest: Seq<char>)
    requires
        !contains(lead, TOOL_CALL_BEGIN@),
        clear_call(call),
    ensures
        call_end(lead + written_call(call, rest)) matches Some(end) && (lead + written_call(
            call,
            rest,
        )).skip(end) == rest,
{
    lemma_token_heads();
    let written = written_call(call, rest);
    let text = lead + written;
    let n = TOOL_CALL_BEGIN@.len() as int;
    lemma_call_round_trip(call, rest);
    assert(written =~= TOOL_CALL_BEGIN@ + written.skip(n));
    lemma_first_behind(lead, TOOL_CALL_BEGIN@, written.skip(n));
    let after = written.skip(n);
    assert(text.skip(lead.len() as int + n) =~= after);
    assert(parts(after) is Some);
    lemma_parts_bounds(after);
    assert(text.skip(call_end(text)->0) =~= after.skip((parts(after)->0).2));
}

/// The name and the arguments of a call that is being written are found, as long as no
/// separator stands in the arguments.
pub proof fn lemma_partial_call(
    lead: Seq<char>,
    name: Seq<char>,
    arguments: Seq<char>,
)
    requires
        !contains(lead, TOOL_CALL_BEGIN@),
        !contains(arguments, TOOL_SEP@),
    ensures
        partial_call(lead + (TOOL_CALL_BEGIN@ + (name + (TOOL_SEP@ + arguments)))) == Some(
            (name, arguments),
        ),
{
    lemma_token_heads();
    let tail = TOOL_SEP@ + arguments;
    let after = name + tail;
    let text = lead + (TOOL_CALL_BEGIN@ + after);
    lemma_first_behind(lead, TOOL_CALL_BEGIN@, after);
    assert(text.skip(lead.len() as int + TOOL_CALL_BEGIN@.len()) =~= after);
    assert(tail[0] == '<');
    lemma_pattern_then(TOOL_SEP@, arguments);
    lemma_last_concat(name, tail, TOOL_SEP@);
    assert(after.take(name.len() as int) =~= name);
    assert(after.skip(name.len() as int + TOOL_SEP@.len()) =~= arguments);
}

/// The calls in a text are those that were written in it.
proof fn lemma_calls_written(lead: Seq<char>, items: Seq<(DeepSeekCall, Seq<char>)>)
    requires
        !contains(lead, TOOL_CALL_BEGIN@),
        clear_calls(items),
    ensures
        calls_in(lead + written_calls(items)) == calls_models(items),
    decreases items.len(),
{
    lemma_token_heads();
    let text = lead + written_calls(items);
    if items.len() == 0 {
        assert(text =~= lead);
        lemma_first_occurrence(lead, TOOL_CALL_BEGIN@);
        assert(calls_models(items) =~= seq![]);
    } else {
        let (call, gap) = items[0];
        let more = items.skip(1);
        let rest = gap + written_calls(more);
        let written = written_call(call, rest);
        assert(clear_call(items[0].0));
        lemma_call_round_trip(call, rest);
        lemma_first_behind(
            lead,
            TOOL_CALL_BEGIN@,
            written.skip(TOOL_CALL_BEGIN@.len() as int),
        );
        assert(written =~= TOOL_CALL_BEGIN@ + written.skip(TOOL_CALL_BEGIN@.len() as int));
        assert(text.skip(lead.len() as int + TOOL_CALL_BEGIN@.len()) =~= written.skip(
            TOOL_CALL_BEGIN@.len() as int,
        ));
        assert forall|i: int| 0 <= i < more.len() implies clear_call((#[trigger] more[i]).0)
            && !contains(more[i].1, TOOL_CALL_BEGIN@) by {
            assert(more[i] == items[i + 1]);
        }
        lemma_calls_written(gap, more);
        assert(calls_models(items) =~= seq![call_model(call)] + calls_models(more));
    }
}

/// A text with calls is read back as it was written: the text before the calls, and the calls
/// in their order. What stands between the calls is passed over.
pub proof fn lemma_round_trip(lead: Seq<char>, items: Seq<(DeepSeekCall, Seq<char>)>)
    requires
        !contains(lead, TOOL_CALLS_BEGIN@),
        !contains(lead, TOOL_CALL_BEGIN@),
        clear_calls(items),
        items.len() > 0,
    ensures
        complete(lead + (TOOL_CALLS_BEGIN@ + written_calls(items))) == (lead, calls_models(items)),
{
    lemma_token_heads();
    let text = lead + (TOOL_CALLS_BEGIN@ + written_calls(items));
    let head = lead + TOOL_CALLS_BEGIN@;
    assert(!contains(head, TOOL_CALL_BEGIN@)) by {
        let none = Seq::<char>::empty();
        assert(TOOL_CALLS_BEGIN@ + none =~= TOOL_CALLS_BEGIN@);
        lemma_contains_behind_tag(TOOL_CALLS_BEGIN@, none, TOOL_CALL_BEGIN@, 11);
        assert(!contains(none, TOOL_CALL_BEGIN@));
        lemma_contains_concat(lead, TOOL_CALLS_BEGIN@, TOOL_CALL_BEGIN@);
    }
    lemma_calls_written(head, items);
    assert(text =~= head + written_calls(items));
    lemma_first_behind(lead, TOOL_CALLS_BEGIN@, written_calls(items));
    assert(text.take(lead.len() as int) =~= lead);
}

/// A text without the token that opens the calls is given back as it is, without calls.
pub proof fn lemma_no_marker(text: Seq<char>)
    requires
        !contains(text, TOOL_CALLS_BEGIN@),
    ensures
        complete(text) == (text, Seq::<CallModel>::empty()),
{
    lemma_first_occurrence(text, TOOL_CALLS_BEGIN@);
}

} // verus!
