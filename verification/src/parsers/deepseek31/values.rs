//! What the calls of DeepSeek V3.1 carry, and what becomes of the text round them.
use super::outside::{first_outside, place, Place};
use super::pattern::partial_call;
use super::round_trip::{
    clear_call, clear_calls, lemma_call_round_trip, lemma_outside_behind, lemma_partial_call,
    lemma_round_trip, lemma_token_heads, written_call, written_calls, DeepSeekCall,
};
use super::stream::{
    clean_arguments, feed, lemma_strip_once, lemma_strip_token, lemma_trimmed_end,
    lemma_trimmed_end_of, prepared, strip_once, strip_token, stripped, DeepSeekState,
};
use super::streaming::{current_index, lemma_prepared, valid};
use super::{
    call_after, calls_in, complete, lemma_tokens, parts, EOS_TOKEN, TOOL_CALLS_BEGIN,
    TOOL_CALLS_END, TOOL_CALL_BEGIN, TOOL_CALL_END, TOOL_SEP,
};
use crate::json::{json_text, parsed_json, JsonModel};
use crate::parsers::helpers::{joined, sent_before};
use crate::text::concat::{lemma_contains_behind, lemma_first_behind, lemma_skip_free, lone_head};
use crate::text::edit::{
    blank, lemma_trimmed_end_is, replaced, trimmed, trimmed_end, trimmed_end_of, whitespace,
};
use crate::text::search::{
    contains, first_occurrence, is_first, lemma_first_is, lemma_first_occurrence,
    lemma_last_occurrence, occurs_at,
};
use crate::types::{CallModel, ItemModel, Tool, TrackedModel};
use vstd::prelude::*;

verus! {

/// The call that is given to the caller is the one that was written: its name, and the text of its
/// arguments as JSON writes them, which are an object, or stand alone in one as the member
/// `value`.
pub open spec fn is_call(model: CallModel, call: DeepSeekCall) -> bool {
    &&& model.name == trimmed(call.name)
    &&& parsed_json(trimmed(call.arguments)) matches Ok(read)
    &&& read is Object ==> model.arguments == json_text(read)
    &&& !(read is Object) ==> model.arguments == json_text(
        JsonModel::Object(Map::<Seq<char>, JsonModel>::empty().insert("value"@, read)),
    )
}

/// The calls of a complete text are those that were written in it, in their order, and the normal
/// text is what stands before them.
pub proof fn lemma_calls_carry(lead: Seq<char>, items: Seq<(DeepSeekCall, Seq<char>)>)
    requires
        !contains(lead, TOOL_CALLS_BEGIN@),
        !contains(lead, TOOL_CALL_BEGIN@),
        clear_calls(items),
        items.len() > 0,
    ensures
        complete(lead + (TOOL_CALLS_BEGIN@ + written_calls(items))).0 == lead,
        complete(lead + (TOOL_CALLS_BEGIN@ + written_calls(items))).1.len() == items.len(),
        forall|i: int|
            0 <= i < items.len() ==> is_call(
                #[trigger] complete(lead + (TOOL_CALLS_BEGIN@ + written_calls(items))).1[i],
                items[i].0,
            ),
{
    lemma_round_trip(lead, items);
    assert forall|i: int| 0 <= i < items.len() implies is_call(
        #[trigger] complete(lead + (TOOL_CALLS_BEGIN@ + written_calls(items))).1[i],
        items[i].0,
    ) by {
        assert(clear_call(items[i].0));
    }
}

/// A call counts wherever it stands in a text with the token that opens calls, also before that
/// token, and those behind it follow.
pub proof fn lemma_call_anywhere(lead: Seq<char>, call: DeepSeekCall, rest: Seq<char>)
    requires
        !contains(lead, TOOL_CALL_BEGIN@),
        clear_call(call),
        contains(lead + written_call(call, rest), TOOL_CALLS_BEGIN@),
    ensures
        ({
            let calls = complete(lead + written_call(call, rest)).1;
            &&& calls.len() > 0
            &&& is_call(calls[0], call)
            &&& calls.skip(1) == calls_in(rest)
        }),
{
    let text = lead + written_call(call, rest);
    let n = TOOL_CALL_BEGIN@.len() as int;
    let after = written_call(call, rest).skip(n);
    lemma_token_heads();
    lemma_call_round_trip(call, rest);
    assert(written_call(call, rest) =~= TOOL_CALL_BEGIN@ + after);
    lemma_first_behind(lead, TOOL_CALL_BEGIN@, after);
    assert(text.skip(lead.len() as int + n) =~= after);
    lemma_first_occurrence(text, TOOL_CALLS_BEGIN@);
    let calls = calls_in(text);
    assert(calls.skip(1) =~= calls_in(rest));
}

/// The normal text of a complete text is all of it where there are no calls, and else what stands
/// before the first token that opens calls, as it is.
pub proof fn lemma_normal_text(text: Seq<char>)
    ensures
        ({
            let (normal, calls) = complete(text);
            &&& calls.len() == 0 ==> normal == text
            &&& calls.len() > 0 ==> {
                &&& normal == text.take(normal.len() as int)
                &&& occurs_at(text, TOOL_CALLS_BEGIN@, normal.len() as int)
                &&& !contains(normal, TOOL_CALLS_BEGIN@)
            }
        }),
{
    lemma_tokens();
    lemma_first_occurrence(text, TOOL_CALLS_BEGIN@);
    let (normal, calls) = complete(text);
    if calls.len() > 0 {
        let n = TOOL_CALLS_BEGIN@.len();
        assert forall|j: int| !#[trigger] occurs_at(normal, TOOL_CALLS_BEGIN@, j) by {
            if occurs_at(normal, TOOL_CALLS_BEGIN@, j) {
                assert(text.subrange(j, j + n) =~= normal.subrange(j, j + n));
                assert(occurs_at(text, TOOL_CALLS_BEGIN@, j));
            }
        }
    }
}

/// Why there is no call behind its beginning: no separator, no name, no end, or no JSON.
pub proof fn lemma_no_call(name: Seq<char>, arguments: Seq<char>, rest: Seq<char>)
    requires
        !contains(name, TOOL_SEP@),
    ensures
        call_after(name) == Err::<(CallModel, int), _>("Failed to match tool call pattern"@),
        trimmed(name).len() == 0 ==> call_after(name + (TOOL_SEP@ + rest)) == Err::<
            (CallModel, int),
            _,
        >("Empty function name"@),
        trimmed(name).len() > 0 && first_outside(rest, TOOL_CALL_END@) is None ==> call_after(
            name + (TOOL_SEP@ + rest),
        ) == Err::<(CallModel, int), _>("Failed to match tool call pattern"@),
        trimmed(name).len() > 0 && place(arguments) == Place::Outside && first_outside(
            arguments,
            TOOL_CALL_END@,
        ) is None ==> (parsed_json(trimmed(arguments)) matches Err(message) ==> call_after(
            name + (TOOL_SEP@ + (arguments + (TOOL_CALL_END@ + rest))),
        ) == Err::<(CallModel, int), _>("Invalid JSON: "@ + message)),
{
    lemma_token_heads();
    lemma_first_occurrence(name, TOOL_SEP@);
    lemma_first_behind(name, TOOL_SEP@, rest);
    let n = name.len() as int;
    let short = name + (TOOL_SEP@ + rest);
    assert(short.take(n) =~= name);
    assert(short.skip(n + TOOL_SEP@.len()) =~= rest);
    if place(arguments) == Place::Outside && first_outside(arguments, TOOL_CALL_END@) is None {
        let tail = arguments + (TOOL_CALL_END@ + rest);
        let after = name + (TOOL_SEP@ + tail);
        lemma_first_behind(name, TOOL_SEP@, tail);
        assert(after.take(n) =~= name);
        assert(after.skip(n + TOOL_SEP@.len()) =~= tail);
        lemma_outside_behind(arguments, TOOL_CALL_END@, rest);
        assert(tail.take(arguments.len() as int) =~= arguments);
    }
}

/// What is no call is passed over: the calls are those that stand behind its beginning.
pub proof fn lemma_broken_passed_over(lead: Seq<char>, after: Seq<char>)
    requires
        !contains(lead, TOOL_CALL_BEGIN@),
        call_after(after) is Err,
    ensures
        calls_in(lead + (TOOL_CALL_BEGIN@ + after)) == calls_in(after),
{
    lemma_token_heads();
    lemma_first_behind(lead, TOOL_CALL_BEGIN@, after);
    assert((lead + (TOOL_CALL_BEGIN@ + after)).skip(lead.len() as int + TOOL_CALL_BEGIN@.len())
        =~= after);
}

/// None of the tokens that open or end something stands in the text.
pub open spec fn is_plain(text: Seq<char>) -> bool {
    &&& !contains(text, TOOL_CALLS_BEGIN@)
    &&& !contains(text, TOOL_CALL_BEGIN@)
    &&& !contains(text, TOOL_CALLS_END@)
    &&& !contains(text, TOOL_CALL_END@)
    &&& !contains(text, EOS_TOKEN@)
}

proof fn lemma_replaced_none(s: Seq<char>, pat: Seq<char>)
    requires
        !contains(s, pat),
    ensures
        replaced(s, pat, ""@) == s,
{
    lemma_first_occurrence(s, pat);
}

/// Text without tokens passes as it is, character for character, and nothing is held back.
pub proof fn lemma_text_passes(st: DeepSeekState, chunk: Seq<char>, tools: Seq<Tool>)
    requires
        is_plain(st.buffer + chunk),
    ensures
        feed(st, chunk, tools).1.normal_text == st.buffer + chunk,
        feed(st, chunk, tools).1.calls.len() == 0,
        feed(st, chunk, tools).0 == (DeepSeekState { buffer: Seq::empty(), ..st }),
{
    let text = st.buffer + chunk;
    lemma_replaced_none(text, TOOL_CALLS_END@);
    lemma_replaced_none(text, TOOL_CALL_END@);
    lemma_replaced_none(text, EOS_TOKEN@);
}

/// The normal text that some chunks give, one after the other, and the items.
pub open spec fn passed(st: DeepSeekState, chunks: Seq<Seq<char>>, tools: Seq<Tool>) -> (
    Seq<char>,
    Seq<ItemModel>,
)
    decreases chunks.len(),
{
    if chunks.len() == 0 {
        (seq![], seq![])
    } else {
        let (next, out) = feed(st, chunks[0], tools);
        let (text, items) = passed(next, chunks.skip(1), tools);
        (out.normal_text + text, out.calls + items)
    }
}

/// A stream of text, in whatever chunks, passes as it was written.
pub proof fn lemma_text_stream(st: DeepSeekState, chunks: Seq<Seq<char>>, tools: Seq<Tool>)
    requires
        st.buffer.len() == 0,
        forall|i: int| 0 <= i < chunks.len() ==> is_plain(#[trigger] chunks[i]),
    ensures
        passed(st, chunks, tools).0 == joined(chunks),
        passed(st, chunks, tools).1.len() == 0,
    decreases chunks.len(),
{
    if chunks.len() > 0 {
        let more = chunks.skip(1);
        assert(is_plain(chunks[0]));
        assert(st.buffer + chunks[0] =~= chunks[0]);
        lemma_text_passes(st, chunks[0], tools);
        assert forall|i: int| 0 <= i < more.len() implies is_plain(#[trigger] more[i]) by {
            assert(more[i] == chunks[i + 1]);
        }
        lemma_text_stream(feed(st, chunks[0], tools).0, more, tools);
    }
}

/// A pattern is not replaced in a text in which it does not begin.
proof fn lemma_replaced_behind(s: Seq<char>, u: Seq<char>, pat: Seq<char>)
    requires
        pat.len() > 0,
        forall|j: int| 0 <= j < s.len() ==> !#[trigger] occurs_at(s + u, pat, j),
    ensures
        replaced(s + u, pat, ""@) == s + replaced(u, pat, ""@),
{
    let t = s + u;
    lemma_contains_behind(s, u, pat);
    lemma_first_occurrence(t, pat);
    lemma_first_occurrence(u, pat);
    match first_occurrence(u, pat) {
        Some(i) => {
            assert(occurs_at(t, pat, s.len() + i));
            assert forall|j: int| 0 <= j < s.len() + i implies !#[trigger] occurs_at(t, pat, j) by {
                if j >= s.len() {
                    assert(!occurs_at(u, pat, j - s.len()));
                }
            }
            assert(is_first(t, pat, s.len() + i));
            lemma_first_is(t, pat, s.len() + i);
            assert(t.take(s.len() + i) =~= s + u.take(i));
            assert(t.skip(s.len() + i + pat.len()) =~= u.skip(i + pat.len()));
            assert(replaced(t, pat, ""@) =~= s + replaced(u, pat, ""@));
        },
        None => {},
    }
}

/// The text is one of the tokens that end something.
pub open spec fn is_end_token(s: Seq<char>) -> bool {
    s == TOOL_CALLS_END@ || s == TOOL_CALL_END@ || s == EOS_TOKEN@
}

/// Each of the parts is a token that ends something, or a text without the character that tokens
/// begin with.
pub open spec fn is_woven(parts: Seq<Seq<char>>) -> bool {
    forall|i: int|
        0 <= i < parts.len() ==> is_end_token(#[trigger] parts[i]) || free_of_heads(parts[i])
}

/// The character that tokens begin with does not stand in the text.
pub open spec fn free_of_heads(s: Seq<char>) -> bool {
    forall|j: int| 0 <= j < s.len() ==> #[trigger] s[j] != '<'
}

/// The parts without those that are `token`.
spec fn without(parts: Seq<Seq<char>>, token: Seq<char>) -> Seq<Seq<char>> {
    Seq::new(
        parts.len(),
        |i: int|
            if parts[i] == token {
                Seq::<char>::empty()
            } else {
                parts[i]
            },
    )
}

proof fn lemma_end_tokens()
    ensures
        lone_head(TOOL_CALLS_END@),
        lone_head(TOOL_CALL_END@),
        lone_head(EOS_TOKEN@),
        TOOL_CALLS_END@[0] == '<',
        TOOL_CALL_END@[0] == '<',
        EOS_TOKEN@[0] == '<',
        TOOL_CALLS_END@.len() > 11,
        TOOL_CALL_END@.len() > 11,
        EOS_TOKEN@.len() > 11,
        TOOL_CALLS_END@[11] != TOOL_CALL_END@[11],
        TOOL_CALLS_END@[2] != EOS_TOKEN@[2],
        TOOL_CALL_END@[2] != EOS_TOKEN@[2],
{
    reveal_strlit("<｜tool▁calls▁end｜>");
    reveal_strlit("<｜tool▁call▁end｜>");
    reveal_strlit("<｜end▁of▁sentence｜>");
}

/// No other token, and no text without the first character of tokens, begins `token`.
proof fn lemma_no_token_in(s: Seq<char>, u: Seq<char>, token: Seq<char>)
    requires
        is_end_token(token),
        is_end_token(s) || free_of_heads(s),
        s != token,
    ensures
        forall|j: int| 0 <= j < s.len() ==> !#[trigger] occurs_at(s + u, token, j),
{
    lemma_end_tokens();
    let t = s + u;
    assert forall|j: int| 0 <= j < s.len() implies !#[trigger] occurs_at(t, token, j) by {
        if occurs_at(t, token, j) {
            let found = t.subrange(j, j + token.len());
            assert(found[0] == s[j]);
            if is_end_token(s) {
                assert(j == 0);
                assert(found[2] == s[2]);
                assert(found[11] == s[11]);
            }
        }
    }
}

proof fn lemma_woven_replaced(parts: Seq<Seq<char>>, token: Seq<char>)
    requires
        is_woven(parts),
        is_end_token(token),
    ensures
        replaced(joined(parts), token, ""@) == joined(without(parts, token)),
        is_woven(without(parts, token)),
    decreases parts.len(),
{
    lemma_end_tokens();
    reveal_strlit("");
    let left = without(parts, token);
    assert forall|i: int| 0 <= i < left.len() implies is_end_token(#[trigger] left[i])
        || free_of_heads(left[i]) by {
        assert(is_end_token(parts[i]) || free_of_heads(parts[i]));
    }
    if parts.len() == 0 {
        assert(!contains(joined(parts), token));
        lemma_replaced_none(joined(parts), token);
    } else {
        let first = parts[0];
        let more = parts.skip(1);
        let rest = joined(more);
        let text = first + rest;
        assert(is_end_token(parts[0]) || free_of_heads(parts[0]));
        assert forall|i: int| 0 <= i < more.len() implies is_end_token(#[trigger] more[i])
            || free_of_heads(more[i]) by {
            assert(more[i] == parts[i + 1]);
        }
        lemma_woven_replaced(more, token);
        assert(left.skip(1) =~= without(more, token));
        if first == token {
            assert(text.subrange(0, token.len() as int) =~= token);
            assert(is_first(text, token, 0));
            lemma_first_is(text, token, 0);
            assert(text.skip(token.len() as int) =~= rest);
            assert(text.take(0) + ""@ + replaced(rest, token, ""@) =~= replaced(rest, token, ""@));
            assert(left[0] + joined(left.skip(1)) =~= joined(left.skip(1)));
        } else {
            lemma_no_token_in(first, rest, token);
            lemma_replaced_behind(first, rest, token);
        }
    }
}

/// Of the parts, those that are no token.
pub open spec fn plain_parts(parts: Seq<Seq<char>>) -> Seq<Seq<char>> {
    Seq::new(
        parts.len(),
        |i: int|
            if is_end_token(parts[i]) {
                Seq::<char>::empty()
            } else {
                parts[i]
            },
    )
}

/// Tokens that end something are taken out of the text that passes, wherever they stand, and
/// nothing else is.
pub proof fn lemma_end_tokens_dropped(
    st: DeepSeekState,
    chunk: Seq<char>,
    parts: Seq<Seq<char>>,
    tools: Seq<Tool>,
)
    requires
        is_woven(parts),
        st.buffer + chunk == joined(parts),
        !contains(joined(parts), TOOL_CALLS_BEGIN@),
        !contains(joined(parts), TOOL_CALL_BEGIN@),
    ensures
        feed(st, chunk, tools).1.normal_text == joined(plain_parts(parts)),
        feed(st, chunk, tools).1.calls.len() == 0,
        feed(st, chunk, tools).0 == (DeepSeekState { buffer: Seq::empty(), ..st }),
{
    lemma_end_tokens();
    let a = without(parts, TOOL_CALLS_END@);
    let b = without(a, TOOL_CALL_END@);
    let c = without(b, EOS_TOKEN@);
    lemma_woven_replaced(parts, TOOL_CALLS_END@);
    lemma_woven_replaced(a, TOOL_CALL_END@);
    lemma_woven_replaced(b, EOS_TOKEN@);
    assert(c =~= plain_parts(parts)) by {
        assert forall|i: int| 0 <= i < parts.len() implies c[i] == plain_parts(parts)[i] by {
            assert(Seq::<char>::empty().len() == 0);
        }
    }
}

/// The parser waits while a token that opens something has come, but no separator.
pub proof fn lemma_call_awaited(st: DeepSeekState, chunk: Seq<char>, tools: Seq<Tool>)
    requires
        contains(st.buffer + chunk, TOOL_CALLS_BEGIN@) || contains(
            st.buffer + chunk,
            TOOL_CALL_BEGIN@,
        ),
        !contains(st.buffer + chunk, TOOL_SEP@),
    ensures
        feed(st, chunk, tools).1.normal_text.len() == 0,
        feed(st, chunk, tools).1.calls.len() == 0,
        feed(st, chunk, tools).0 == (DeepSeekState { buffer: st.buffer + chunk, ..st }),
{
    let text = st.buffer + chunk;
    lemma_first_occurrence(text, TOOL_CALL_BEGIN@);
    if let Some(i) = first_occurrence(text, TOOL_CALL_BEGIN@) {
        let from = i + TOOL_CALL_BEGIN@.len();
        lemma_skip_free(text, TOOL_SEP@, from);
        lemma_last_occurrence(text.skip(from), TOOL_SEP@);
    }
}

/// A call that is being written, with what stands before it.
pub open spec fn begun(lead: Seq<char>, name: Seq<char>, arguments: Seq<char>) -> Seq<char> {
    lead + (TOOL_CALL_BEGIN@ + (name + (TOOL_SEP@ + arguments)))
}

proof fn lemma_begun(lead: Seq<char>, name: Seq<char>, arguments: Seq<char>)
    requires
        !contains(lead, TOOL_CALL_BEGIN@),
        !contains(arguments, TOOL_SEP@),
    ensures
        contains(begun(lead, name, arguments), TOOL_CALL_BEGIN@),
        partial_call(begun(lead, name, arguments)) == Some((name, arguments)),
{
    lemma_token_heads();
    lemma_partial_call(lead, name, arguments);
    lemma_first_behind(lead, TOOL_CALL_BEGIN@, name + (TOOL_SEP@ + arguments));
    lemma_first_occurrence(begun(lead, name, arguments), TOOL_CALL_BEGIN@);
}

/// The name of a call of a known tool is sent as soon as the separator has come, without the white
/// space around it and before its arguments.
pub proof fn lemma_name_sent(
    st: DeepSeekState,
    chunk: Seq<char>,
    lead: Seq<char>,
    name: Seq<char>,
    arguments: Seq<char>,
    tools: Seq<Tool>,
)
    requires
        valid(st),
        !st.name_sent,
        st.buffer + chunk == begun(lead, name, arguments),
        !contains(lead, TOOL_CALL_BEGIN@),
        !contains(arguments, TOOL_SEP@),
        exists|j: int|
            0 <= j < tools.len() && (#[trigger] tools[j]).function.name@ == trimmed(name),
    ensures
        ({
            let (next, out) = feed(st, chunk, tools);
            &&& out.normal_text.len() == 0
            &&& out.calls.len() == 1
            &&& out.calls[0].tool_index == (match st.id {
                Some(id) => id,
                None => 0,
            })
            &&& out.calls[0].name == Some(trimmed(name))
            &&& out.calls[0].parameters.len() == 0
            &&& next.name_sent
            &&& next.buffer == st.buffer + chunk
            &&& current_index(st) < next.calls.len()
            &&& next.calls[current_index(st)] matches Some(call)
            &&& call.name == trimmed(name)
            &&& call.arguments matches JsonModel::Object(members)
            &&& forall|key: Seq<char>| !#[trigger] members.contains_key(key)
            &&& current_index(next) == current_index(st)
        }),
{
    lemma_begun(lead, name, arguments);
    lemma_prepared(DeepSeekState { buffer: st.buffer + chunk, ..st });
}

/// A call of an unknown tool is not sent, and its text is dropped.
pub proof fn lemma_unknown_dropped(
    st: DeepSeekState,
    chunk: Seq<char>,
    lead: Seq<char>,
    name: Seq<char>,
    arguments: Seq<char>,
    tools: Seq<Tool>,
)
    requires
        st.buffer + chunk == begun(lead, name, arguments),
        !contains(lead, TOOL_CALL_BEGIN@),
        !contains(arguments, TOOL_SEP@),
        forall|j: int|
            0 <= j < tools.len() ==> (#[trigger] tools[j]).function.name@ != trimmed(name),
    ensures
        ({
            let (next, out) = feed(st, chunk, tools);
            &&& out.normal_text.len() == 0
            &&& out.calls.len() == 0
            &&& next.buffer.len() == 0
            &&& !next.name_sent
            &&& next.id == st.id
        }),
{
    lemma_begun(lead, name, arguments);
}

/// Once the name of a call was sent, its arguments are: what follows what was sent, or all of them
/// where they do not continue it. The call is finished as soon as they are JSON, and not before,
/// and is then kept with them.
pub proof fn lemma_arguments_follow(
    st: DeepSeekState,
    chunk: Seq<char>,
    lead: Seq<char>,
    name: Seq<char>,
    raw: Seq<char>,
    tools: Seq<Tool>,
)
    requires
        valid(st),
        st.name_sent,
        st.buffer + chunk == begun(lead, name, raw),
        !contains(lead, TOOL_CALL_BEGIN@),
        !contains(raw, TOOL_SEP@),
        exists|j: int|
            0 <= j < tools.len() && (#[trigger] tools[j]).function.name@ == trimmed(name),
    ensures
        ({
            let (next, out) = feed(st, chunk, tools);
            let id = current_index(st);
            let sent = sent_before(st.streamed, id);
            let arguments = clean_arguments(trimmed(raw));
            let continues = sent.len() <= arguments.len() && arguments.take(sent.len() as int)
                == sent;
            let new = if continues {
                arguments.skip(sent.len() as int)
            } else {
                arguments
            };
            &&& out.normal_text.len() == 0
            &&& new.len() == 0 ==> out.calls.len() == 0
            &&& new.len() > 0 ==> {
                &&& out.calls.len() == 1
                &&& out.calls[0].tool_index == id
                &&& out.calls[0].name is None
                &&& out.calls[0].parameters == new
            }
            &&& parsed_json(arguments) is Ok ==> !next.name_sent && current_index(next) == id + 1
            &&& parsed_json(arguments) is Err ==> {
                &&& next.name_sent
                &&& current_index(next) == id
                &&& next.buffer == st.buffer + chunk
            }
            &&& forall|i: int|
                0 <= i < st.calls.len() && i != id ==> (#[trigger] next.calls[i]) == st.calls[i]
            &&& parsed_json(arguments) matches Ok(value) ==> (st.calls[id] matches Some(call)
                ==> next.calls[id] == Some(TrackedModel { name: call.name, arguments: value }))
            &&& parsed_json(arguments) is Err ==> next.calls[id] == st.calls[id]
        }),
{
    lemma_begun(lead, name, raw);
    let text = st.buffer + chunk;
    let full = DeepSeekState { buffer: text, ..st };
    let id = current_index(st);
    let arguments = clean_arguments(trimmed(raw));
    lemma_prepared(full);
    let sent = sent_before(st.streamed, id);
    assert(sent_before(prepared(full).streamed, id) == sent);
    assert(sent.len() <= arguments.len() ==> arguments.subrange(0, sent.len() as int)
        =~= arguments.take(sent.len() as int));
}

/// The text is white space and tokens that end something, one after the other.
pub open spec fn is_ending(s: Seq<char>) -> bool
    decreases s.len(),
{
    ||| s.len() == 0
    ||| s.len() > 0 && whitespace(s.last()) && is_ending(s.drop_last())
    ||| ends_by(s, TOOL_CALL_END@) && is_ending(s.take(s.len() - TOOL_CALL_END@.len()))
    ||| ends_by(s, TOOL_CALLS_END@) && is_ending(s.take(s.len() - TOOL_CALLS_END@.len()))
    ||| ends_by(s, EOS_TOKEN@) && is_ending(s.take(s.len() - EOS_TOKEN@.len()))
}

/// The text ends by a token.
pub open spec fn ends_by(s: Seq<char>, token: Seq<char>) -> bool {
    0 < token.len() <= s.len() && s.skip(s.len() - token.len()) == token
}

proof fn lemma_endings(a: Seq<char>, b: Seq<char>)
    requires
        is_ending(a),
        is_ending(b),
    ensures
        is_ending(a + b),
    decreases b.len(),
{
    lemma_tokens();
    let s = a + b;
    if b.len() == 0 {
        assert(s =~= a);
    } else if whitespace(b.last()) && is_ending(b.drop_last()) {
        assert(s.drop_last() =~= a + b.drop_last());
        lemma_endings(a, b.drop_last());
    } else if ends_by(b, TOOL_CALL_END@) && is_ending(b.take(b.len() - TOOL_CALL_END@.len())) {
        lemma_ending_token(a, b, TOOL_CALL_END@);
        lemma_endings(a, b.take(b.len() - TOOL_CALL_END@.len()));
    } else if ends_by(b, TOOL_CALLS_END@) && is_ending(b.take(b.len() - TOOL_CALLS_END@.len())) {
        lemma_ending_token(a, b, TOOL_CALLS_END@);
        lemma_endings(a, b.take(b.len() - TOOL_CALLS_END@.len()));
    } else {
        lemma_ending_token(a, b, EOS_TOKEN@);
        lemma_endings(a, b.take(b.len() - EOS_TOKEN@.len()));
    }
}

proof fn lemma_ending_token(a: Seq<char>, b: Seq<char>, token: Seq<char>)
    requires
        ends_by(b, token),
    ensures
        ends_by(a + b, token),
        (a + b).take((a + b).len() - token.len()) == a + b.take(b.len() - token.len()),
{
    let s = a + b;
    assert(s.skip(s.len() - token.len()) =~= b.skip(b.len() - token.len()));
    assert(s.take(s.len() - token.len()) =~= a + b.take(b.len() - token.len()));
}

proof fn lemma_blank_ending(s: Seq<char>)
    requires
        blank(s),
    ensures
        is_ending(s),
    decreases s.len(),
{
    if s.len() > 0 {
        assert(whitespace(s[s.len() - 1]));
        assert(blank(s.drop_last()));
        lemma_blank_ending(s.drop_last());
    }
}

/// What two steps take off the end of a text.
proof fn lemma_taken(s: Seq<char>, t: Seq<char>, u: Seq<char>)
    requires
        t.len() <= s.len(),
        t == s.take(t.len() as int),
        u.len() <= t.len(),
        u == t.take(u.len() as int),
        is_ending(s.skip(t.len() as int)),
        is_ending(t.skip(u.len() as int)),
    ensures
        is_ending(s.skip(u.len() as int)),
        u == s.take(u.len() as int),
{
    let n = u.len() as int;
    lemma_endings(t.skip(n), s.skip(t.len() as int));
    assert(t.skip(n) + s.skip(t.len() as int) =~= s.skip(n));
    assert(u =~= s.take(n));
}

proof fn lemma_trimmed_taken(s: Seq<char>)
    ensures
        is_ending(s.skip(trimmed_end(s).len() as int)),
{
    lemma_trimmed_end_is(s);
    lemma_blank_ending(s.skip(trimmed_end(s).len() as int));
}

proof fn lemma_tokens_taken(s: Seq<char>, token: Seq<char>)
    requires
        is_end_token(token),
    ensures
        is_ending(s.skip(trimmed_end_of(s, token).len() as int)),
    decreases s.len(),
{
    lemma_tokens();
    lemma_trimmed_end_of(s, token);
    if occurs_at(s, token, s.len() - token.len()) {
        let n = s.len() - token.len();
        let t = s.take(n);
        let tail = s.skip(n);
        lemma_tokens_taken(t, token);
        lemma_trimmed_end_of(t, token);
        assert(tail =~= s.subrange(n, n + token.len()));
        assert(tail.skip(tail.len() - token.len()) =~= token);
        assert(tail.take(tail.len() - token.len()) =~= Seq::<char>::empty());
        assert(is_ending(Seq::<char>::empty()));
        assert(ends_by(tail, token));
        assert(is_ending(tail));
        lemma_taken(s, t, trimmed_end_of(t, token));
    } else {
        assert(s.skip(s.len() as int) =~= Seq::<char>::empty());
    }
}

proof fn lemma_token_taken(s: Seq<char>, token: Seq<char>)
    requires
        is_end_token(token),
    ensures
        is_ending(s.skip(strip_token(s, token).len() as int)),
{
    let t = trimmed_end_of(s, token);
    lemma_trimmed_end_of(s, token);
    lemma_trimmed_end(t);
    lemma_tokens_taken(s, token);
    lemma_trimmed_taken(t);
    lemma_taken(s, t, trimmed_end(t));
}

proof fn lemma_once_taken(s: Seq<char>)
    ensures
        is_ending(s.skip(strip_once(s).len() as int)),
{
    let a = strip_token(s, EOS_TOKEN@);
    let b = strip_token(a, TOOL_CALLS_END@);
    let c = strip_token(b, TOOL_CALL_END@);
    lemma_strip_token(s, EOS_TOKEN@);
    lemma_strip_token(a, TOOL_CALLS_END@);
    lemma_strip_token(b, TOOL_CALL_END@);
    lemma_token_taken(s, EOS_TOKEN@);
    lemma_token_taken(a, TOOL_CALLS_END@);
    lemma_token_taken(b, TOOL_CALL_END@);
    lemma_taken(s, a, b);
    lemma_taken(s, b, c);
}

proof fn lemma_all_taken(s: Seq<char>)
    ensures
        stripped(s).len() <= s.len(),
        stripped(s) == s.take(stripped(s).len() as int),
        is_ending(s.skip(stripped(s).len() as int)),
    decreases s.len(),
{
    lemma_strip_once(s);
    lemma_once_taken(s);
    let t = strip_once(s);
    if t.len() < s.len() {
        lemma_all_taken(t);
        lemma_taken(s, t, stripped(t));
    } else {
        assert(s.take(s.len() as int) =~= s);
        assert(s.skip(s.len() as int) =~= Seq::<char>::empty());
    }
}

/// What is taken off the end of the arguments is white space and tokens that end something, and
/// nothing else.
pub proof fn lemma_ending_taken(raw: Seq<char>)
    ensures
        clean_arguments(raw).len() <= raw.len(),
        clean_arguments(raw) == raw.take(clean_arguments(raw).len() as int),
        is_ending(raw.skip(clean_arguments(raw).len() as int)),
{
    let t = trimmed_end(raw);
    lemma_trimmed_end(raw);
    lemma_trimmed_taken(raw);
    lemma_all_taken(t);
    lemma_taken(raw, t, stripped(t));
}

} // verus!
