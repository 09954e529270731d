//! What holds of every stream that is read in the format of DeepSeek V3.1.
use super::pattern::partial_call;
use super::round_trip::{
    clear_call, lemma_call_end, lemma_partial_call, written_call, DeepSeekCall,
};
use super::stream::{
    clean_arguments, feed, initial, lemma_strip_once, lemma_strip_token,
    lemma_trimmed_end, lemma_trimmed_end_of, prepared, send_arguments, strip_once, strip_token,
    stripped, DeepSeekState,
};
use super::{
    lemma_tokens, EOS_TOKEN, TOOL_CALLS_END, TOOL_CALL_BEGIN, TOOL_CALL_END, TOOL_SEP,
};
use crate::json::parsed_json;
use crate::parsers::helpers::{known_tool, lemma_sent_by_one, sent_before, sent_by};
use crate::text::edit::{trimmed, trimmed_end, trimmed_end_of, whitespace, without_prefix};
use crate::text::search::{contains, lemma_first_occurrence, occurs_at};
use crate::types::Tool;
use vstd::prelude::*;

verus! {

/// The state is one that the parser can be in: every call has a place both for itself and for
/// what was sent of it.
pub open spec fn valid(st: DeepSeekState) -> bool {
    &&& st.calls.len() == st.streamed.len()
    &&& match st.id {
        Some(id) => 0 <= id && (st.name_sent ==> id < st.streamed.len()),
        None => st.streamed.len() == 0 && !st.name_sent,
    }
}

/// The index of the current call, or of the next.
pub open spec fn current_index(st: DeepSeekState) -> int {
    match st.id {
        Some(id) => id,
        None => 0,
    }
}

/// The first state is valid.
pub proof fn lemma_initial_valid()
    ensures
        valid(initial()),
{
}

pub proof fn lemma_prepared(st: DeepSeekState)
    requires
        valid(st),
    ensures
        valid(prepared(st)),
        prepared(st).id == Some(current_index(st)),
        current_index(st) < prepared(st).streamed.len(),
        forall|i: int| #[trigger]
            sent_before(prepared(st).streamed, i) == sent_before(st.streamed, i),
{
    let next = prepared(st);
    assert forall|i: int| #[trigger]
        sent_before(next.streamed, i) == sent_before(st.streamed, i) by {
        assert(sent_before(next.streamed, i) =~= sent_before(st.streamed, i));
    }
}

/// A chunk leads from a valid state to a valid state. What was sent of each call is kept track
/// of: it grows by what the chunk sends. Only the current call is sent of, its name before its
/// arguments.
pub proof fn lemma_feed(st: DeepSeekState, chunk: Seq<char>, tools: Seq<Tool>)
    requires
        valid(st),
    ensures
        valid(feed(st, chunk, tools).0),
        forall|i: int| #[trigger]
            sent_before(feed(st, chunk, tools).0.streamed, i) == sent_before(st.streamed, i)
                + sent_by(feed(st, chunk, tools).1.calls, i),
        forall|k: int|
            0 <= k < feed(st, chunk, tools).1.calls.len() ==> {
                let item = #[trigger] feed(st, chunk, tools).1.calls[k];
                &&& item.tool_index == current_index(st)
                &&& item.name is Some <==> !st.name_sent
                &&& item.name is Some ==> item.parameters.len() == 0
            },
{
    let text = DeepSeekState { buffer: st.buffer + chunk, ..st };
    lemma_prepared(text);
    let (next, out) = feed(st, chunk, tools);
    let ready = prepared(text);
    assert forall|i: int| #[trigger]
        sent_before(next.streamed, i) == sent_before(st.streamed, i) + sent_by(out.calls, i) by {
        assert(sent_before(ready.streamed, i) == sent_before(text.streamed, i));
        if out.calls.len() > 0 {
            let item = out.calls[0];
            assert(out.calls =~= seq![item]);
            lemma_sent_by_one(item, i);
        }
        assert(sent_before(next.streamed, i) =~= sent_before(st.streamed, i) + sent_by(
            out.calls,
            i,
        ));
    }
}

/// As long as the arguments continue what was sent of them, all of them has been sent after a
/// chunk.
pub proof fn lemma_arguments_sent(st: DeepSeekState, chunk: Seq<char>, tools: Seq<Tool>)
    requires
        valid(st),
        st.name_sent,
        partial_call(st.buffer + chunk) is Some,
        known_tool(tools, trimmed((partial_call(st.buffer + chunk)->0).0)),
        without_prefix(
            clean_arguments(trimmed((partial_call(st.buffer + chunk)->0).1)),
            sent_before(st.streamed, current_index(st)),
        ) is Some,
    ensures
        sent_before(feed(st, chunk, tools).0.streamed, current_index(st)) == clean_arguments(
            trimmed((partial_call(st.buffer + chunk)->0).1),
        ),
{
    let text = st.buffer + chunk;
    let full = DeepSeekState { buffer: text, ..st };
    let arguments = clean_arguments(trimmed((partial_call(text)->0).1));
    let id = current_index(st);
    lemma_first_occurrence(text, TOOL_CALL_BEGIN@);
    lemma_prepared(full);
    let ready = prepared(full);
    assert(sent_before(ready.streamed, id) == sent_before(full.streamed, id));
    let sent = ready.streamed[id];
    assert(arguments =~= arguments.subrange(0, sent.len() as int) + arguments.skip(
        sent.len() as int,
    ));
    let after = send_arguments(ready, arguments).0;
    assert(after.streamed[id] =~= arguments);
}

/// A call that has been written to its end is finished, once its name was sent: the text past
/// its end stays for the next call.
pub proof fn lemma_call_finished(
    st: DeepSeekState,
    chunk: Seq<char>,
    lead: Seq<char>,
    call: DeepSeekCall,
    rest: Seq<char>,
    tools: Seq<Tool>,
)
    requires
        valid(st),
        st.name_sent,
        st.buffer + chunk == lead + written_call(call, rest),
        !contains(lead, TOOL_CALL_BEGIN@),
        clear_call(call),
        !contains(call.arguments + (TOOL_CALL_END@ + rest), TOOL_SEP@),
        known_tool(tools, trimmed(call.name)),
        parsed_json(
            clean_arguments(trimmed(call.arguments + (TOOL_CALL_END@ + rest))),
        ) is Ok,
    ensures
        ({
            let next = feed(st, chunk, tools).0;
            &&& next.buffer == rest
            &&& next.id == Some(current_index(st) + 1)
            &&& !next.name_sent
        }),
{
    let text = st.buffer + chunk;
    let full = DeepSeekState { buffer: text, ..st };
    lemma_partial_call(lead, call.name, call.arguments + (TOOL_CALL_END@ + rest));
    lemma_call_end(lead, call, rest);
    lemma_first_occurrence(text, TOOL_CALL_BEGIN@);
    lemma_prepared(full);
}

/// A token that is not taken off the end does not stand there.
proof fn lemma_no_token(s: Seq<char>, token: Seq<char>)
    requires
        token.len() > 0,
        trimmed_end_of(s, token).len() == s.len(),
    ensures
        !occurs_at(s, token, s.len() - token.len()),
{
    if occurs_at(s, token, s.len() - token.len()) {
        lemma_trimmed_end_of(s.take(s.len() - token.len()), token);
    }
}

proof fn lemma_no_whitespace(s: Seq<char>)
    requires
        trimmed_end(s).len() == s.len(),
    ensures
        s.len() > 0 ==> !whitespace(s.last()),
{
    if s.len() > 0 && whitespace(s.last()) {
        lemma_trimmed_end(s.drop_last());
    }
}

proof fn lemma_strip_token_fixed(s: Seq<char>, token: Seq<char>)
    requires
        token.len() > 0,
        strip_token(s, token).len() == s.len(),
    ensures
        strip_token(s, token) == s,
        !occurs_at(s, token, s.len() - token.len()),
        s.len() > 0 ==> !whitespace(s.last()),
{
    let t = trimmed_end_of(s, token);
    lemma_trimmed_end_of(s, token);
    lemma_trimmed_end(t);
    assert(s.take(s.len() as int) =~= s);
    lemma_no_token(s, token);
    lemma_no_whitespace(s);
}

proof fn lemma_stripped(s: Seq<char>)
    ensures
        stripped(s).len() <= s.len(),
        stripped(s) == s.take(stripped(s).len() as int),
        strip_once(stripped(s)).len() == stripped(s).len(),
    decreases s.len(),
{
    lemma_strip_once(s);
    assert(s.take(s.len() as int) =~= s);
    let t = strip_once(s);
    if t.len() < s.len() {
        lemma_stripped(t);
        let n = stripped(t).len() as int;
        assert(t.take(n) =~= s.take(n));
    }
}

/// The arguments in a text are a beginning of it that ends neither with white space nor with a
/// token that ends something, in whatever order such tokens were stacked behind them.
pub proof fn lemma_clean_arguments(raw: Seq<char>)
    ensures
        ({
            let s = clean_arguments(raw);
            &&& s.len() <= raw.len()
            &&& s == raw.take(s.len() as int)
            &&& s.len() > 0 ==> !whitespace(s.last())
            &&& !occurs_at(s, EOS_TOKEN@, s.len() - EOS_TOKEN@.len())
            &&& !occurs_at(s, TOOL_CALLS_END@, s.len() - TOOL_CALLS_END@.len())
            &&& !occurs_at(s, TOOL_CALL_END@, s.len() - TOOL_CALL_END@.len())
        }),
{
    let t = trimmed_end(raw);
    let s = clean_arguments(raw);
    lemma_tokens();
    lemma_trimmed_end(raw);
    lemma_stripped(t);
    let n = s.len() as int;
    assert(t.take(n) =~= raw.take(n));
    let a = strip_token(s, EOS_TOKEN@);
    let b = strip_token(a, TOOL_CALLS_END@);
    lemma_strip_token(s, EOS_TOKEN@);
    lemma_strip_token(a, TOOL_CALLS_END@);
    lemma_strip_token(b, TOOL_CALL_END@);
    lemma_strip_token_fixed(s, EOS_TOKEN@);
    lemma_strip_token_fixed(s, TOOL_CALLS_END@);
    lemma_strip_token_fixed(s, TOOL_CALL_END@);
}

} // verus!
