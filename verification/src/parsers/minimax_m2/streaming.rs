//! What holds of every stream that is read in the format of MiniMax M2.
use super::markup::{
    open_position, parameter_pairs, INVOKE_CLOSE, TOOL_CALL_CLOSE, TOOL_CALL_OPEN,
};
use super::params::{
    collected, lemma_collected_distinct, lemma_nothing_added, opening_fragment, same_params, Params,
};
use super::round_trip::{
    body_of, call_free_of, clear_call, clear_name, follows, inner_of, lemma_call_end_is,
    lemma_named_open_tag, lemma_parameters_round_trip, pairs_of, tag, written_calls, MinimaxCall,
    MinimaxGroup,
};
use super::stream::{
    advance, call_text, close_object, current, feed, initial, params_in, read_call, run, seek_call,
    seek_group, stream_params, streamed_values, valid, with_items, MinimaxState,
};
use crate::parsers::helpers::{
    is_partial_token, lemma_sent_by_concat, lemma_sent_by_one, padded, partial_token,
    properties_of, sent_before, sent_by,
};
use crate::text::concat::{lemma_first_behind, lemma_occurs_concat, lone_head};
use crate::text::search::{contains, first_occurrence, lemma_first_occurrence, occurs_at};
use crate::types::{argument_item, name_item, ItemModel, ResultModel, Tool};
use vstd::prelude::*;

verus! {

/// Of the call `i` nothing was sent yet: it comes after the current call, or the current call
/// has no parameters yet.
pub open spec fn unsent(st: MinimaxState, i: int) -> bool {
    &&& current(st) <= i
    &&& i == current(st) && st.name_sent ==> st.params.len() == 0
}

/// The state is one that the parser can be in: outside of a group it is outside of a call, and
/// of the calls to come nothing was sent.
pub open spec fn consistent(st: MinimaxState) -> bool {
    &&& valid(st)
    &&& !st.in_call ==> !st.name_sent
    &&& forall|i: int| #[trigger]
        unsent(st, i) ==> sent_before(st.streamed, i).len() == 0
}

/// The first state is consistent.
pub proof fn lemma_initial_consistent()
    ensures
        consistent(initial()),
{
}

/// That a state is consistent does not depend on its buffer.
pub proof fn lemma_consistent_with(st: MinimaxState, buffer: Seq<char>)
    requires
        consistent(st),
    ensures
        consistent(MinimaxState { buffer, ..st }),
{
    let other = MinimaxState { buffer, ..st };
    assert forall|k: int| #[trigger] unsent(other, k) implies sent_before(
        other.streamed,
        k,
    ).len() == 0 by {
        assert(unsent(st, k));
    }
}

/// What is sent of the parameters is kept track of.
pub proof fn lemma_stream_params(st: MinimaxState, text: Seq<char>, tools: Seq<Tool>, i: int)
    requires
        consistent(st),
        st.name_sent,
    ensures
        consistent(stream_params(st, text, tools).0),
        stream_params(st, text, tools).0.id == st.id,
        sent_before(stream_params(st, text, tools).0.streamed, i) == sent_before(st.streamed, i)
            + sent_by(stream_params(st, text, tools).1, i),
{
    let id = st.id->0;
    let (next, items) = stream_params(st, text, tools);
    lemma_collected_distinct(
        streamed_values(parameter_pairs(text), properties_of(tools, st.name)),
    );
    if items.len() > 0 {
        assert(items =~= seq![items[0]]);
        lemma_sent_by_one(items[0], i);
    }
    assert(unsent(st, id) ==> sent_before(st.streamed, id).len() == 0);
    assert forall|k: int| #[trigger] unsent(next, k) implies sent_before(next.streamed, k).len()
        == 0 by {
        assert(unsent(st, k));
    }
    assert(sent_before(next.streamed, i) =~= sent_before(st.streamed, i) + sent_by(items, i));
}

/// What closes the arguments of a call is kept track of.
proof fn lemma_close_object(streamed: Seq<Seq<char>>, id: int, i: int)
    requires
        0 <= id,
    ensures
        close_object(streamed, id).0.len() == streamed.len(),
        sent_before(close_object(streamed, id).0, i) == sent_before(streamed, i) + sent_by(
            close_object(streamed, id).1,
            i,
        ),
{
    let (after, items) = close_object(streamed, id);
    if items.len() > 0 {
        assert(items =~= seq![items[0]]);
        lemma_sent_by_one(items[0], i);
    }
    assert(sent_before(after, i) =~= sent_before(streamed, i) + sent_by(items, i));
}

/// A step leads from a consistent state to a consistent state, and what it sends is kept track
/// of.
proof fn lemma_advance(
    st: MinimaxState,
    out: ResultModel,
    tools: Seq<Tool>,
    i: int,
    base: Seq<char>,
)
    requires
        consistent(st),
        sent_before(st.streamed, i) == base + sent_by(out.calls, i),
    ensures
        consistent(advance(st, out, tools).state),
        sent_before(advance(st, out, tools).state.streamed, i) == base + sent_by(
            advance(st, out, tools).out.calls,
            i,
        ),
{
    let p = advance(st, out, tools);
    if !st.in_call {
        assert forall|k: int| #[trigger] unsent(p.state, k) implies sent_before(
            p.state.streamed,
            k,
        ).len() == 0 by {
            assert(unsent(st, k));
        }
    } else if !st.name_sent {
        assert forall|k: int| #[trigger] unsent(p.state, k) implies sent_before(
            p.state.streamed,
            k,
        ).len() == 0 by {
            assert(unsent(st, k));
        }
        assert(sent_before(p.state.streamed, i) =~= sent_before(st.streamed, i));
        if p.out.calls != out.calls {
            let item = p.out.calls.last();
            assert(p.out.calls =~= out.calls + seq![item]);
            lemma_sent_by_concat(out.calls, seq![item], i);
            lemma_sent_by_one(item, i);
            assert(sent_by(p.out.calls, i) =~= sent_by(out.calls, i));
        }
    } else {
        let (next, items) = stream_params(st, call_text(st.buffer), tools);
        let id = next.id->0;
        let (streamed, closing) = close_object(next.streamed, id);
        lemma_stream_params(st, call_text(st.buffer), tools, i);
        lemma_close_object(next.streamed, id, i);
        lemma_sent_by_concat(out.calls, items, i);
        lemma_sent_by_concat(out.calls + items, closing, i);
        let sent = sent_before(next.streamed, i);
        assert(sent =~= base + sent_by(out.calls + items, i));
        assert forall|k: int| #[trigger] unsent(p.state, k) implies sent_before(
            p.state.streamed,
            k,
        ).len() == 0 by {
            assert(unsent(next, k));
        }
        assert(sent_before(p.state.streamed, i) =~= base + sent_by(p.out.calls, i));
    }
}

proof fn lemma_run(st: MinimaxState, out: ResultModel, tools: Seq<Tool>, i: int, base: Seq<char>)
    requires
        consistent(st),
        sent_before(st.streamed, i) == base + sent_by(out.calls, i),
    ensures
        consistent(run(st, out, tools).0),
        sent_before(run(st, out, tools).0.streamed, i) == base + sent_by(
            run(st, out, tools).1.calls,
            i,
        ),
    decreases st.buffer.len(),
{
    lemma_advance(st, out, tools, i, base);
    let p = advance(st, out, tools);
    if p.more && p.state.buffer.len() < st.buffer.len() {
        lemma_run(p.state, p.out, tools, i, base);
    }
}

/// A chunk leads from a consistent state to a consistent state. What was sent of each call is
/// kept track of: it grows by what the chunk sends.
pub proof fn lemma_feed(st: MinimaxState, chunk: Seq<char>, tools: Seq<Tool>)
    requires
        consistent(st),
    ensures
        consistent(feed(st, chunk, tools).0),
        forall|i: int| #[trigger]
            sent_before(feed(st, chunk, tools).0.streamed, i) == sent_before(st.streamed, i)
                + sent_by(feed(st, chunk, tools).1.calls, i),
{
    let start = MinimaxState { buffer: st.buffer + chunk, ..st };
    let none = ResultModel { normal_text: seq![], calls: seq![] };
    lemma_consistent_with(st, start.buffer);
    assert forall|i: int| #[trigger]
        sent_before(feed(st, chunk, tools).0.streamed, i) == sent_before(st.streamed, i) + sent_by(
            feed(st, chunk, tools).1.calls,
            i,
        ) by {
        let base = sent_before(st.streamed, i);
        assert(base + sent_by(none.calls, i) =~= base);
        lemma_run(start, none, tools, i, base);
    }
    assert(sent_before(st.streamed, 0) + sent_by(none.calls, 0) =~= sent_before(st.streamed, 0));
    lemma_run(start, none, tools, 0, sent_before(st.streamed, 0));
}

/// What is sent of the arguments of a call: the object with its parameters, in two pieces, or
/// nothing if there are none.
pub open spec fn argument_items(id: int, params: Params) -> Seq<ItemModel> {
    if params.len() == 0 {
        seq![]
    } else {
        seq![argument_item(id, opening_fragment(params)), argument_item(id, "}"@)]
    }
}

/// The parameters of a call as they are sent.
pub open spec fn params_of(call: MinimaxCall, tools: Seq<Tool>) -> Params {
    collected(streamed_values(pairs_of(call.params), properties_of(tools, call.name)))
}

proof fn lemma_collected_some(pairs: Params)
    ensures
        pairs.len() > 0 <==> collected(pairs).len() > 0,
{
}

/// A call that stands complete in the buffer is sent its own parameters, whatever follows it, as
/// one complete JSON object. Closing tags that stand literally in their values are kept. The text
/// past the call stays.
pub proof fn lemma_call_streamed(
    st: MinimaxState,
    out: ResultModel,
    tools: Seq<Tool>,
    call: MinimaxCall,
    more: Seq<char>,
)
    requires
        consistent(st),
        st.name_sent,
        st.name == call.name,
        st.params.len() == 0,
        clear_call(call),
        call_free_of(call, TOOL_CALL_CLOSE@),
        follows(more),
        st.buffer == body_of(call) + (INVOKE_CLOSE@ + (call.gap + more)),
    ensures
        ({
            let id = current(st);
            let p = read_call(st, out, tools);
            &&& p.more
            &&& p.out == with_items(out, argument_items(id, params_of(call, tools)))
            &&& p.state.buffer == call.gap + more
            &&& p.state.id == Some(id + 1)
            &&& p.state.in_call == st.in_call
            &&& !p.state.name_sent
            &&& p.state.params.len() == 0
        }),
{
    reveal_strlit("{");
    let id = current(st);
    let body = body_of(call);
    let new = params_of(call, tools);
    lemma_call_end_is(call, more);
    assert(st.buffer.take(body.len() as int) =~= body);
    lemma_parameters_round_trip(call.head, call.params);
    lemma_collected_some(streamed_values(pairs_of(call.params), properties_of(tools, call.name)));
    assert(unsent(st, id));
    assert(sent_before(st.streamed, id).len() == 0);
    assert(st.buffer.skip(body.len() as int + INVOKE_CLOSE@.len()) =~= call.gap + more);
    let (next, items) = stream_params(st, body, tools);
    let (streamed, closing) = close_object(next.streamed, id);
    if new.len() > 0 {
        assert(!same_params(new, st.params));
        let sent = opening_fragment(new);
        assert(items =~= seq![argument_item(id, sent)]);
        assert(next.streamed[id] == sent);
    }
    assert(items + closing =~= argument_items(id, new));
    assert(out.calls + items + closing =~= out.calls + (items + closing));
}

/// A step keeps a state consistent, whatever was sent before.
pub proof fn lemma_advance_consistent(st: MinimaxState, out: ResultModel, tools: Seq<Tool>)
    requires
        consistent(st),
    ensures
        consistent(advance(st, out, tools).state),
{
    let none = ResultModel { normal_text: seq![], calls: seq![] };
    let base = sent_before(st.streamed, 0);
    assert(base + sent_by(none.calls, 0) =~= base);
    lemma_advance(st, none, tools, 0, base);
    assert(advance(st, out, tools).state == advance(st, none, tools).state);
}

/// What is sent of some calls, the first of which has the index `id`: of each its name, and then
/// its arguments.
pub open spec fn calls_items(id: int, calls: Seq<MinimaxCall>, tools: Seq<Tool>) -> Seq<ItemModel>
    decreases calls.len(),
{
    if calls.len() == 0 {
        seq![]
    } else {
        seq![name_item(id, calls[0].name)] + argument_items(id, params_of(calls[0], tools))
            + calls_items(id + 1, calls.skip(1), tools)
    }
}

/// The calls can be told from each other and from the end of the group.
pub open spec fn clear_in_group(calls: Seq<MinimaxCall>) -> bool {
    forall|i: int|
        0 <= i < calls.len() ==> clear_call(#[trigger] calls[i]) && call_free_of(
            calls[i],
            TOOL_CALL_CLOSE@,
        )
}

/// The next call is announced.
pub proof fn lemma_call_announced(
    st: MinimaxState,
    out: ResultModel,
    lead: Seq<char>,
    name: Seq<char>,
    rest: Seq<char>,
)
    requires
        !contains(lead, "<invoke"@),
        !contains(lead, TOOL_CALL_CLOSE@),
        clear_name(name),
        st.buffer == lead + (tag("<invoke"@, name) + rest),
    ensures
        ({
            let p = seek_call(st, out);
            &&& p.more
            &&& p.out == with_items(out, seq![name_item(current(st), name)])
            &&& p.state.buffer == rest
            &&& p.state.name == name
            &&& p.state.name_sent
            &&& p.state.id == Some(current(st))
            &&& p.state.params == st.params
            &&& p.state.in_call == st.in_call
            &&& rest.len() < st.buffer.len()
        }),
{
    lemma_invoke_tag();
    let open = tag("<invoke"@, name);
    lemma_named_open_tag(lead, "<invoke"@, name, rest);
    lemma_first_occurrence(st.buffer, TOOL_CALL_CLOSE@);
    if let Some(e) = first_occurrence(st.buffer, TOOL_CALL_CLOSE@) {
        assert((open + rest)[0] == '<');
        lemma_occurs_concat(lead, open + rest, TOOL_CALL_CLOSE@, e);
        assert(!occurs_at(lead, TOOL_CALL_CLOSE@, e));
    }
}

/// The end of the group is found.
pub proof fn lemma_group_left(st: MinimaxState, out: ResultModel, lead: Seq<char>, rest: Seq<char>)
    requires
        !contains(lead, "<invoke"@),
        !contains(lead, TOOL_CALL_CLOSE@),
        st.buffer == lead + (TOOL_CALL_CLOSE@ + rest),
    ensures
        ({
            let p = seek_call(st, out);
            &&& p.more
            &&& p.out == out
            &&& p.state.buffer == rest
            &&& !p.state.in_call
            &&& p.state.id == st.id
            &&& rest.len() < st.buffer.len()
        }),
{
    lemma_invoke_tag();
    let tail = TOOL_CALL_CLOSE@ + rest;
    lemma_first_behind(lead, TOOL_CALL_CLOSE@, rest);
    assert(tail[0] == '<');
    if let Some(i) = open_position(st.buffer, "<invoke"@) {
        lemma_first_occurrence(st.buffer, "<invoke"@);
        lemma_occurs_concat(lead, tail, "<invoke"@, i);
        assert(!occurs_at(lead, "<invoke"@, i));
        if i == lead.len() {
            assert(tail.subrange(0, "<invoke"@.len() as int)[1] == tail[1]);
        }
    }
    assert(st.buffer.skip(lead.len() as int + TOOL_CALL_CLOSE@.len()) =~= rest);
}

/// What the tags of calls and groups begin with, and where they differ.
pub proof fn lemma_invoke_tag()
    ensures
        lone_head("<invoke"@),
        lone_head(TOOL_CALL_CLOSE@),
        lone_head(TOOL_CALL_OPEN@),
        "<invoke"@[0] == '<',
        TOOL_CALL_CLOSE@[0] == '<',
        "<invoke"@.len() > 1,
        TOOL_CALL_CLOSE@.len() > 1,
        "<invoke"@[1] != TOOL_CALL_CLOSE@[1],
{
    reveal_strlit("<invoke");
    reveal_strlit("</minimax:tool_call>");
    reveal_strlit("<minimax:tool_call>");
}

/// Inside a group, its calls are sent one after the other, up to the end of the group.
#[verifier::rlimit(30)]
proof fn lemma_calls_streamed(
    st: MinimaxState,
    out: ResultModel,
    tools: Seq<Tool>,
    lead: Seq<char>,
    calls: Seq<MinimaxCall>,
    rest: Seq<char>,
) -> (next: MinimaxState)
    requires
        consistent(st),
        st.in_call,
        !st.name_sent,
        st.params.len() == 0,
        !contains(lead, "<invoke"@),
        !contains(lead, TOOL_CALL_CLOSE@),
        clear_in_group(calls),
        st.buffer == lead + (written_calls(calls) + (TOOL_CALL_CLOSE@ + rest)),
    ensures
        run(st, out, tools) == run(
            next,
            with_items(out, calls_items(current(st), calls, tools)),
            tools,
        ),
        next.buffer == rest,
        !next.in_call,
        consistent(next),
        current(next) == current(st) + calls.len(),
    decreases calls.len(),
{
    let tail = TOOL_CALL_CLOSE@ + rest;
    lemma_advance_consistent(st, out, tools);
    if calls.len() == 0 {
        assert(written_calls(calls) + tail =~= tail);
        lemma_group_left(st, out, lead, rest);
        assert(with_items(out, seq![]).calls =~= out.calls);
        advance(st, out, tools).state
    } else {
        let call = calls[0];
        let others = calls.skip(1);
        let id = current(st);
        assert(clear_call(calls[0]) && call_free_of(calls[0], TOOL_CALL_CLOSE@));
        assert forall|i: int| 0 <= i < others.len() implies clear_call(#[trigger] others[i])
            && call_free_of(others[i], TOOL_CALL_CLOSE@) by {
            assert(others[i] == calls[i + 1]);
        }
        let more = written_calls(others) + tail;
        let text = body_of(call) + (INVOKE_CLOSE@ + (call.gap + more));
        assert(written_calls(calls) + tail =~= tag("<invoke"@, call.name) + text);
        lemma_call_announced(st, out, lead, call.name, text);
        let p = advance(st, out, tools);
        assert(follows(more)) by {
            if others.len() == 0 {
                assert(more =~= TOOL_CALL_CLOSE@ + rest);
            } else {
                assert(clear_call(others[0]));
                let t = body_of(others[0]) + (INVOKE_CLOSE@ + (others[0].gap + written_calls(
                    others.skip(1),
                ))) + tail;
                assert(more =~= tag("<invoke"@, others[0].name) + t);
            }
        }
        lemma_call_streamed(p.state, p.out, tools, call, more);
        lemma_advance_consistent(p.state, p.out, tools);
        let q = advance(p.state, p.out, tools);
        assert(q.state.buffer.len() < p.state.buffer.len()) by {
            reveal_strlit("</invoke>");
        }
        assert(run(st, out, tools) == run(p.state, p.out, tools));
        assert(run(p.state, p.out, tools) == run(q.state, q.out, tools));
        let next = lemma_calls_streamed(q.state, q.out, tools, call.gap, others, rest);
        assert(with_items(q.out, calls_items(id + 1, others, tools)).calls =~= with_items(
            out,
            calls_items(id, calls, tools),
        ).calls);
        next
    }
}

/// Outside of a group, text is split into what is given through and what is held back.
pub proof fn lemma_text_held(st: MinimaxState, out: ResultModel)
    requires
        !contains(st.buffer, TOOL_CALL_OPEN@),
    ensures
        ({
            let p = seek_group(st, out);
            &&& !p.more
            &&& p.out.normal_text + p.state.buffer == st.buffer
            &&& p.out.normal_text.len() <= st.buffer.len()
            &&& p.out.calls == out.calls
        }),
{
    let p = seek_group(st, out);
    lemma_first_occurrence(st.buffer, TOOL_CALL_OPEN@);
    if partial_token(st.buffer, TOOL_CALL_OPEN@) is Some {
        let n = partial_token(st.buffer, TOOL_CALL_OPEN@)->0;
        assert(is_partial_token(st.buffer, TOOL_CALL_OPEN@, n));
    }
    assert(p.out.normal_text + p.state.buffer =~= st.buffer);
}

/// The calls of a group that comes in one piece are sent in their order, each with the next
/// index, its name, and its own parameters as one complete JSON object. Closing tags that stand
/// literally in the values are kept. Of the text, what follows the group is normal text, but for
/// what may be the beginning of another group.
pub proof fn lemma_group_streamed(
    st: MinimaxState,
    chunk: Seq<char>,
    tools: Seq<Tool>,
    lead: Seq<char>,
    group: MinimaxGroup,
    rest: Seq<char>,
)
    requires
        consistent(st),
        !st.in_call,
        !contains(lead, TOOL_CALL_OPEN@),
        !contains(group.head, "<invoke"@),
        !contains(group.head, TOOL_CALL_CLOSE@),
        clear_in_group(group.calls),
        !contains(rest, TOOL_CALL_OPEN@),
        st.buffer + chunk == lead + (TOOL_CALL_OPEN@ + (inner_of(group) + (TOOL_CALL_CLOSE@
            + rest))),
    ensures
        feed(st, chunk, tools).1.calls == calls_items(current(st), group.calls, tools),
        current(feed(st, chunk, tools).0) == current(st) + group.calls.len(),
        !feed(st, chunk, tools).0.in_call,
        feed(st, chunk, tools).1.normal_text + feed(st, chunk, tools).0.buffer == rest,
{
    lemma_invoke_tag();
    let start = MinimaxState { buffer: st.buffer + chunk, ..st };
    let none = ResultModel { normal_text: seq![], calls: seq![] };
    let inner = inner_of(group) + (TOOL_CALL_CLOSE@ + rest);
    lemma_consistent_with(st, start.buffer);
    lemma_first_behind(lead, TOOL_CALL_OPEN@, inner);
    lemma_advance_consistent(start, none, tools);
    let p = advance(start, none, tools);
    assert(start.buffer.skip(lead.len() as int + TOOL_CALL_OPEN@.len()) =~= inner);
    assert(inner =~= group.head + (written_calls(group.calls) + (TOOL_CALL_CLOSE@ + rest)));
    let next = lemma_calls_streamed(p.state, p.out, tools, group.head, group.calls, rest);
    let out = with_items(p.out, calls_items(current(st), group.calls, tools));
    lemma_first_occurrence(rest, TOOL_CALL_OPEN@);
    assert(run(start, none, tools) == run(next, out, tools));
    assert(!advance(next, out, tools).more);
    assert(out.calls =~= calls_items(current(st), group.calls, tools));
    lemma_text_held(next, out);
}

/// Reading the same parameters again sends nothing and changes nothing.
pub proof fn lemma_params_again(st: MinimaxState, text: Seq<char>, tools: Seq<Tool>)
    requires
        valid(st),
        st.name_sent,
    ensures
        ({
            let once = stream_params(st, text, tools).0;
            stream_params(once, text, tools) == (once, Seq::<ItemModel>::empty())
        }),
{
    let id = st.id->0;
    let once = stream_params(st, text, tools).0;
    let new = params_in(text, st.name, tools);
    if new.len() > 0 && !same_params(new, st.params) {
        lemma_nothing_added(new, new);
        let twice = stream_params(once, text, tools).0;
        assert(once.params == new);
        assert(padded(once.streamed, id + 1, seq![]) =~= once.streamed);
        assert(padded(once.calls, id + 1, None) =~= once.calls);
        assert(once.streamed[id] + Seq::<char>::empty() =~= once.streamed[id]);
        assert(twice.streamed =~= once.streamed);
        assert(twice.calls =~= once.calls);
    }
}

/// Reading parameters sends at most one item, which adds to the arguments of the current call;
/// where no parameter is complete, it sends nothing and changes nothing.
pub proof fn lemma_params_items(st: MinimaxState, text: Seq<char>, tools: Seq<Tool>)
    requires
        valid(st),
        st.name_sent,
    ensures
        stream_params(st, text, tools).1.len() <= 1,
        forall|k: int|
            0 <= k < stream_params(st, text, tools).1.len() ==> {
                let item = #[trigger] stream_params(st, text, tools).1[k];
                item.tool_index == current(st) && item.name is None
            },
        parameter_pairs(text).len() == 0 ==> stream_params(st, text, tools) == (
            st,
            Seq::<ItemModel>::empty(),
        ),
{
}

/// Outside of a group, text is given through as it is. No more of it is held back than what may
/// be the beginning of an opening tag.
pub proof fn lemma_text_passes(st: MinimaxState, chunk: Seq<char>, tools: Seq<Tool>)
    requires
        !st.in_call,
        !contains(st.buffer + chunk, TOOL_CALL_OPEN@),
    ensures
        ({
            let (next, out) = feed(st, chunk, tools);
            &&& out.normal_text + next.buffer == st.buffer + chunk
            &&& out.calls.len() == 0
            &&& next.buffer.len() < TOOL_CALL_OPEN@.len()
            &&& next.buffer == TOOL_CALL_OPEN@.take(next.buffer.len() as int)
        }),
{
    reveal_strlit("<minimax:tool_call>");
    let text = st.buffer + chunk;
    let (next, out) = feed(st, chunk, tools);
    lemma_first_occurrence(text, TOOL_CALL_OPEN@);
    if partial_token(text, TOOL_CALL_OPEN@) is Some {
        let n = partial_token(text, TOOL_CALL_OPEN@)->0;
        assert(is_partial_token(text, TOOL_CALL_OPEN@, n));
        assert(next.buffer =~= text.subrange(text.len() - n, text.len() as int));
    } else {
        assert(next.buffer =~= seq![]);
    }
    assert(out.normal_text + next.buffer =~= text);
    assert(next.buffer =~= TOOL_CALL_OPEN@.take(next.buffer.len() as int));
}

} // verus!
