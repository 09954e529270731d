//! The calls of MiniMax M2 are streamed whole, however the stream was cut into chunks.
use super::markup::{
    before_next, lemma_before_next, named_open, parameter_pairs, INVOKE_CLOSE, PARAM_CLOSE,
    TOOL_CALL_CLOSE, TOOL_CALL_OPEN,
};
use super::params::{
    distinct, lemma_collected_same, lemma_fragments_join, opening_fragment, same_params, Params,
};
use super::prefix::{
    clear_when_cut, lemma_end_cut, lemma_no_end, lemma_no_last, lemma_pairs_cut, lemma_partial_tag,
    lemma_tag_end, lemma_whole_grows, plain_tail, whole,
};
use super::round_trip::{
    body_of, clear_name, follows, inner_of, insides, lemma_before_next_is, lemma_close_ends_a_tag,
    lemma_no_named_open, lemma_parameters_round_trip, lemma_tags, pairs_of, tag, written_calls,
    written_groups, written_parameters, MinimaxCall, MinimaxGroup,
};
use super::stream::{
    advance, close_object, current, feed, params_in, run, stream_params, streamed_values,
    with_items, MinimaxState,
};
use super::streaming::{
    consistent, lemma_advance_consistent, lemma_call_announced, lemma_consistent_with,
    lemma_group_left, lemma_invoke_tag, lemma_stream_params, lemma_text_held, params_of, unsent,
};
use crate::parsers::helpers::{
    is_partial_token, joined, lemma_sent_by_concat, lemma_sent_by_one, only_arguments,
    partial_token, partial_token_at, properties_of, sent_before, sent_by,
};
use crate::text::concat::{
    lemma_contains_behind_tag, lemma_contains_concat, lemma_first_behind, lemma_skip_free,
    lemma_take_free, lone_head,
};
use crate::text::search::{contains, lemma_first_occurrence};
use crate::types::{name_item, nothing, ItemModel, ResultModel, Tool};
use vstd::prelude::*;

verus! {

/// The state after some chunks, and what was sent for them: the normal text, and the items.
pub open spec fn feed_all(st: MinimaxState, chunks: Seq<Seq<char>>, tools: Seq<Tool>) -> (
    MinimaxState,
    ResultModel,
)
    decreases chunks.len(),
{
    if chunks.len() == 0 {
        (st, nothing())
    } else {
        let (next, first) = feed(st, chunks[0], tools);
        let (end, more) = feed_all(next, chunks.skip(1), tools);
        (end, both(first, more))
    }
}

/// What was sent first, and then more.
pub open spec fn both(first: ResultModel, more: ResultModel) -> ResultModel {
    ResultModel {
        normal_text: first.normal_text + more.normal_text,
        calls: first.calls + more.calls,
    }
}

/// The text of a JSON object with these parameters; nothing, if there are none.
pub open spec fn object_text(params: Params) -> Seq<char> {
    if params.len() == 0 {
        seq![]
    } else {
        opening_fragment(params) + "}"@
    }
}

/// The items send the calls in their order, from the index `id` on: of each its name, and then,
/// in any number of parts, the object with its parameters.
pub open spec fn sent_in_order(
    items: Seq<ItemModel>,
    id: int,
    calls: Seq<MinimaxCall>,
    tools: Seq<Tool>,
) -> bool
    decreases calls.len(),
{
    if calls.len() == 0 {
        items.len() == 0
    } else {
        &&& items.len() > 0
        &&& items[0] == name_item(id, calls[0].name)
        &&& exists|n: int|
            {
                &&& 1 <= n <= items.len()
                &&& only_arguments(items.subrange(1, n), id)
                &&& sent_by(items.subrange(1, n), id) == object_text(params_of(calls[0], tools))
                &&& sent_in_order(#[trigger] items.skip(n), id + 1, calls.skip(1), tools)
            }
    }
}

/// The rest of a chunk and then some chunks: `out` is what the chunk sent so far.
#[verifier::opaque]
spec fn onward(
    st: MinimaxState,
    out: ResultModel,
    chunks: Seq<Seq<char>>,
    tools: Seq<Tool>,
) -> (MinimaxState, ResultModel) {
    let (mid, first) = run(st, out, tools);
    let (end, more) = feed_all(mid, chunks, tools);
    (end, both(first, more))
}

/// The state with a further chunk in its buffer.
spec fn with_chunk(st: MinimaxState, chunk: Seq<char>) -> MinimaxState {
    MinimaxState { buffer: st.buffer + chunk, ..st }
}

/// A step, and what follows it: more of the chunk, or the next chunk.
proof fn lemma_onward(
    st: MinimaxState,
    out: ResultModel,
    chunks: Seq<Seq<char>>,
    tools: Seq<Tool>,
)
    ensures
        ({
            let p = advance(st, out, tools);
            let all = onward(st, out, chunks, tools);
            if p.more && p.state.buffer.len() < st.buffer.len() {
                all == onward(p.state, p.out, chunks, tools)
            } else if chunks.len() == 0 {
                all == (p.state, p.out)
            } else {
                let (end, more) = onward(
                    with_chunk(p.state, chunks[0]),
                    nothing(),
                    chunks.skip(1),
                    tools,
                );
                all == (end, both(p.out, more))
            }
        }),
{
    reveal(onward);
    let p = advance(st, out, tools);
    if !(p.more && p.state.buffer.len() < st.buffer.len()) {
        assert(run(st, out, tools) == (p.state, p.out));
        if chunks.len() == 0 {
            assert(both(p.out, nothing()).normal_text =~= p.out.normal_text);
            assert(both(p.out, nothing()).calls =~= p.out.calls);
        }
    }
}

/// What is in the buffer and what is still to come do not change when a chunk comes.
proof fn lemma_next_chunk(st: MinimaxState, chunks: Seq<Seq<char>>)
    requires
        chunks.len() > 0,
    ensures
        with_chunk(st, chunks[0]).buffer + joined(chunks.skip(1)) == st.buffer + joined(chunks),
{
    assert(with_chunk(st, chunks[0]).buffer + joined(chunks.skip(1)) =~= st.buffer + joined(
        chunks,
    ));
}

/// What is in the buffer is a beginning of the text, all of it if nothing is to come.
proof fn lemma_buffered(st: MinimaxState, chunks: Seq<Seq<char>>, text: Seq<char>)
    requires
        st.buffer + joined(chunks) == text,
    ensures
        st.buffer.len() <= text.len(),
        st.buffer == text.take(st.buffer.len() as int),
        joined(chunks) == text.skip(st.buffer.len() as int),
        chunks.len() == 0 ==> st.buffer.len() == text.len(),
{
    let n = st.buffer.len() as int;
    assert(text.len() == n + joined(chunks).len());
    assert(text.take(n) =~= st.buffer);
    assert(text.skip(n) =~= joined(chunks));
}

/// What was sent when the first `k` parameters had come.
spec fn opened(params: Params, k: int) -> Seq<char> {
    if k <= 0 {
        seq![]
    } else {
        opening_fragment(params.take(k))
    }
}

/// The parser is inside the call, and has sent its first `k` parameters.
spec fn reading(st: MinimaxState, call: MinimaxCall, tools: Seq<Tool>, k: int) -> bool {
    let params = params_of(call, tools);
    &&& consistent(st)
    &&& st.in_call
    &&& st.name_sent
    &&& st.name == call.name
    &&& 0 <= k <= params.len()
    &&& st.params == params.take(k)
    &&& sent_before(st.streamed, current(st)) == opened(params, k)
}

/// The first parameters of a call whose names are distinct.
proof fn lemma_first_params(call: MinimaxCall, tools: Seq<Tool>, text: Seq<char>, k: int)
    requires
        clear_when_cut(call),
        0 <= k <= call.params.len(),
        parameter_pairs(text) == pairs_of(call.params).take(k),
    ensures
        params_of(call, tools).len() == call.params.len(),
        distinct(params_of(call, tools)),
        params_in(text, call.name, tools) == params_of(call, tools).take(k),
{
    let properties = properties_of(tools, call.name);
    let pairs = pairs_of(call.params);
    let all = streamed_values(pairs, properties);
    lemma_collected_same(all);
    let some = streamed_values(pairs.take(k), properties);
    assert(some =~= all.take(k));
    lemma_collected_same(some);
}

/// When more parameters of a call have come, what is sent continues what was sent.
proof fn lemma_params_step(
    st: MinimaxState,
    text: Seq<char>,
    tools: Seq<Tool>,
    call: MinimaxCall,
    k: int,
    m: int,
)
    requires
        reading(st, call, tools, k),
        distinct(params_of(call, tools)),
        k <= m <= params_of(call, tools).len(),
        params_in(text, call.name, tools) == params_of(call, tools).take(m),
    ensures
        ({
            let (next, items) = stream_params(st, text, tools);
            let params = params_of(call, tools);
            &&& reading(next, call, tools, m)
            &&& next.buffer == st.buffer
            &&& next.id == st.id
            &&& only_arguments(items, current(st))
            &&& opened(params, k) + sent_by(items, current(st)) == opened(params, m)
        }),
{
    let id = current(st);
    let params = params_of(call, tools);
    let new = params.take(m);
    let (next, items) = stream_params(st, text, tools);
    lemma_stream_params(st, text, tools, id);
    assert(sent_by(Seq::<ItemModel>::empty(), id).len() == 0);
    if new.len() == 0 || same_params(new, st.params) {
        assert(opened(params, k) + sent_by(items, id) =~= opened(params, m));
    } else if k > 0 {
        assert(new.take(k) =~= st.params);
        lemma_fragments_join(new, k);
    }
    assert(sent_before(next.streamed, id) =~= opened(params, m));
}

/// A chunk that does not complete a call.
proof fn lemma_part_read(
    st: MinimaxState,
    out: ResultModel,
    tools: Seq<Tool>,
    call: MinimaxCall,
    k: int,
)
    requires
        clear_when_cut(call),
        reading(st, call, tools, k),
        k <= whole(call.head, call.params, st.buffer.len() as int),
        st.buffer.len() < (body_of(call) + INVOKE_CLOSE@).len(),
        st.buffer == (body_of(call) + INVOKE_CLOSE@).take(st.buffer.len() as int),
    ensures
        ({
            let p = advance(st, out, tools);
            let m = whole(call.head, call.params, st.buffer.len() as int);
            let items = stream_params(st, st.buffer, tools).1;
            let params = params_of(call, tools);
            &&& !p.more
            &&& p.out == with_items(out, items)
            &&& reading(p.state, call, tools, m)
            &&& p.state.buffer == st.buffer
            &&& p.state.id == st.id
            &&& only_arguments(items, current(st))
            &&& opened(params, k) + sent_by(items, current(st)) == opened(params, m)
        }),
{
    lemma_tags();
    let n = st.buffer.len() as int;
    let close = INVOKE_CLOSE@;
    lemma_no_end(call, n);
    assert(plain_tail(close)) by {
        let none = Seq::<char>::empty();
        assert(close + none =~= close);
        assert(!contains(none, "<parameter"@) && !contains(none, PARAM_CLOSE@));
        assert(close[1] != "<parameter"@[1]) by {
            reveal_strlit("</invoke>");
            reveal_strlit("<parameter");
        }
        lemma_contains_behind_tag(close, none, "<parameter"@, 1);
        lemma_contains_behind_tag(close, none, PARAM_CLOSE@, 2);
    }
    assert(body_of(call) + close =~= call.head + (written_parameters(call.params) + close));
    lemma_pairs_cut(call.head, call.params, close, n);
    lemma_whole_grows(call.head, call.params, n, n);
    let m = whole(call.head, call.params, n);
    lemma_first_params(call, tools, st.buffer, m);
    lemma_params_step(st, st.buffer, tools, call, k, m);
}

/// The chunk that completes a call.
proof fn lemma_last_read(
    st: MinimaxState,
    out: ResultModel,
    tools: Seq<Tool>,
    call: MinimaxCall,
    k: int,
    more: Seq<char>,
) -> (items: Seq<ItemModel>)
    requires
        clear_when_cut(call),
        reading(st, call, tools, k),
        st.buffer == body_of(call) + (INVOKE_CLOSE@ + more),
        !contains(before_next(more), INVOKE_CLOSE@),
    ensures
        ({
            let p = advance(st, out, tools);
            let params = params_of(call, tools);
            &&& p.more
            &&& p.out == with_items(out, items)
            &&& p.state.buffer == more
            &&& more.len() < st.buffer.len()
            &&& p.state.in_call
            &&& !p.state.name_sent
            &&& p.state.params.len() == 0
            &&& p.state.id == Some(current(st) + 1)
            &&& consistent(p.state)
            &&& only_arguments(items, current(st))
            &&& opened(params, k) + sent_by(items, current(st)) == object_text(params)
        }),
{
    lemma_tags();
    reveal_strlit("{");
    let id = current(st);
    let body = body_of(call);
    let params = params_of(call, tools);
    let pairs = pairs_of(call.params);
    lemma_end_cut(call, more);
    assert(st.buffer.take(body.len() as int) =~= body);
    assert(st.buffer.skip(body.len() as int + INVOKE_CLOSE@.len()) =~= more);
    lemma_parameters_round_trip(call.head, call.params);
    assert(pairs.take(pairs.len() as int) =~= pairs);
    lemma_first_params(call, tools, body, call.params.len() as int);
    assert(params.take(params.len() as int) =~= params);
    lemma_params_step(st, body, tools, call, k, params.len() as int);
    let (next, sent) = stream_params(st, body, tools);
    let (streamed, closing) = close_object(next.streamed, id);
    if closing.len() > 0 {
        assert(closing =~= seq![closing[0]]);
        lemma_sent_by_one(closing[0], id);
    }
    lemma_sent_by_concat(sent, closing, id);
    lemma_advance_consistent(st, out, tools);
    let items = sent + closing;
    assert(out.calls + sent + closing =~= out.calls + items);
    assert(opened(params, k) + sent_by(items, id) =~= object_text(params));
    items
}

/// Inside of a group, the parser waits while neither a call nor the end of the group has come.
proof fn lemma_waits(st: MinimaxState, out: ResultModel, tools: Seq<Tool>)
    requires
        st.in_call,
        !st.name_sent,
        !contains(st.buffer, TOOL_CALL_CLOSE@),
        named_open(st.buffer, "<invoke"@) is None,
    ensures
        !advance(st, out, tools).more,
        advance(st, out, tools).state == st,
        advance(st, out, tools).out == out,
{
    lemma_first_occurrence(st.buffer, TOOL_CALL_CLOSE@);
}

/// Text between calls sends nothing.
proof fn lemma_gap_fed(
    st: MinimaxState,
    out: ResultModel,
    chunks: Seq<Seq<char>>,
    tools: Seq<Tool>,
    gap: Seq<char>,
)
    requires
        st.in_call,
        !st.name_sent,
        !contains(gap, "<invoke"@),
        !contains(gap, TOOL_CALL_CLOSE@),
        st.buffer + joined(chunks) == gap,
    ensures
        onward(st, out, chunks, tools) == (MinimaxState { buffer: gap, ..st }, out),
    decreases chunks.len(),
{
    let n = st.buffer.len() as int;
    assert(st.buffer =~= gap.take(n));
    lemma_take_free(gap, "<invoke"@, n);
    lemma_take_free(gap, TOOL_CALL_CLOSE@, n);
    lemma_no_named_open(st.buffer, "<invoke"@);
    lemma_waits(st, out, tools);
    lemma_onward(st, out, chunks, tools);
    if chunks.len() > 0 {
        lemma_next_chunk(st, chunks);
        lemma_gap_fed(with_chunk(st, chunks[0]), nothing(), chunks.skip(1), tools, gap);
        assert(both(out, nothing()).normal_text =~= out.normal_text);
        assert(both(out, nothing()).calls =~= out.calls);
    } else {
        assert(st.buffer + joined(chunks) =~= st.buffer);
    }
}

/// The rest of a call, however it is cut.
proof fn lemma_call_rest_cut(
    st: MinimaxState,
    out: ResultModel,
    chunks: Seq<Seq<char>>,
    tools: Seq<Tool>,
    call: MinimaxCall,
    k: int,
) -> (items: Seq<ItemModel>)
    requires
        clear_when_cut(call),
        reading(st, call, tools, k),
        k <= whole(call.head, call.params, st.buffer.len() as int),
        st.buffer + joined(chunks) == body_of(call) + (INVOKE_CLOSE@ + call.gap),
    ensures
        ({
            let (end, all) = onward(st, out, chunks, tools);
            let params = params_of(call, tools);
            &&& all.calls == out.calls + items
            &&& all.normal_text == out.normal_text
            &&& only_arguments(items, current(st))
            &&& opened(params, k) + sent_by(items, current(st)) == object_text(params)
            &&& consistent(end)
            &&& end.in_call
            &&& !end.name_sent
            &&& end.buffer == call.gap
            &&& current(end) == current(st) + 1
        }),
    decreases chunks.len(),
{
    let id = current(st);
    let n = st.buffer.len() as int;
    let full = body_of(call) + INVOKE_CLOSE@;
    let text = body_of(call) + (INVOKE_CLOSE@ + call.gap);
    let params = params_of(call, tools);
    lemma_buffered(st, chunks, text);
    lemma_onward(st, out, chunks, tools);
    if n < full.len() {
        assert(st.buffer =~= full.take(n));
        lemma_part_read(st, out, tools, call, k);
        let p = advance(st, out, tools);
        let first = stream_params(st, st.buffer, tools).1;
        let next = with_chunk(p.state, chunks[0]);
        let m = whole(call.head, call.params, n);
        lemma_next_chunk(p.state, chunks);
        lemma_consistent_with(p.state, next.buffer);
        lemma_whole_grows(call.head, call.params, n, next.buffer.len() as int);
        let more = lemma_call_rest_cut(next, nothing(), chunks.skip(1), tools, call, m);
        lemma_sent_by_concat(first, more, id);
        let items = first + more;
        assert(opened(params, k) + sent_by(items, id) =~= object_text(params));
        assert(both(p.out, onward(next, nothing(), chunks.skip(1), tools).1).calls =~= out.calls
            + items);
        assert(both(p.out, onward(next, nothing(), chunks.skip(1), tools).1).normal_text
            =~= out.normal_text);
        items
    } else {
        let more = call.gap.take(n - full.len());
        assert(st.buffer =~= body_of(call) + (INVOKE_CLOSE@ + more));
        lemma_before_next(more);
        lemma_take_free(call.gap, INVOKE_CLOSE@, more.len() as int);
        lemma_take_free(more, INVOKE_CLOSE@, before_next(more).len() as int);
        let items = lemma_last_read(st, out, tools, call, k, more);
        let p = advance(st, out, tools);
        assert(p.state.buffer + joined(chunks) =~= call.gap);
        lemma_gap_fed(p.state, p.out, chunks, tools, call.gap);
        lemma_consistent_with(p.state, call.gap);
        items
    }
}

/// The parts that are sent of a call are, put together, one complete JSON object with its
/// parameters, however the call is cut into chunks; nothing else is sent.
pub proof fn lemma_call_cut(
    st: MinimaxState,
    chunks: Seq<Seq<char>>,
    tools: Seq<Tool>,
    call: MinimaxCall,
)
    requires
        consistent(st),
        st.in_call,
        st.name_sent,
        st.name == call.name,
        st.params.len() == 0,
        clear_when_cut(call),
        chunks.len() > 0,
        st.buffer + joined(chunks) == body_of(call) + (INVOKE_CLOSE@ + call.gap),
    ensures
        ({
            let (end, all) = feed_all(st, chunks, tools);
            &&& sent_by(all.calls, current(st)) == object_text(params_of(call, tools))
            &&& only_arguments(all.calls, current(st))
            &&& all.normal_text.len() == 0
            &&& consistent(end)
            &&& end.in_call
            &&& !end.name_sent
            &&& end.buffer == call.gap
            &&& current(end) == current(st) + 1
        }),
{
    reveal(onward);
    let start = with_chunk(st, chunks[0]);
    let params = params_of(call, tools);
    lemma_next_chunk(st, chunks);
    lemma_consistent_with(st, start.buffer);
    lemma_whole_grows(call.head, call.params, 0, start.buffer.len() as int);
    assert(unsent(st, current(st)));
    assert(params.take(0) =~= st.params);
    assert(sent_before(st.streamed, current(st)) =~= opened(params, 0));
    let items = lemma_call_rest_cut(start, nothing(), chunks.skip(1), tools, call, 0);
    assert(feed_all(st, chunks, tools) == onward(start, nothing(), chunks.skip(1), tools));
    assert(nothing().calls + items =~= items);
    assert(opened(params, 0) + sent_by(items, current(st)) =~= sent_by(items, current(st)));
}

/// A pattern that ends with `>` does not stand in a text without it and the beginning of a tag.
proof fn lemma_partial_free(lead: Seq<char>, next: Seq<char>, n: int, pat: Seq<char>)
    requires
        !contains(lead, pat),
        lone_head(pat),
        pat.last() == '>',
        next.len() > 0,
        next[0] == pat[0],
        forall|j: int| 0 <= j < next.len() - 1 ==> #[trigger] next[j] != '>',
        0 <= n < lead.len() + next.len(),
    ensures
        !contains((lead + next).take(n), pat),
{
    let s = (lead + next).take(n);
    if n <= lead.len() {
        assert(s =~= lead.take(n));
        lemma_take_free(lead, pat, n);
    } else {
        let part = next.take(n - lead.len());
        assert(s =~= lead + part);
        lemma_no_last(part, pat);
        assert(part[0] == pat[0]);
        lemma_contains_concat(lead, part, pat);
    }
}

/// The tags that follow a call end with their only `>`.
proof fn lemma_next_tags(name: Seq<char>)
    requires
        clear_name(name),
    ensures
        ({
            let open = tag("<invoke"@, name);
            &&& open.len() > 0
            &&& open[0] == '<'
            &&& forall|j: int| 0 <= j < open.len() - 1 ==> #[trigger] open[j] != '>'
        }),
        forall|j: int|
            0 <= j < TOOL_CALL_CLOSE@.len() - 1 ==> #[trigger] TOOL_CALL_CLOSE@[j] != '>',
        lone_head(TOOL_CALL_CLOSE@),
        lone_head(INVOKE_CLOSE@),
        TOOL_CALL_CLOSE@[0] == '<',
        INVOKE_CLOSE@[0] == '<',
        TOOL_CALL_CLOSE@.last() == '>',
        INVOKE_CLOSE@.last() == '>',
{
    lemma_tags();
    lemma_close_ends_a_tag();
    reveal_strlit("</minimax:tool_call>");
    reveal_strlit("</invoke>");
    let open = tag("<invoke"@, name);
    assert(open[0] == "<invoke"@[0]);
    lemma_tag_end("<invoke"@, name, open.len() - 1);
    assert forall|j: int| 0 <= j < open.len() - 1 implies #[trigger] open[j] != '>' by {
        assert(open.take(open.len() - 1)[j] == open[j]);
    }
}

/// The next call has not come as long as its opening tag has not come whole.
proof fn lemma_tag_awaited(lead: Seq<char>, name: Seq<char>, n: int)
    requires
        !contains(lead, "<invoke"@),
        !contains(lead, TOOL_CALL_CLOSE@),
        clear_name(name),
        0 <= n < (lead + tag("<invoke"@, name)).len(),
    ensures
        !contains((lead + tag("<invoke"@, name)).take(n), TOOL_CALL_CLOSE@),
        named_open((lead + tag("<invoke"@, name)).take(n), "<invoke"@) is None,
{
    lemma_tags();
    lemma_close_ends_a_tag();
    lemma_next_tags(name);
    let open = tag("<invoke"@, name);
    let s = (lead + open).take(n);
    lemma_partial_free(lead, open, n, TOOL_CALL_CLOSE@);
    if n <= lead.len() {
        assert(s =~= lead.take(n));
        lemma_take_free(lead, "<invoke"@, n);
        lemma_no_named_open(s, "<invoke"@);
    } else {
        assert(s =~= lead + open.take(n - lead.len()));
        lemma_partial_tag(lead, "<invoke"@, name, n - lead.len());
    }
}

/// The end of the group has not come as long as its closing tag has not come whole.
proof fn lemma_close_awaited(lead: Seq<char>, n: int)
    requires
        !contains(lead, "<invoke"@),
        !contains(lead, TOOL_CALL_CLOSE@),
        0 <= n < (lead + TOOL_CALL_CLOSE@).len(),
    ensures
        !contains((lead + TOOL_CALL_CLOSE@).take(n), TOOL_CALL_CLOSE@),
        named_open((lead + TOOL_CALL_CLOSE@).take(n), "<invoke"@) is None,
{
    lemma_invoke_tag();
    let none = Seq::<char>::empty();
    let s = lead + TOOL_CALL_CLOSE@;
    assert(clear_name(none));
    lemma_next_tags(none);
    lemma_partial_free(lead, TOOL_CALL_CLOSE@, n, TOOL_CALL_CLOSE@);
    assert(!contains(none, "<invoke"@));
    assert(TOOL_CALL_CLOSE@ + none =~= TOOL_CALL_CLOSE@);
    lemma_contains_behind_tag(TOOL_CALL_CLOSE@, none, "<invoke"@, 1);
    lemma_contains_concat(lead, TOOL_CALL_CLOSE@, "<invoke"@);
    lemma_take_free(s, "<invoke"@, n);
    lemma_no_named_open(s.take(n), "<invoke"@);
}

/// The calls can be told from each other wherever the group is cut.
pub open spec fn clear_calls_when_cut(calls: Seq<MinimaxCall>) -> bool {
    forall|i: int| 0 <= i < calls.len() ==> clear_when_cut(#[trigger] calls[i])
}

proof fn lemma_clear_others(calls: Seq<MinimaxCall>)
    requires
        calls.len() > 0,
        clear_calls_when_cut(calls),
    ensures
        clear_when_cut(calls[0]),
        clear_calls_when_cut(calls.skip(1)),
{
    let others = calls.skip(1);
    assert forall|i: int| 0 <= i < others.len() implies clear_when_cut(#[trigger] others[i]) by {
        assert(others[i] == calls[i + 1]);
    }
    assert(clear_when_cut(calls[0]));
}

/// What is left of a group behind some text: its calls, its end, and what follows it.
spec fn to_come(calls: Seq<MinimaxCall>, rest: Seq<char>) -> Seq<char> {
    written_calls(calls) + (TOOL_CALL_CLOSE@ + rest)
}

/// The tag that comes next in the group: that of the next call, or that of its end.
spec fn next_tag(calls: Seq<MinimaxCall>) -> Seq<char> {
    if calls.len() == 0 {
        TOOL_CALL_CLOSE@
    } else {
        tag("<invoke"@, calls[0].name)
    }
}

/// What comes behind that tag.
spec fn behind_next(calls: Seq<MinimaxCall>, rest: Seq<char>) -> Seq<char> {
    if calls.len() == 0 {
        rest
    } else {
        body_of(calls[0]) + (INVOKE_CLOSE@ + (calls[0].gap + to_come(calls.skip(1), rest)))
    }
}

/// What is left of a group begins with its next tag.
proof fn lemma_to_come(calls: Seq<MinimaxCall>, rest: Seq<char>)
    ensures
        to_come(calls, rest) == next_tag(calls) + behind_next(calls, rest),
{
    assert(to_come(calls, rest) =~= next_tag(calls) + behind_next(calls, rest));
}

/// No closing tag of a call comes between a call and the next.
proof fn lemma_none_between(gap: Seq<char>, calls: Seq<MinimaxCall>, rest: Seq<char>, m: int)
    requires
        !contains(gap, "<invoke"@),
        !contains(gap, TOOL_CALL_CLOSE@),
        !contains(gap, INVOKE_CLOSE@),
        clear_calls_when_cut(calls),
        0 <= m <= (gap + to_come(calls, rest)).len(),
    ensures
        !contains(before_next((gap + to_come(calls, rest)).take(m)), INVOKE_CLOSE@),
{
    let s = gap + to_come(calls, rest);
    let u = s.take(m);
    let none = Seq::<char>::empty();
    let next = next_tag(calls);
    let behind = behind_next(calls, rest);
    lemma_to_come(calls, rest);
    if calls.len() == 0 {
        assert(clear_name(none));
        lemma_next_tags(none);
    } else {
        lemma_clear_others(calls);
        lemma_next_tags(calls[0].name);
    }
    if m < gap.len() + next.len() {
        assert(u =~= (gap + next).take(m));
        lemma_partial_free(gap, next, m, INVOKE_CLOSE@);
        lemma_before_next(u);
        lemma_take_free(u, INVOKE_CLOSE@, before_next(u).len() as int);
    } else {
        let t = behind.take(m - gap.len() - next.len());
        assert(u =~= gap + (next + t));
        assert(follows(next + t));
        lemma_before_next_is(gap, next + t);
    }
}

/// The groups can be told from each other and from the text between them wherever they are cut.
pub open spec fn clear_groups_when_cut(groups: Seq<(MinimaxGroup, Seq<char>)>) -> bool {
    forall|i: int|
        0 <= i < groups.len() ==> {
            &&& !contains((#[trigger] groups[i]).0.head, "<invoke"@)
            &&& !contains(groups[i].0.head, TOOL_CALL_CLOSE@)
            &&& clear_calls_when_cut(groups[i].0.calls)
            &&& !contains(groups[i].1, TOOL_CALL_OPEN@)
        }
}

/// The calls of some groups, one group after the other.
pub open spec fn all_calls(groups: Seq<(MinimaxGroup, Seq<char>)>) -> Seq<MinimaxCall>
    decreases groups.len(),
{
    if groups.len() == 0 {
        seq![]
    } else {
        groups[0].0.calls + all_calls(groups.skip(1))
    }
}

/// The text is that outside of the groups: `lead`, and what follows each of them. Of what stands
/// before a group, the end may be missing: it is not sent if the group ends in the chunk that it
/// came in.
pub open spec fn text_of(
    text: Seq<char>,
    lead: Seq<char>,
    groups: Seq<(MinimaxGroup, Seq<char>)>,
) -> bool
    decreases groups.len(),
{
    if groups.len() == 0 {
        text == lead
    } else {
        exists|k: int|
            {
                &&& 0 <= k <= lead.len()
                &&& k <= text.len()
                &&& text.take(k) == lead.take(k)
                &&& text_of(#[trigger] text.skip(k), groups[0].1, groups.skip(1))
            }
    }
}

/// Text before a group, and then more of it.
proof fn lemma_text_more(
    passed: Seq<char>,
    text: Seq<char>,
    lead: Seq<char>,
    groups: Seq<(MinimaxGroup, Seq<char>)>,
)
    requires
        groups.len() > 0,
        passed.len() <= lead.len(),
        passed == lead.take(passed.len() as int),
        text_of(text, lead.skip(passed.len() as int), groups),
    ensures
        text_of(passed + text, lead, groups),
{
    let e = passed.len() as int;
    let other = lead.skip(e);
    let k = choose|k: int|
        {
            &&& 0 <= k <= other.len()
            &&& k <= text.len()
            &&& text.take(k) == other.take(k)
            &&& text_of(#[trigger] text.skip(k), groups[0].1, groups.skip(1))
        };
    let all = passed + text;
    assert(all.take(e + k) =~= passed + text.take(k));
    assert(lead.take(e + k) =~= passed + other.take(k));
    assert(all.skip(e + k) =~= text.skip(k));
}

/// Text behind a group, with or without what stands before it.
proof fn lemma_text_begins(
    text: Seq<char>,
    lead: Seq<char>,
    groups: Seq<(MinimaxGroup, Seq<char>)>,
)
    requires
        groups.len() > 0,
        text_of(text, groups[0].1, groups.skip(1)),
    ensures
        text_of(text, lead, groups),
        text_of(lead + text, lead, groups),
{
    assert(text.skip(0) =~= text);
    assert(text.take(0) =~= lead.take(0));
    let n = lead.len() as int;
    assert((lead + text).skip(n) =~= text);
    assert((lead + text).take(n) =~= lead.take(n));
}

/// Some groups begin with the first.
proof fn lemma_groups_begin(groups: Seq<(MinimaxGroup, Seq<char>)>)
    requires
        groups.len() > 0,
    ensures
        written_groups(groups) == TOOL_CALL_OPEN@ + (groups[0].0.head + to_come(
            groups[0].0.calls,
            groups[0].1 + written_groups(groups.skip(1)),
        )),
        clear_groups_when_cut(groups) ==> {
            &&& !contains(groups[0].0.head, "<invoke"@)
            &&& !contains(groups[0].0.head, TOOL_CALL_CLOSE@)
            &&& clear_calls_when_cut(groups[0].0.calls)
            &&& !contains(groups[0].1, TOOL_CALL_OPEN@)
            &&& clear_groups_when_cut(groups.skip(1))
        },
{
    let more = groups.skip(1);
    assert(insides(groups).skip(1) =~= insides(more));
    assert(written_groups(groups) =~= TOOL_CALL_OPEN@ + (groups[0].0.head + to_come(
        groups[0].0.calls,
        groups[0].1 + written_groups(more),
    )));
    if clear_groups_when_cut(groups) {
        assert(!contains(groups[0].0.head, "<invoke"@));
        assert forall|i: int| 0 <= i < more.len() implies {
            &&& !contains((#[trigger] more[i]).0.head, "<invoke"@)
            &&& !contains(more[i].0.head, TOOL_CALL_CLOSE@)
            &&& clear_calls_when_cut(more[i].0.calls)
            &&& !contains(more[i].1, TOOL_CALL_OPEN@)
        } by {
            assert(more[i] == groups[i + 1]);
        }
    }
}

/// What the rest of a stream sends, behind what was sent of the current chunk: some items, and
/// text. The text of the current chunk is lost if the group ends in it.
#[verifier::opaque]
spec fn sends(
    st: MinimaxState,
    out: ResultModel,
    chunks: Seq<Seq<char>>,
    tools: Seq<Tool>,
    items: Seq<ItemModel>,
    calls: int,
    text: Seq<char>,
) -> bool {
    let (end, all) = onward(st, out, chunks, tools);
    &&& all.calls == out.calls + items
    &&& consistent(end)
    &&& !end.in_call
    &&& current(end) == current(st) + calls
    &&& all.normal_text + end.buffer == text || all.normal_text + end.buffer == out.normal_text
        + text
}

/// What is sent in a step and behind it.
proof fn lemma_sends(
    st: MinimaxState,
    out: ResultModel,
    chunks: Seq<Seq<char>>,
    tools: Seq<Tool>,
    first: Seq<ItemModel>,
    items: Seq<ItemModel>,
    calls: int,
    passed: int,
    text: Seq<char>,
)
    requires
        ({
            let p = advance(st, out, tools);
            &&& p.out == with_items(out, first)
            &&& current(p.state) == current(st) + passed
            &&& if p.more && p.state.buffer.len() < st.buffer.len() {
                sends(p.state, p.out, chunks, tools, items, calls, text)
            } else {
                &&& chunks.len() > 0
                &&& sends(
                    with_chunk(p.state, chunks[0]),
                    nothing(),
                    chunks.skip(1),
                    tools,
                    items,
                    calls,
                    text,
                )
            }
        }),
    ensures
        sends(st, out, chunks, tools, first + items, passed + calls, text),
{
    reveal(sends);
    lemma_onward(st, out, chunks, tools);
    let p = advance(st, out, tools);
    assert(out.calls + first + items =~= out.calls + (first + items));
    if !(p.more && p.state.buffer.len() < st.buffer.len()) {
        let (end, more) = onward(with_chunk(p.state, chunks[0]), nothing(), chunks.skip(1), tools);
        assert(nothing().calls + items =~= items);
        assert(nothing().normal_text + text =~= text);
        let all = both(p.out, more);
        assert(all.calls =~= out.calls + (first + items));
        assert(all.normal_text + end.buffer =~= out.normal_text + (more.normal_text + end.buffer));
    }
}

/// Outside of a group, text without another group passes.
proof fn lemma_rest_fed(
    st: MinimaxState,
    out: ResultModel,
    chunks: Seq<Seq<char>>,
    tools: Seq<Tool>,
    rest: Seq<char>,
)
    requires
        consistent(st),
        !st.in_call,
        !contains(rest, TOOL_CALL_OPEN@),
        st.buffer + joined(chunks) == rest,
    ensures
        ({
            let (end, all) = onward(st, out, chunks, tools);
            &&& all.calls == out.calls
            &&& all.normal_text + end.buffer == rest
            &&& consistent(end)
            &&& !end.in_call
            &&& current(end) == current(st)
        }),
    decreases chunks.len(),
{
    let n = st.buffer.len() as int;
    lemma_buffered(st, chunks, rest);
    lemma_take_free(rest, TOOL_CALL_OPEN@, n);
    lemma_text_held(st, out);
    lemma_advance_consistent(st, out, tools);
    lemma_onward(st, out, chunks, tools);
    let p = advance(st, out, tools);
    let text = p.out.normal_text;
    if chunks.len() == 0 {
        assert(rest.take(n) =~= rest);
    } else {
        let next = with_chunk(p.state, chunks[0]);
        let other = rest.skip(text.len() as int);
        lemma_next_chunk(p.state, chunks);
        assert(text + (p.state.buffer + joined(chunks)) =~= rest);
        assert(p.state.buffer + joined(chunks) =~= other);
        lemma_skip_free(rest, TOOL_CALL_OPEN@, text.len() as int);
        lemma_consistent_with(p.state, next.buffer);
        lemma_rest_fed(next, nothing(), chunks.skip(1), tools, other);
        let (end, more) = onward(next, nothing(), chunks.skip(1), tools);
        let all = both(p.out, more);
        assert(all.calls =~= out.calls);
        assert(all.normal_text + end.buffer =~= text + (more.normal_text + end.buffer));
        assert(text + other =~= rest);
    }
}

/// Between the calls of a group, the parser waits for the next tag.
proof fn lemma_tag_waits(
    st: MinimaxState,
    out: ResultModel,
    tools: Seq<Tool>,
    lead: Seq<char>,
    calls: Seq<MinimaxCall>,
)
    requires
        st.in_call,
        !st.name_sent,
        !contains(lead, "<invoke"@),
        !contains(lead, TOOL_CALL_CLOSE@),
        clear_calls_when_cut(calls),
        st.buffer.len() < (lead + next_tag(calls)).len(),
        st.buffer == (lead + next_tag(calls)).take(st.buffer.len() as int),
    ensures
        !advance(st, out, tools).more,
        advance(st, out, tools).state == st,
        advance(st, out, tools).out == out,
{
    let n = st.buffer.len() as int;
    if calls.len() > 0 {
        lemma_clear_others(calls);
        lemma_tag_awaited(lead, calls[0].name, n);
    } else {
        lemma_close_awaited(lead, n);
    }
    lemma_waits(st, out, tools);
}

/// A name, and what is sent of its call and of those that follow.
proof fn lemma_order(
    id: int,
    calls: Seq<MinimaxCall>,
    tools: Seq<Tool>,
    more: Seq<ItemModel>,
    m: int,
)
    requires
        calls.len() > 0,
        0 <= m <= more.len(),
        only_arguments(more.take(m), id),
        sent_by(more.take(m), id) == object_text(params_of(calls[0], tools)),
        sent_in_order(more.skip(m), id + 1, calls.skip(1), tools),
    ensures
        sent_in_order(seq![name_item(id, calls[0].name)] + more, id, calls, tools),
{
    let items = seq![name_item(id, calls[0].name)] + more;
    assert(items.subrange(1, m + 1) =~= more.take(m));
    assert(items.skip(m + 1) =~= more.skip(m));
}

/// The state in which a call was announced.
proof fn lemma_reading_begins(
    st: MinimaxState,
    out: ResultModel,
    tools: Seq<Tool>,
    lead: Seq<char>,
    call: MinimaxCall,
    part: Seq<char>,
)
    requires
        consistent(st),
        st.in_call,
        !st.name_sent,
        st.params.len() == 0,
        !contains(lead, "<invoke"@),
        !contains(lead, TOOL_CALL_CLOSE@),
        clear_when_cut(call),
        st.buffer == lead + (tag("<invoke"@, call.name) + part),
    ensures
        ({
            let p = advance(st, out, tools);
            &&& p.more
            &&& p.out == with_items(out, seq![name_item(current(st), call.name)])
            &&& p.state.buffer == part
            &&& part.len() < st.buffer.len()
            &&& current(p.state) == current(st)
            &&& reading(p.state, call, tools, 0)
        }),
{
    let id = current(st);
    let params = params_of(call, tools);
    lemma_call_announced(st, out, lead, call.name, part);
    lemma_advance_consistent(st, out, tools);
    let p = advance(st, out, tools);
    assert(unsent(p.state, id));
    assert(params.take(0) =~= p.state.params);
    assert(sent_before(p.state.streamed, id) =~= opened(params, 0));
}

/// At the end of a group: what is sent is what follows the group.
proof fn lemma_end_sends(
    st: MinimaxState,
    out: ResultModel,
    chunks: Seq<Seq<char>>,
    tools: Seq<Tool>,
    items: Seq<ItemModel>,
    calls: int,
    text: Seq<char>,
)
    requires
        ({
            let p = advance(st, out, tools);
            let (end, all) = onward(p.state, p.out, chunks, tools);
            &&& p.more
            &&& p.state.buffer.len() < st.buffer.len()
            &&& p.out == out
            &&& current(p.state) == current(st)
            &&& all.calls == out.calls + items
            &&& all.normal_text + end.buffer == text
            &&& consistent(end)
            &&& !end.in_call
            &&& current(end) == current(st) + calls
        }),
    ensures
        sends(st, out, chunks, tools, items, calls, text),
{
    reveal(sends);
    lemma_onward(st, out, chunks, tools);
}

/// Between the calls of a group, however the stream is cut: the items, and the text.
proof fn lemma_seek_cut(
    st: MinimaxState,
    out: ResultModel,
    chunks: Seq<Seq<char>>,
    tools: Seq<Tool>,
    lead: Seq<char>,
    calls: Seq<MinimaxCall>,
    text: Seq<char>,
    groups: Seq<(MinimaxGroup, Seq<char>)>,
) -> (r: (Seq<ItemModel>, Seq<char>))
    requires
        consistent(st),
        st.in_call,
        !st.name_sent,
        st.params.len() == 0,
        !contains(lead, "<invoke"@),
        !contains(lead, TOOL_CALL_CLOSE@),
        clear_calls_when_cut(calls),
        !contains(text, TOOL_CALL_OPEN@),
        clear_groups_when_cut(groups),
        st.buffer + joined(chunks) == lead + to_come(calls, text + written_groups(groups)),
    ensures
        sends(st, out, chunks, tools, r.0, (calls + all_calls(groups)).len() as int, r.1),
        sent_in_order(r.0, current(st), calls + all_calls(groups), tools),
        text_of(r.1, text, groups),
    decreases chunks.len(), st.buffer.len(),
{
    let n = st.buffer.len() as int;
    let id = current(st);
    let none = Seq::<ItemModel>::empty();
    let rest = text + written_groups(groups);
    let every = calls + all_calls(groups);
    let next = next_tag(calls);
    let behind = behind_next(calls, rest);
    lemma_to_come(calls, rest);
    lemma_buffered(st, chunks, lead + (next + behind));
    if n < lead.len() + next.len() {
        assert(st.buffer =~= (lead + next).take(n));
        lemma_tag_waits(st, out, tools, lead, calls);
        lemma_next_chunk(st, chunks);
        let after = with_chunk(st, chunks[0]);
        lemma_consistent_with(st, after.buffer);
        let (items, t) = lemma_seek_cut(
            after,
            nothing(),
            chunks.skip(1),
            tools,
            lead,
            calls,
            text,
            groups,
        );
        assert(with_items(out, none).calls =~= out.calls);
        lemma_sends(st, out, chunks, tools, none, items, every.len() as int, 0, t);
        assert(none + items =~= items);
        (items, t)
    } else {
        let part = behind.take(n - lead.len() - next.len());
        assert(st.buffer =~= lead + (next + part));
        assert(part + joined(chunks) =~= behind);
        let p = advance(st, out, tools);
        if calls.len() == 0 {
            lemma_group_left(st, out, lead, part);
            lemma_advance_consistent(st, out, tools);
            let (items, t) = lemma_open_cut(p.state, p.out, chunks, tools, text, groups);
            assert(every =~= all_calls(groups));
            lemma_end_sends(st, out, chunks, tools, items, every.len() as int, t);
            (items, t)
        } else {
            let call = calls[0];
            lemma_clear_others(calls);
            lemma_reading_begins(st, out, tools, lead, call, part);
            lemma_whole_grows(call.head, call.params, 0, part.len() as int);
            let (more, m, t) = lemma_read_cut(
                p.state,
                p.out,
                chunks,
                tools,
                call,
                0,
                calls.skip(1),
                text,
                groups,
            );
            let first = seq![name_item(id, call.name)];
            assert(every.skip(1) =~= calls.skip(1) + all_calls(groups));
            lemma_sends(st, out, chunks, tools, first, more, every.len() as int, 0, t);
            assert(opened(params_of(call, tools), 0) + sent_by(more.take(m), id) =~= sent_by(
                more.take(m),
                id,
            ));
            lemma_order(id, every, tools, more, m);
            (first + more, t)
        }
    }
}

/// Some arguments, and the first `j` of further items, which are arguments too.
proof fn lemma_parts_join(first: Seq<ItemModel>, more: Seq<ItemModel>, j: int, id: int)
    requires
        0 <= j <= more.len(),
        only_arguments(first, id),
        only_arguments(more.take(j), id),
    ensures
        ({
            let l = first.len() as int + j;
            &&& only_arguments((first + more).take(l), id)
            &&& sent_by((first + more).take(l), id) == sent_by(first, id) + sent_by(
                more.take(j),
                id,
            )
            &&& (first + more).skip(l) == more.skip(j)
        }),
{
    let l = first.len() as int + j;
    assert((first + more).take(l) =~= first + more.take(j));
    assert((first + more).skip(l) =~= more.skip(j));
    lemma_sent_by_concat(first, more.take(j), id);
}

/// Inside of a call, however the stream is cut: the items, the number of those that send what is
/// left of the call, and the text.
proof fn lemma_read_cut(
    st: MinimaxState,
    out: ResultModel,
    chunks: Seq<Seq<char>>,
    tools: Seq<Tool>,
    call: MinimaxCall,
    k: int,
    calls: Seq<MinimaxCall>,
    text: Seq<char>,
    groups: Seq<(MinimaxGroup, Seq<char>)>,
) -> (r: (Seq<ItemModel>, int, Seq<char>))
    requires
        clear_when_cut(call),
        reading(st, call, tools, k),
        k <= whole(call.head, call.params, st.buffer.len() as int),
        clear_calls_when_cut(calls),
        !contains(text, TOOL_CALL_OPEN@),
        clear_groups_when_cut(groups),
        st.buffer + joined(chunks) == body_of(call) + (INVOKE_CLOSE@ + (call.gap + to_come(
            calls,
            text + written_groups(groups),
        ))),
    ensures
        sends(st, out, chunks, tools, r.0, (calls + all_calls(groups)).len() as int + 1, r.2),
        0 <= r.1 <= r.0.len(),
        only_arguments(r.0.take(r.1), current(st)),
        opened(params_of(call, tools), k) + sent_by(r.0.take(r.1), current(st)) == object_text(
            params_of(call, tools),
        ),
        sent_in_order(r.0.skip(r.1), current(st) + 1, calls + all_calls(groups), tools),
        text_of(r.2, text, groups),
    decreases chunks.len(), st.buffer.len(),
{
    let id = current(st);
    let n = st.buffer.len() as int;
    let rest = text + written_groups(groups);
    let count = (calls + all_calls(groups)).len() as int;
    let full = body_of(call) + INVOKE_CLOSE@;
    let behind = call.gap + to_come(calls, rest);
    let params = params_of(call, tools);
    lemma_buffered(st, chunks, body_of(call) + (INVOKE_CLOSE@ + behind));
    let p = advance(st, out, tools);
    if n < full.len() {
        assert(st.buffer =~= full.take(n));
        lemma_part_read(st, out, tools, call, k);
        let first = stream_params(st, st.buffer, tools).1;
        let next = with_chunk(p.state, chunks[0]);
        let m = whole(call.head, call.params, n);
        lemma_next_chunk(p.state, chunks);
        lemma_consistent_with(p.state, next.buffer);
        lemma_whole_grows(call.head, call.params, n, next.buffer.len() as int);
        let (more, j, t) = lemma_read_cut(
            next,
            nothing(),
            chunks.skip(1),
            tools,
            call,
            m,
            calls,
            text,
            groups,
        );
        lemma_sends(st, out, chunks, tools, first, more, count + 1, 0, t);
        let items = first + more;
        let l = first.len() as int + j;
        lemma_parts_join(first, more, j, id);
        assert(opened(params, k) + sent_by(items.take(l), id) =~= object_text(params));
        (items, l, t)
    } else {
        let part = behind.take(n - full.len());
        assert(st.buffer =~= body_of(call) + (INVOKE_CLOSE@ + part));
        lemma_none_between(call.gap, calls, rest, n - full.len());
        let first = lemma_last_read(st, out, tools, call, k, part);
        assert(part + joined(chunks) =~= behind);
        let (more, t) = lemma_seek_cut(
            p.state,
            p.out,
            chunks,
            tools,
            call.gap,
            calls,
            text,
            groups,
        );
        lemma_sends(st, out, chunks, tools, first, more, count, 1, t);
        let items = first + more;
        let l = first.len() as int;
        assert(items.take(l) =~= first);
        assert(items.skip(l) =~= more);
        (items, l, t)
    }
}

/// The beginning of an opening tag is held back, whatever stands before it.
proof fn lemma_tag_held(lead: Seq<char>, n: int)
    requires
        !contains(lead, TOOL_CALL_OPEN@),
        0 <= n < (lead + TOOL_CALL_OPEN@).len(),
    ensures
        ({
            let s = (lead + TOOL_CALL_OPEN@).take(n);
            &&& !contains(s, TOOL_CALL_OPEN@)
            &&& n <= lead.len() || partial_token(s, TOOL_CALL_OPEN@) == Some(n - lead.len())
        }),
{
    lemma_invoke_tag();
    reveal_strlit("<minimax:tool_call>");
    let token = TOOL_CALL_OPEN@;
    let s = (lead + token).take(n);
    lemma_partial_free(lead, token, n, token);
    if n > lead.len() {
        let j = n - lead.len();
        assert(s.subrange(lead.len() as int, n) =~= token.take(j));
        assert(partial_token_at(s, token, j));
        assert forall|m: int| 0 < m < j implies !#[trigger] partial_token_at(s, token, m) by {
            if partial_token_at(s, token, m) {
                assert(s.subrange(n - m, n)[0] == token[j - m]);
                assert(token.take(m)[0] == token[0]);
            }
        }
        assert(is_partial_token(s, token, j));
        let other = partial_token(s, token)->0;
        assert(is_partial_token(s, token, other));
    }
}

/// Before a group, text passes, and the beginning of its opening tag is held back.
proof fn lemma_lead_passes(
    st: MinimaxState,
    out: ResultModel,
    chunks: Seq<Seq<char>>,
    tools: Seq<Tool>,
    lead: Seq<char>,
    behind: Seq<char>,
)
    requires
        !st.in_call,
        !contains(lead, TOOL_CALL_OPEN@),
        st.buffer.len() < (lead + TOOL_CALL_OPEN@).len(),
        st.buffer + joined(chunks) == lead + (TOOL_CALL_OPEN@ + behind),
    ensures
        ({
            let p = advance(st, out, tools);
            let e = p.out.normal_text.len() as int;
            &&& !p.more
            &&& p.out.calls == out.calls
            &&& e <= lead.len()
            &&& p.out.normal_text == lead.take(e)
            &&& !contains(lead.skip(e), TOOL_CALL_OPEN@)
            &&& p.state.buffer + joined(chunks) == lead.skip(e) + (TOOL_CALL_OPEN@ + behind)
            &&& !p.state.in_call
            &&& p.state.id == st.id
            &&& chunks.len() > 0
        }),
{
    let n = st.buffer.len() as int;
    let text = lead + (TOOL_CALL_OPEN@ + behind);
    lemma_buffered(st, chunks, text);
    assert(st.buffer =~= (lead + TOOL_CALL_OPEN@).take(n));
    lemma_tag_held(lead, n);
    lemma_text_held(st, out);
    lemma_first_occurrence(st.buffer, TOOL_CALL_OPEN@);
    let p = advance(st, out, tools);
    let passed = p.out.normal_text;
    let e = passed.len() as int;
    assert(e <= lead.len());
    assert((passed + p.state.buffer).take(e) =~= passed);
    assert(st.buffer.take(e) =~= lead.take(e));
    lemma_skip_free(lead, TOOL_CALL_OPEN@, e);
    assert(passed + (p.state.buffer + joined(chunks)) =~= text);
    assert((passed + (p.state.buffer + joined(chunks))).skip(e) =~= p.state.buffer + joined(
        chunks,
    ));
    assert(text.skip(e) =~= lead.skip(e) + (TOOL_CALL_OPEN@ + behind));
}

/// The opening tag of a group has come.
proof fn lemma_group_entered(
    st: MinimaxState,
    out: ResultModel,
    tools: Seq<Tool>,
    lead: Seq<char>,
    part: Seq<char>,
)
    requires
        consistent(st),
        !st.in_call,
        !contains(lead, TOOL_CALL_OPEN@),
        st.buffer == lead + (TOOL_CALL_OPEN@ + part),
    ensures
        ({
            let p = advance(st, out, tools);
            &&& p.more
            &&& p.out == ResultModel { normal_text: lead, calls: out.calls }
            &&& p.state.buffer == part
            &&& part.len() < st.buffer.len()
            &&& p.state.in_call
            &&& !p.state.name_sent
            &&& p.state.params.len() == 0
            &&& current(p.state) == current(st)
            &&& consistent(p.state)
        }),
{
    lemma_invoke_tag();
    lemma_first_behind(lead, TOOL_CALL_OPEN@, part);
    lemma_advance_consistent(st, out, tools);
    let p = advance(st, out, tools);
    assert(p.state.buffer =~= part);
    assert(p.out.normal_text =~= lead);
}

/// Outside of the groups, however the stream is cut: the items, and the text.
proof fn lemma_open_cut(
    st: MinimaxState,
    out: ResultModel,
    chunks: Seq<Seq<char>>,
    tools: Seq<Tool>,
    lead: Seq<char>,
    groups: Seq<(MinimaxGroup, Seq<char>)>,
) -> (r: (Seq<ItemModel>, Seq<char>))
    requires
        consistent(st),
        !st.in_call,
        !contains(lead, TOOL_CALL_OPEN@),
        clear_groups_when_cut(groups),
        st.buffer + joined(chunks) == lead + written_groups(groups),
    ensures
        ({
            let (end, all) = onward(st, out, chunks, tools);
            &&& all.calls == out.calls + r.0
            &&& all.normal_text + end.buffer == r.1
            &&& sent_in_order(r.0, current(st), all_calls(groups), tools)
            &&& text_of(r.1, lead, groups)
            &&& consistent(end)
            &&& !end.in_call
            &&& current(end) == current(st) + all_calls(groups).len()
        }),
    decreases chunks.len(), st.buffer.len(),
{
    let none = Seq::<ItemModel>::empty();
    if groups.len() == 0 {
        assert(lead + written_groups(groups) =~= lead);
        lemma_rest_fed(st, out, chunks, tools, lead);
        assert(out.calls + none =~= out.calls);
        (none, lead)
    } else {
        let n = st.buffer.len() as int;
        let group = groups[0].0;
        let more = groups.skip(1);
        let rest = groups[0].1 + written_groups(more);
        let inner = group.head + to_come(group.calls, rest);
        lemma_groups_begin(groups);
        lemma_buffered(st, chunks, lead + (TOOL_CALL_OPEN@ + inner));
        lemma_onward(st, out, chunks, tools);
        let p = advance(st, out, tools);
        if n < lead.len() + TOOL_CALL_OPEN@.len() {
            lemma_lead_passes(st, out, chunks, tools, lead, inner);
            lemma_advance_consistent(st, out, tools);
            let passed = p.out.normal_text;
            let other = lead.skip(passed.len() as int);
            let next = with_chunk(p.state, chunks[0]);
            lemma_next_chunk(p.state, chunks);
            lemma_consistent_with(p.state, next.buffer);
            let (items, t) = lemma_open_cut(
                next,
                nothing(),
                chunks.skip(1),
                tools,
                other,
                groups,
            );
            let (end, others) = onward(next, nothing(), chunks.skip(1), tools);
            let all = both(p.out, others);
            assert(nothing().calls + items =~= items);
            assert(all.normal_text + end.buffer =~= passed + t);
            lemma_text_more(passed, t, lead, groups);
            (items, passed + t)
        } else {
            let part = inner.take(n - lead.len() - TOOL_CALL_OPEN@.len());
            assert(st.buffer =~= lead + (TOOL_CALL_OPEN@ + part));
            lemma_group_entered(st, out, tools, lead, part);
            assert(part + joined(chunks) =~= inner);
            let (items, t) = lemma_seek_cut(
                p.state,
                p.out,
                chunks,
                tools,
                group.head,
                group.calls,
                groups[0].1,
                more,
            );
            reveal(sends);
            let (end, all) = onward(p.state, p.out, chunks, tools);
            lemma_text_begins(t, lead, groups);
            if all.normal_text + end.buffer == t {
                (items, t)
            } else {
                (items, lead + t)
            }
        }
    }
}

/// The calls of the groups of a stream are sent in their order, however the stream is cut into
/// chunks: each has the next index, its name comes first, and the parts that follow are, put
/// together, one complete JSON object with its parameters. No markup gets into the normal text.
pub proof fn lemma_stream_cut(
    st: MinimaxState,
    chunks: Seq<Seq<char>>,
    tools: Seq<Tool>,
    lead: Seq<char>,
    groups: Seq<(MinimaxGroup, Seq<char>)>,
)
    requires
        consistent(st),
        !st.in_call,
        chunks.len() > 0,
        !contains(lead, TOOL_CALL_OPEN@),
        clear_groups_when_cut(groups),
        st.buffer + joined(chunks) == lead + written_groups(groups),
    ensures
        ({
            let (end, all) = feed_all(st, chunks, tools);
            &&& sent_in_order(all.calls, current(st), all_calls(groups), tools)
            &&& text_of(all.normal_text + end.buffer, lead, groups)
            &&& consistent(end)
            &&& !end.in_call
            &&& current(end) == current(st) + all_calls(groups).len()
        }),
{
    reveal(onward);
    let start = with_chunk(st, chunks[0]);
    lemma_next_chunk(st, chunks);
    lemma_consistent_with(st, start.buffer);
    let (items, t) = lemma_open_cut(start, nothing(), chunks.skip(1), tools, lead, groups);
    assert(feed_all(st, chunks, tools) == onward(start, nothing(), chunks.skip(1), tools));
    assert(nothing().calls + items =~= items);
}

/// The calls of a group are sent in their order, however the stream is cut into chunks: each has
/// the next index, its name comes first, and the parts that follow are, put together, one complete
/// JSON object with its parameters. No markup gets into the normal text: it is what follows the
/// group, and before that what came before it. Where the group opens and ends in one chunk, that
/// chunk does not send what it has before the group.
pub proof fn lemma_group_cut(
    st: MinimaxState,
    chunks: Seq<Seq<char>>,
    tools: Seq<Tool>,
    lead: Seq<char>,
    group: MinimaxGroup,
    rest: Seq<char>,
)
    requires
        consistent(st),
        !st.in_call,
        chunks.len() > 0,
        !contains(lead, TOOL_CALL_OPEN@),
        !contains(group.head, "<invoke"@),
        !contains(group.head, TOOL_CALL_CLOSE@),
        clear_calls_when_cut(group.calls),
        !contains(rest, TOOL_CALL_OPEN@),
        st.buffer + joined(chunks) == lead + (TOOL_CALL_OPEN@ + (inner_of(group) + (TOOL_CALL_CLOSE@
            + rest))),
    ensures
        ({
            let (end, all) = feed_all(st, chunks, tools);
            &&& sent_in_order(all.calls, current(st), group.calls, tools)
            &&& consistent(end)
            &&& !end.in_call
            &&& current(end) == current(st) + group.calls.len()
            &&& exists|k: int|
                0 <= k <= lead.len() && all.normal_text + end.buffer == #[trigger] lead.take(k)
                    + rest
        }),
{
    let groups = seq![(group, rest)];
    let none = Seq::<(MinimaxGroup, Seq<char>)>::empty();
    assert(groups.skip(1) =~= none);
    lemma_groups_begin(groups);
    assert(rest + written_groups(none) =~= rest);
    assert(inner_of(group) + (TOOL_CALL_CLOSE@ + rest) =~= group.head + to_come(
        group.calls,
        rest,
    ));
    lemma_stream_cut(st, chunks, tools, lead, groups);
    assert(all_calls(none) =~= seq![]);
    assert(all_calls(groups) =~= group.calls);
    let (end, all) = feed_all(st, chunks, tools);
    let t = all.normal_text + end.buffer;
    let k = choose|k: int|
        {
            &&& 0 <= k <= lead.len()
            &&& k <= t.len()
            &&& t.take(k) == lead.take(k)
            &&& text_of(#[trigger] t.skip(k), rest, none)
        };
    assert(text_of(t.skip(k), rest, none));
    assert(t =~= t.take(k) + t.skip(k));
    assert(t == lead.take(k) + rest);
}

} // verus!
