//! What the calls of GLM-4 carry, and what becomes of the text round them.
use super::round_trip::{
    call_model, clear_calls, lemma_insides_clear, lemma_round_trip, lemma_tags, trimmed_pairs,
    written_calls, GlmCall,
};
use super::streaming::{lemma_call_sent, lemma_first_block, lemma_prepared, next_index, valid};
use super::{
    argument_of, argument_pairs, arguments_of, block_call, blocks_calls, complete, feed,
    split_block, text_calls, GlmFormat, GlmState, ARG_KEY_CLOSE, ARG_KEY_OPEN, ARG_VAL_CLOSE,
    ARG_VAL_OPEN, CLOSE, OPEN,
};
use crate::json::{json_text, members_of, parsed_json, JsonModel, Members};
use crate::parsers::helpers::{joined, properties_of};
use crate::parsers::spans::{
    before_open, blocks, clear_blocks, lemma_before_open_bounds, lemma_blocks_written,
    lemma_spans_unclosed, spans, written_blocks,
};
use crate::parsers::values::{
    by_json, by_schema, is_last_of, lemma_by_schema, lemma_inferred_value, lemma_members, undecided,
};
use crate::text::concat::{
    lemma_contains_behind_tag, lemma_contains_concat, lemma_first_behind, lemma_last_concat,
    lemma_pattern_then, lemma_skip_free, lemma_take_free, lone_head,
};
use crate::text::edit::{
    blank, lemma_trimmed_end_is, lemma_trimmed_is, lemma_trimmed_padded, lemma_trimmed_start_is,
    trimmed, trimmed_end, trimmed_start, without_prefix, without_suffix,
};
use crate::text::search::{
    contains, first_occurrence, is_first, lemma_first_is, lemma_first_occurrence,
    lemma_last_occurrence, occurs_at,
};
use crate::types::{CallModel, ItemModel, Tool};
use vstd::prelude::*;

verus! {

/// The value that an argument with this text has: by the schema of the tool, or else as JSON and
/// by its looks.
pub open spec fn is_argument(
    value: JsonModel,
    text: Seq<char>,
    tools: Seq<Tool>,
    name: Seq<char>,
    key: Seq<char>,
) -> bool {
    &&& by_schema(value, text, tools, name, key)
    &&& undecided(text, tools, name, key) ==> by_json(value, text)
}

/// The value of an argument is that of its text.
pub proof fn lemma_argument(key: Seq<char>, raw: Seq<char>, tools: Seq<Tool>, name: Seq<char>)
    ensures
        is_argument(argument_of(key, raw, properties_of(tools, name)), raw, tools, name, key),
{
    lemma_by_schema(raw, tools, name, key);
    lemma_inferred_value(raw);
}

/// `i` is the last of the arguments of that key.
pub open spec fn is_last_argument(call: GlmCall, i: int) -> bool {
    is_last_of(trimmed_pairs(call.arguments), i)
}

/// The members are those of a call: its arguments and nothing else, each with the value of its
/// text. Of two arguments with one key, the later stays.
pub open spec fn carries(members: Members, call: GlmCall, tools: Seq<Tool>) -> bool {
    &&& forall|key: Seq<char>| #[trigger]
        members.contains_key(key) <==> exists|i: int|
            0 <= i < call.arguments.len() && trimmed((#[trigger] call.arguments[i]).0) == key
    &&& forall|i: int| #[trigger]
        is_last_argument(call, i) ==> is_argument(
            members[trimmed(call.arguments[i].0)],
            trimmed(call.arguments[i].1),
            tools,
            trimmed(call.name),
            trimmed(call.arguments[i].0),
        )
}

/// The call that is given to the caller is the one that was written: its name, and the text of a
/// JSON object with its arguments.
pub open spec fn is_call(
    name: Seq<char>,
    arguments: Seq<char>,
    call: GlmCall,
    tools: Seq<Tool>,
) -> bool {
    &&& name == trimmed(call.name)
    &&& exists|members: Members|
        arguments == json_text(JsonModel::Object(members)) && #[trigger] carries(
            members,
            call,
            tools,
        )
}

proof fn lemma_call_model(call: GlmCall, tools: Seq<Tool>)
    ensures
        is_call(call_model(call, tools).name, call_model(call, tools).arguments, call, tools),
{
    let pairs = trimmed_pairs(call.arguments);
    let name = trimmed(call.name);
    let arguments = arguments_of(pairs, properties_of(tools, name));
    let members = members_of(arguments);
    lemma_members(arguments);
    assert forall|key: Seq<char>| #[trigger]
        members.contains_key(key) <==> exists|i: int|
            0 <= i < call.arguments.len() && trimmed((#[trigger] call.arguments[i]).0) == key by {
        if members.contains_key(key) {
            let i = choose|i: int| 0 <= i < arguments.len() && (#[trigger] arguments[i]).0 == key;
            assert(trimmed(call.arguments[i].0) == key);
        }
        if exists|i: int|
            0 <= i < call.arguments.len() && trimmed((#[trigger] call.arguments[i]).0) == key {
            let i = choose|i: int|
                0 <= i < call.arguments.len() && trimmed((#[trigger] call.arguments[i]).0) == key;
            assert(arguments[i].0 == key);
        }
    }
    assert forall|i: int| #[trigger] is_last_argument(call, i) implies is_argument(
        members[trimmed(call.arguments[i].0)],
        trimmed(call.arguments[i].1),
        tools,
        name,
        trimmed(call.arguments[i].0),
    ) by {
        assert forall|j: int| i < j < arguments.len() implies (#[trigger] arguments[j]).0
            != arguments[i].0 by {
            assert(pairs[j].0 != pairs[i].0);
        }
        assert(is_last_of(arguments, i));
        lemma_argument(pairs[i].0, pairs[i].1, tools, name);
    }
    assert(carries(members, call, tools));
}

/// The calls of a complete text are those that were written in it, in their order, each with its
/// name and its arguments: each value of the type that the tool declares for it, and else JSON or
/// by its looks. The normal text is what stands before the calls.
pub proof fn lemma_calls_carry(
    format: GlmFormat,
    lead: Seq<char>,
    items: Seq<(GlmCall, Seq<char>)>,
    tools: Seq<Tool>,
)
    requires
        !contains(lead, OPEN@),
        clear_calls(format, items),
    ensures
        complete(format, lead + written_calls(format, items), tools).0 == lead,
        complete(format, lead + written_calls(format, items), tools).1.len() == items.len(),
        forall|i: int|
            0 <= i < items.len() ==> is_call(
                (#[trigger] complete(format, lead + written_calls(format, items), tools).1[i]).name,
                complete(format, lead + written_calls(format, items), tools).1[i].arguments,
                items[i].0,
                tools,
            ),
{
    lemma_round_trip(format, lead, items, tools);
    let calls = complete(format, lead + written_calls(format, items), tools).1;
    assert forall|i: int| 0 <= i < items.len() implies is_call(
        (#[trigger] calls[i]).name,
        calls[i].arguments,
        items[i].0,
        tools,
    ) by {
        lemma_call_model(items[i].0, tools);
    }
}

/// The first call of a stream that has come whole is sent at once, at the next index, with its
/// name and all of its arguments. The text before it passes, without the white space around it,
/// and the text past it stays.
pub proof fn lemma_sent_call_carries(
    format: GlmFormat,
    st: GlmState,
    chunk: Seq<char>,
    lead: Seq<char>,
    items: Seq<(GlmCall, Seq<char>)>,
    tools: Seq<Tool>,
)
    requires
        valid(st),
        st.buffer + chunk == lead + written_calls(format, items),
        !contains(lead, OPEN@),
        clear_calls(format, items),
        items.len() > 0,
        exists|j: int|
            0 <= j < tools.len() && (#[trigger] tools[j]).function.name@ == trimmed(
                items[0].0.name,
            ),
    ensures
        ({
            let (next, out) = feed(format, st, chunk, tools);
            &&& out.normal_text == trimmed(lead)
            &&& out.calls.len() == 1
            &&& out.calls[0].tool_index == (match st.id {
                Some(id) => id,
                None => 0,
            })
            &&& out.calls[0].name matches Some(name)
            &&& is_call(name, out.calls[0].parameters, items[0].0, tools)
            &&& next.buffer == items[0].1 + written_calls(format, items.skip(1))
        }),
{
    lemma_call_sent(format, st, chunk, lead, items, tools);
    lemma_call_model(items[0].0, tools);
}

/// A call of an unknown tool is not sent, and its text is dropped.
pub proof fn lemma_unknown_dropped(
    format: GlmFormat,
    st: GlmState,
    chunk: Seq<char>,
    lead: Seq<char>,
    items: Seq<(GlmCall, Seq<char>)>,
    tools: Seq<Tool>,
)
    requires
        valid(st),
        st.buffer + chunk == lead + written_calls(format, items),
        !contains(lead, OPEN@),
        clear_calls(format, items),
        items.len() > 0,
        forall|j: int|
            0 <= j < tools.len() ==> (#[trigger] tools[j]).function.name@ != trimmed(
                items[0].0.name,
            ),
    ensures
        ({
            let (next, out) = feed(format, st, chunk, tools);
            &&& out.normal_text.len() == 0
            &&& out.calls.len() == 0
            &&& next.buffer.len() == 0
            &&& next_index(next) == next_index(st)
        }),
{
    lemma_first_block(format, st.buffer + chunk, lead, items, tools);
    lemma_prepared(st);
}

/// Only calls of known tools are sent, one for a chunk at the most, by their names and all of
/// their arguments at once.
pub proof fn lemma_known_only(format: GlmFormat, st: GlmState, chunk: Seq<char>, tools: Seq<Tool>)
    ensures
        feed(format, st, chunk, tools).1.calls.len() <= 1,
        forall|k: int|
            0 <= k < feed(format, st, chunk, tools).1.calls.len() ==> {
                &&& (#[trigger] feed(format, st, chunk, tools).1.calls[k]).name matches Some(name)
                &&& exists|j: int|
                    0 <= j < tools.len() && (#[trigger] tools[j]).function.name@ == name
            },
{
}

/// Before any call was sent, text without the opening tag of a call passes as it is, character for
/// character, and nothing is held back.
pub proof fn lemma_text_passes(format: GlmFormat, st: GlmState, chunk: Seq<char>, tools: Seq<Tool>)
    requires
        st.id is None || st.id == Some(0int),
        !contains(st.buffer + chunk, OPEN@),
    ensures
        feed(format, st, chunk, tools).1.normal_text == st.buffer + chunk,
        feed(format, st, chunk, tools).1.calls.len() == 0,
        feed(format, st, chunk, tools).0 == (GlmState { buffer: Seq::empty(), ..st }),
{
    lemma_first_occurrence(st.buffer + chunk, OPEN@);
}

/// After a call was sent, text without the opening tag of a call does not pass.
pub proof fn lemma_text_dropped(format: GlmFormat, st: GlmState, chunk: Seq<char>, tools: Seq<Tool>)
    requires
        st.id matches Some(id) && id > 0,
        !contains(st.buffer + chunk, OPEN@),
    ensures
        feed(format, st, chunk, tools).1.normal_text.len() == 0,
        feed(format, st, chunk, tools).1.calls.len() == 0,
        feed(format, st, chunk, tools).0 == (GlmState { buffer: Seq::empty(), ..st }),
{
    lemma_first_occurrence(st.buffer + chunk, OPEN@);
}

/// The normal text that some chunks give, one after the other, and the items.
pub open spec fn passed(
    format: GlmFormat,
    st: GlmState,
    chunks: Seq<Seq<char>>,
    tools: Seq<Tool>,
) -> (Seq<char>, Seq<ItemModel>)
    decreases chunks.len(),
{
    if chunks.len() == 0 {
        (seq![], seq![])
    } else {
        let (next, out) = feed(format, st, chunks[0], tools);
        let (text, items) = passed(format, next, chunks.skip(1), tools);
        (out.normal_text + text, out.calls + items)
    }
}

/// A stream of text, in whatever chunks, passes as it was written.
pub proof fn lemma_text_stream(
    format: GlmFormat,
    st: GlmState,
    chunks: Seq<Seq<char>>,
    tools: Seq<Tool>,
)
    requires
        st.id is None || st.id == Some(0int),
        st.buffer.len() == 0,
        forall|i: int| 0 <= i < chunks.len() ==> !contains(#[trigger] chunks[i], OPEN@),
    ensures
        passed(format, st, chunks, tools).0 == joined(chunks),
        passed(format, st, chunks, tools).1.len() == 0,
    decreases chunks.len(),
{
    if chunks.len() > 0 {
        let more = chunks.skip(1);
        assert(!contains(chunks[0], OPEN@));
        assert(st.buffer + chunks[0] =~= chunks[0]);
        lemma_text_passes(format, st, chunks[0], tools);
        assert forall|i: int| 0 <= i < more.len() implies !contains(#[trigger] more[i], OPEN@) by {
            assert(more[i] == chunks[i + 1]);
        }
        lemma_text_stream(format, feed(format, st, chunks[0], tools).0, more, tools);
    }
}

proof fn lemma_open_tags()
    ensures
        lone_head(OPEN@),
        OPEN@.len() > 0,
        CLOSE@.len() > 0,
{
    reveal_strlit("<tool_call>");
    reveal_strlit("</tool_call>");
}

proof fn lemma_unclosed_spans(lead: Seq<char>, rest: Seq<char>)
    requires
        !contains(lead, OPEN@),
        !contains(rest, CLOSE@),
    ensures
        first_occurrence(lead + (OPEN@ + rest), OPEN@) == Some(lead.len() as int),
        spans(lead + (OPEN@ + rest), OPEN@, CLOSE@, 0).len() == 0,
{
    lemma_open_tags();
    let text = lead + (OPEN@ + rest);
    lemma_first_behind(lead, OPEN@, rest);
    assert(text.skip(0) =~= text);
    let inner = lead.len() + OPEN@.len();
    assert(text.skip(inner as int) =~= rest);
    let region = before_open(rest, OPEN@);
    lemma_before_open_bounds(rest, OPEN@);
    lemma_take_free(rest, CLOSE@, region.len() as int);
    lemma_last_occurrence(region, CLOSE@);
}

/// The text before the opening tag of a call passes as it is, and the rest stays until the call
/// has come whole.
pub proof fn lemma_call_awaited(
    format: GlmFormat,
    st: GlmState,
    chunk: Seq<char>,
    lead: Seq<char>,
    rest: Seq<char>,
    tools: Seq<Tool>,
)
    requires
        st.buffer + chunk == lead + (OPEN@ + rest),
        !contains(lead, OPEN@),
        !contains(rest, CLOSE@),
    ensures
        feed(format, st, chunk, tools).1.normal_text == lead,
        feed(format, st, chunk, tools).1.calls.len() == 0,
        feed(format, st, chunk, tools).0 == (GlmState { buffer: OPEN@ + rest, ..st }),
{
    lemma_unclosed_spans(lead, rest);
    let text = st.buffer + chunk;
    assert(text.take(lead.len() as int) =~= lead);
    assert(text.skip(lead.len() as int) =~= OPEN@ + rest);
}

/// A call that is not closed is no call: the text is given back as it is.
pub proof fn lemma_unclosed(
    format: GlmFormat,
    lead: Seq<char>,
    rest: Seq<char>,
    tools: Seq<Tool>,
)
    requires
        !contains(lead, OPEN@),
        !contains(rest, CLOSE@),
    ensures
        complete(format, lead + (OPEN@ + rest), tools) == (
            lead + (OPEN@ + rest),
            Seq::<CallModel>::empty(),
        ),
{
    lemma_unclosed_spans(lead, rest);
}

/// A call that is not closed before the next hides what follows it: a complete text is given back
/// as it is, and of a stream all stays from there on.
pub proof fn lemma_unclosed_hides(
    format: GlmFormat,
    st: GlmState,
    chunk: Seq<char>,
    lead: Seq<char>,
    inner: Seq<char>,
    more: Seq<char>,
    tools: Seq<Tool>,
)
    requires
        st.buffer + chunk == lead + (OPEN@ + (inner + (OPEN@ + more))),
        !contains(lead, OPEN@),
        !contains(inner, OPEN@),
        !contains(inner, CLOSE@),
    ensures
        ({
            let text = st.buffer + chunk;
            let (next, out) = feed(format, st, chunk, tools);
            &&& complete(format, text, tools) == (text, Seq::<CallModel>::empty())
            &&& out.normal_text == lead
            &&& out.calls.len() == 0
            &&& next == (GlmState { buffer: OPEN@ + (inner + (OPEN@ + more)), ..st })
        }),
{
    lemma_open_tags();
    let text = st.buffer + chunk;
    let rest = OPEN@ + more;
    assert(rest.take(OPEN@.len() as int) =~= OPEN@);
    lemma_spans_unclosed(lead, inner, rest, OPEN@, CLOSE@);
    assert(text.take(lead.len() as int) =~= lead);
    assert(text.skip(lead.len() as int) =~= OPEN@ + (inner + rest));
}

/// The normal text of a complete text is all of it where there are no calls, and else what stands
/// before the first opening tag of a call, as it is.
pub proof fn lemma_normal_text(format: GlmFormat, text: Seq<char>, tools: Seq<Tool>)
    ensures
        ({
            let (normal, calls) = complete(format, text, tools);
            &&& calls.len() == 0 ==> normal == text
            &&& calls.len() > 0 ==> {
                &&& normal == text.take(normal.len() as int)
                &&& occurs_at(text, OPEN@, normal.len() as int)
                &&& !contains(normal, OPEN@)
            }
        }),
{
    lemma_first_occurrence(text, OPEN@);
    let (normal, calls) = complete(format, text, tools);
    if calls.len() > 0 {
        let i = first_occurrence(text, OPEN@)->0;
        lemma_open_tags();
        assert forall|j: int| !#[trigger] occurs_at(normal, OPEN@, j) by {
            if occurs_at(normal, OPEN@, j) {
                assert(text.subrange(j, j + OPEN@.len()) =~= normal.subrange(j, j + OPEN@.len()));
                assert(occurs_at(text, OPEN@, j));
            }
        }
    }
}

/// Blocks are read each by itself: the calls of some blocks and then of others are those of all of
/// them, and a block without a call is passed over.
pub proof fn lemma_blocks_apart(
    format: GlmFormat,
    first: Seq<Seq<char>>,
    more: Seq<Seq<char>>,
    tools: Seq<Tool>,
)
    ensures
        blocks_calls(format, first + more, tools) == blocks_calls(format, first, tools)
            + blocks_calls(format, more, tools),
    decreases more.len(),
{
    if more.len() == 0 {
        assert(first + more =~= first);
        assert(blocks_calls(format, first, tools) + blocks_calls(format, more, tools)
            =~= blocks_calls(format, first, tools));
    } else {
        assert((first + more).drop_last() =~= first + more.drop_last());
        lemma_blocks_apart(format, first, more.drop_last(), tools);
        assert(blocks_calls(format, first + more, tools) =~= blocks_calls(format, first, tools)
            + blocks_calls(format, more, tools));
    }
}

/// No name stands in the inside of a block: before its first line break, or, where the arguments
/// follow the name at once, before the first of them.
pub open spec fn is_nameless(format: GlmFormat, inner: Seq<char>) -> bool {
    match format {
        GlmFormat::Glm45 => forall|i: int| #[trigger]
            is_first(inner, "\n"@, i) ==> blank(inner.take(i)),
        GlmFormat::Glm47 => {
            &&& !contains(inner, ARG_KEY_OPEN@) ==> blank(inner)
            &&& forall|i: int| #[trigger]
                is_first(inner, ARG_KEY_OPEN@, i) ==> blank(inner.take(i))
        },
    }
}

proof fn lemma_blank_trimmed(s: Seq<char>)
    requires
        blank(s),
    ensures
        trimmed(s).len() == 0,
{
    let none = Seq::<char>::empty();
    lemma_trimmed_padded(s, none, none);
    assert(s + (none + none) =~= s);
}

/// White space before the first argument is no name.
proof fn lemma_blank_before_argument(inner: Seq<char>, i: int)
    requires
        is_first(inner, ARG_KEY_OPEN@, i),
        blank(inner.take(i)),
    ensures
        first_occurrence(trimmed(inner), ARG_KEY_OPEN@) == Some(0int),
{
    reveal_strlit("<arg_key>");
    let key = ARG_KEY_OPEN@;
    let start = trimmed_start(inner);
    let n = inner.len() - start.len();
    lemma_trimmed_start_is(inner);
    assert(inner.subrange(i, i + key.len())[0] == inner[i]);
    if n > i {
        assert(inner.take(n)[i] == inner[i]);
    }
    if n < i {
        assert(start[0] == inner[n]);
        assert(inner.take(i)[n] == inner[n]);
    }
    lemma_trimmed_end_is(start);
    let body = trimmed(inner);
    let m = body.len() as int;
    if m < key.len() {
        let last = key.len() - 1;
        assert(inner.subrange(i, i + key.len())[last] == inner[i + last]);
        assert(start.skip(m)[last - m] == inner[i + last]);
    }
    assert(body.subrange(0, key.len() as int) =~= inner.subrange(i, i + key.len()));
    lemma_first_is(body, key, 0);
}

/// A block without a name holds no call.
pub proof fn lemma_nameless(format: GlmFormat, inner: Seq<char>, tools: Seq<Tool>)
    requires
        is_nameless(format, inner),
    ensures
        block_call(format, OPEN@ + (inner + CLOSE@), tools) is None,
{
    lemma_inside(inner);
    match format {
        GlmFormat::Glm45 => {
            lemma_first_occurrence(inner, "\n"@);
            if let Some(i) = first_occurrence(inner, "\n"@) {
                lemma_blank_trimmed(inner.take(i));
            }
        },
        GlmFormat::Glm47 => {
            let body = trimmed(inner);
            lemma_first_occurrence(inner, ARG_KEY_OPEN@);
            if let Some(i) = first_occurrence(inner, ARG_KEY_OPEN@) {
                lemma_blank_before_argument(inner, i);
                assert(blank(body.take(0)));
                lemma_blank_trimmed(body.take(0));
            } else {
                lemma_blank_trimmed(inner);
                reveal_strlit("<arg_key>");
                lemma_first_occurrence(body, ARG_KEY_OPEN@);
            }
        },
    }
}

/// A block without a name is passed over, in a stream and in a complete text. In a stream the text
/// before it passes, without the white space around it, and the text past it stays.
#[verifier::rlimit(30)]
pub proof fn lemma_nameless_passed_over(
    format: GlmFormat,
    st: GlmState,
    chunk: Seq<char>,
    lead: Seq<char>,
    items: Seq<(Seq<char>, Seq<char>)>,
    tools: Seq<Tool>,
)
    requires
        valid(st),
        st.buffer + chunk == lead + written_blocks(items, OPEN@, CLOSE@),
        !contains(lead, OPEN@),
        clear_blocks(items, OPEN@, CLOSE@),
        items.len() > 0,
        is_nameless(format, items[0].0),
    ensures
        ({
            let (next, out) = feed(format, st, chunk, tools);
            let rest = written_blocks(items.skip(1), OPEN@, CLOSE@);
            &&& out.normal_text == trimmed(lead)
            &&& out.calls.len() == 0
            &&& next.buffer == items[0].1 + rest
            &&& next_index(next) == next_index(st)
            &&& text_calls(format, st.buffer + chunk, tools) == text_calls(format, rest, tools)
        }),
{
    let text = st.buffer + chunk;
    let more = items.skip(1);
    let rest = written_blocks(more, OPEN@, CLOSE@);
    let none = Seq::<char>::empty();
    let one = seq![(items[0].0, none)];
    let block = OPEN@ + (items[0].0 + CLOSE@);
    lemma_insides_clear(format, seq![]);
    lemma_blocks_written(lead, items, OPEN@, CLOSE@);
    assert(!contains(items[0].0, OPEN@));
    lemma_open_tags();
    assert(clear_blocks(one, OPEN@, CLOSE@));
    lemma_blocks_written(none, one, OPEN@, CLOSE@);
    assert(one.skip(1) =~= seq![]);
    assert(written_blocks(one.skip(1), OPEN@, CLOSE@) =~= seq![]);
    assert(none + written_blocks(one, OPEN@, CLOSE@) =~= block);
    let found = spans(text, OPEN@, CLOSE@, 0);
    assert(blocks(text, OPEN@, CLOSE@).len() == found.len());
    let (begin, end) = found[0];
    assert(text.subrange(begin, end) =~= block);
    assert(text.take(begin) =~= lead);
    assert(text.skip(end) =~= items[0].1 + rest);
    lemma_nameless(format, items[0].0, tools);
    let single = seq![block];
    assert(blocks(block, OPEN@, CLOSE@) =~= single);
    assert(single.drop_last() =~= seq![]);
    assert(blocks_calls(format, single.drop_last(), tools).len() == 0);
    assert(blocks_calls(format, single, tools).len() == 0);
    lemma_prepared(st);
    assert forall|i: int| 0 <= i < more.len() implies {
        &&& !contains((#[trigger] more[i]).0, OPEN@)
        &&& !contains(more[i].1, OPEN@)
        &&& !contains(more[i].1, CLOSE@)
    } by {
        assert(more[i] == items[i + 1]);
    }
    lemma_blocks_written(none, more, OPEN@, CLOSE@);
    assert(none + rest =~= rest);
    assert(blocks(text, OPEN@, CLOSE@) =~= single + blocks(rest, OPEN@, CLOSE@));
    lemma_blocks_apart(format, single, blocks(rest, OPEN@, CLOSE@), tools);
    assert(text_calls(format, text, tools) =~= text_calls(format, rest, tools));
}

/// A call that is sent is kept, by its name and by the value of the arguments that were sent for
/// it. Nothing else that is kept changes.
pub proof fn lemma_call_kept(format: GlmFormat, st: GlmState, chunk: Seq<char>, tools: Seq<Tool>)
    requires
        valid(st),
        st.id is None ==> st.calls.len() == 0,
    ensures
        ({
            let (next, out) = feed(format, st, chunk, tools);
            let id = next_index(st);
            &&& forall|i: int|
                0 <= i < st.calls.len() && i != id ==> i < next.calls.len() && (
                #[trigger] next.calls[i]) == st.calls[i]
            &&& out.calls.len() > 0 ==> (parsed_json(out.calls[0].parameters) matches Ok(arguments)
                ==> {
                &&& id < next.calls.len()
                &&& next.calls[id] matches Some(call)
                &&& out.calls[0].name == Some(call.name)
                &&& call.arguments == arguments
            })
        }),
{
    lemma_prepared(st);
}

/// A block is split into the name of its call and the markup of its arguments: at the first line
/// break, or, where the arguments follow the name at once, before the first of them. The white
/// space around the name and before the arguments is left out.
#[verifier::rlimit(30)]
pub proof fn lemma_block_split(first: Seq<char>, second: Seq<char>)
    requires
        trimmed(first).len() > 0,
    ensures
        !contains(first, "\n"@) ==> split_block(
            GlmFormat::Glm45,
            OPEN@ + ((first + ("\n"@ + second)) + CLOSE@),
        ) == Some((trimmed(first), trimmed_start(second))),
        !contains(first, ARG_KEY_OPEN@) ==> split_block(
            GlmFormat::Glm47,
            OPEN@ + (first + CLOSE@),
        ) == Some((trimmed(first), Seq::<char>::empty())),
        !contains(first, ARG_KEY_OPEN@) ==> split_block(
            GlmFormat::Glm47,
            OPEN@ + ((first + (ARG_KEY_OPEN@ + second)) + CLOSE@),
        ) == Some((trimmed(first), trimmed_end(ARG_KEY_OPEN@ + second))),
{
    lemma_inside(first + ("\n"@ + second));
    lemma_inside(first);
    if !contains(first, "\n"@) {
        reveal_strlit("\n");
        let inner = first + ("\n"@ + second);
        lemma_first_behind(first, "\n"@, second);
        assert(inner.take(first.len() as int) =~= first);
        assert(inner.skip(first.len() as int + 1) =~= second);
    }
    if !contains(first, ARG_KEY_OPEN@) {
        let body = trimmed(first);
        lemma_trimmed_is(first);
        lemma_first_occurrence(body, ARG_KEY_OPEN@);
        if let Some(i) = first_occurrence(body, ARG_KEY_OPEN@) {
            let a = first.len() - trimmed_start(first).len();
            let n = ARG_KEY_OPEN@.len();
            assert(first.subrange(a + i, a + i + n) =~= body.subrange(i, i + n));
            assert(occurs_at(first, ARG_KEY_OPEN@, a + i));
        }
        lemma_split_before_argument(first, second);
    }
}

#[verifier::rlimit(30)]
proof fn lemma_split_before_argument(first: Seq<char>, second: Seq<char>)
    requires
        trimmed(first).len() > 0,
        !contains(first, ARG_KEY_OPEN@),
    ensures
        split_block(
            GlmFormat::Glm47,
            OPEN@ + ((first + (ARG_KEY_OPEN@ + second)) + CLOSE@),
        ) == Some((trimmed(first), trimmed_end(ARG_KEY_OPEN@ + second))),
{
    reveal_strlit("<arg_key>");
    let key = ARG_KEY_OPEN@;
    let tail = key + second;
    let inner = first + tail;
    let start = trimmed_start(first);
    let end = trimmed_end(tail);
    let a = first.len() - start.len();
    let m = end.len() as int;
    lemma_inside(inner);
    lemma_trimmed_is(first);
    lemma_trimmed_start_is(first);
    lemma_trimmed_end_is(tail);
    if m < key.len() {
        let last = key.len() - 1;
        assert(tail.skip(m)[last - m] == key[last]);
    }
    assert(end =~= key + end.skip(key.len() as int));
    let body = start + end;
    assert(inner =~= first.take(a) + (body + tail.skip(m)));
    assert(body.last() == end.last());
    lemma_trimmed_padded(first.take(a), body, tail.skip(m));
    lemma_skip_free(first, key, a);
    lemma_first_behind(start, key, end.skip(key.len() as int));
    assert(body.take(start.len() as int) =~= start);
    assert(body.skip(start.len() as int) =~= end);
}

proof fn lemma_inside(inner: Seq<char>)
    ensures
        without_prefix(OPEN@ + (inner + CLOSE@), OPEN@) == Some(inner + CLOSE@),
        without_suffix(inner + CLOSE@, CLOSE@) == Some(inner),
{
    let block = OPEN@ + (inner + CLOSE@);
    let rest = inner + CLOSE@;
    assert(block.subrange(0, OPEN@.len() as int) =~= OPEN@);
    assert(block.skip(OPEN@.len() as int) =~= rest);
    assert(rest.subrange(rest.len() - CLOSE@.len(), rest.len() as int) =~= CLOSE@);
    assert(rest.take(rest.len() - CLOSE@.len()) =~= inner);
}

/// What follows the value of an argument: nothing, or the next key.
pub open spec fn is_next(rest: Seq<char>) -> bool {
    rest.len() == 0 || rest.len() >= ARG_KEY_OPEN@.len() && rest.take(ARG_KEY_OPEN@.len() as int)
        == ARG_KEY_OPEN@
}

proof fn lemma_region(region: Seq<char>, rest: Seq<char>)
    requires
        !contains(region, ARG_KEY_OPEN@),
        is_next(rest),
    ensures
        before_open(region + rest, ARG_KEY_OPEN@) == region,
{
    lemma_tags();
    lemma_first_occurrence(region, ARG_KEY_OPEN@);
    if rest.len() > 0 {
        let n = ARG_KEY_OPEN@.len() as int;
        assert(rest =~= ARG_KEY_OPEN@ + rest.skip(n));
        lemma_first_behind(region, ARG_KEY_OPEN@, rest.skip(n));
        assert((region + rest).take(region.len() as int) =~= region);
    } else {
        assert(region + rest =~= region);
    }
}

/// The first argument is read whatever text stands before it, between its key and its value, and
/// behind it, and the others are read from the next key on.
#[verifier::rlimit(30)]
pub proof fn lemma_argument_read(
    lead: Seq<char>,
    key: Seq<char>,
    between: Seq<char>,
    value: Seq<char>,
    gap: Seq<char>,
    rest: Seq<char>,
)
    requires
        !contains(lead, ARG_KEY_OPEN@),
        !contains(key, ARG_KEY_CLOSE@),
        !contains(between, ARG_VAL_OPEN@),
        !contains(value, ARG_KEY_OPEN@),
        !contains(gap, ARG_KEY_OPEN@),
        !contains(gap, ARG_VAL_CLOSE@),
        is_next(rest),
    ensures
        argument_pairs(
            lead + (ARG_KEY_OPEN@ + (key + (ARG_KEY_CLOSE@ + (between + (ARG_VAL_OPEN@ + (value + (
            ARG_VAL_CLOSE@ + (gap + rest)))))))),
        ) == seq![(trimmed(key), trimmed(value))] + argument_pairs(rest),
{
    lemma_tags();
    reveal_strlit("<arg_key>");
    reveal_strlit("</arg_value>");
    let tail = ARG_VAL_CLOSE@ + gap;
    let region = value + tail;
    let z = value + (ARG_VAL_CLOSE@ + (gap + rest));
    let y = between + (ARG_VAL_OPEN@ + z);
    let x = key + (ARG_KEY_CLOSE@ + y);
    let s = lead + (ARG_KEY_OPEN@ + x);
    lemma_first_behind(lead, ARG_KEY_OPEN@, x);
    assert(s.skip(lead.len() as int + ARG_KEY_OPEN@.len()) =~= x);
    lemma_first_behind(key, ARG_KEY_CLOSE@, y);
    assert(x.skip(key.len() as int + ARG_KEY_CLOSE@.len()) =~= y);
    assert(x.take(key.len() as int) =~= key);
    lemma_first_behind(between, ARG_VAL_OPEN@, z);
    assert(y.skip(between.len() as int + ARG_VAL_OPEN@.len()) =~= z);
    assert(z =~= region + rest);
    assert(tail[0] == ARG_VAL_CLOSE@[0]);
    lemma_contains_behind_tag(ARG_VAL_CLOSE@, gap, ARG_KEY_OPEN@, 1);
    lemma_contains_concat(value, tail, ARG_KEY_OPEN@);
    lemma_region(region, rest);
    lemma_pattern_then(ARG_VAL_CLOSE@, gap);
    lemma_last_concat(value, tail, ARG_VAL_CLOSE@);
    assert(region.take(value.len() as int) =~= value);
    assert(z.skip(region.len() as int) =~= rest);
}

/// The arguments end with the first that is not complete, whatever follows it: one without the end
/// of its key, without a value, or without the end of its value before the next key.
#[verifier::rlimit(30)]
pub proof fn lemma_argument_incomplete(
    lead: Seq<char>,
    key: Seq<char>,
    between: Seq<char>,
    value: Seq<char>,
    rest: Seq<char>,
)
    requires
        !contains(lead, ARG_KEY_OPEN@),
    ensures
        argument_pairs(lead).len() == 0,
        !contains(key, ARG_KEY_CLOSE@) ==> {
            &&& argument_pairs(lead + (ARG_KEY_OPEN@ + key)).len() == 0
            &&& !contains(between, ARG_VAL_OPEN@) ==> {
                &&& argument_pairs(
                    lead + (ARG_KEY_OPEN@ + (key + (ARG_KEY_CLOSE@ + between))),
                ).len() == 0
                &&& !contains(value, ARG_VAL_CLOSE@) && !contains(value, ARG_KEY_OPEN@) && is_next(
                    rest,
                ) ==> argument_pairs(
                    lead + (ARG_KEY_OPEN@ + (key + (ARG_KEY_CLOSE@ + (between + (ARG_VAL_OPEN@ + (
                    value + rest)))))),
                ).len() == 0
            }
        },
{
    lemma_tags();
    let open = ARG_KEY_OPEN@.len();
    let n = lead.len() as int;
    lemma_first_occurrence(lead, ARG_KEY_OPEN@);
    if !contains(key, ARG_KEY_CLOSE@) {
        lemma_first_behind(lead, ARG_KEY_OPEN@, key);
        assert((lead + (ARG_KEY_OPEN@ + key)).skip(n + open) =~= key);
        lemma_first_occurrence(key, ARG_KEY_CLOSE@);
        if !contains(between, ARG_VAL_OPEN@) {
            let x = key + (ARG_KEY_CLOSE@ + between);
            lemma_first_behind(lead, ARG_KEY_OPEN@, x);
            assert((lead + (ARG_KEY_OPEN@ + x)).skip(n + open) =~= x);
            lemma_first_behind(key, ARG_KEY_CLOSE@, between);
            assert(x.skip(key.len() as int + ARG_KEY_CLOSE@.len()) =~= between);
            lemma_first_occurrence(between, ARG_VAL_OPEN@);
            if !contains(value, ARG_VAL_CLOSE@) && !contains(value, ARG_KEY_OPEN@) && is_next(
                rest,
            ) {
                let z = value + rest;
                let y = between + (ARG_VAL_OPEN@ + z);
                let x = key + (ARG_KEY_CLOSE@ + y);
                lemma_first_behind(lead, ARG_KEY_OPEN@, x);
                assert((lead + (ARG_KEY_OPEN@ + x)).skip(n + open) =~= x);
                lemma_first_behind(key, ARG_KEY_CLOSE@, y);
                assert(x.skip(key.len() as int + ARG_KEY_CLOSE@.len()) =~= y);
                lemma_first_behind(between, ARG_VAL_OPEN@, z);
                assert(y.skip(between.len() as int + ARG_VAL_OPEN@.len()) =~= z);
                lemma_region(value, rest);
                lemma_last_occurrence(value, ARG_VAL_CLOSE@);
            }
        }
    }
}

} // verus!
