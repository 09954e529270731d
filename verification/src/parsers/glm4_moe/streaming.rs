//! What holds of every stream that is read in the formats of GLM-4.
use super::round_trip::{
    calls_models, clear_calls, insides, lemma_blocks_calls, lemma_insides_clear, written_call,
    written_calls, GlmCall,
};
use super::{feed, initial, prepared, text_calls, GlmFormat, GlmState, CLOSE, OPEN};

use crate::parsers::helpers::{known_tool, lemma_sent_by_one, sent_before, sent_by};
use crate::parsers::spans::{blocks, lemma_blocks_written, spans, written_blocks};
use crate::text::edit::trimmed;
use crate::text::search::{contains, first_occurrence, lemma_first_occurrence, occurs_at};
use crate::types::{ItemModel, Tool};
use vstd::prelude::*;

verus! {

/// The state is one that the parser can be in: of the calls from the next on, nothing was sent.
pub open spec fn valid(st: GlmState) -> bool {
    &&& st.calls.len() == st.streamed.len()
    &&& match st.id {
        Some(id) => {
            &&& 0 <= id <= st.streamed.len()
            &&& forall|i: int| id <= i < st.streamed.len() ==> (#[trigger] st.streamed[i]).len() == 0
        },
        None => st.streamed.len() == 0,
    }
}

/// The index of the next call.
pub open spec fn next_index(st: GlmState) -> int {
    match st.id {
        Some(id) => id,
        None => 0,
    }
}

/// The first state is valid.
pub proof fn lemma_initial_valid()
    ensures
        valid(initial()),
{
}

/// A place for the next call changes nothing that was sent.
pub proof fn lemma_prepared(st: GlmState)
    requires
        valid(st),
    ensures
        valid(prepared(st)),
        prepared(st).id == Some(next_index(st)),
        next_index(st) < prepared(st).streamed.len(),
        prepared(st).streamed[next_index(st)].len() == 0,
        forall|i: int| #[trigger]
            sent_before(prepared(st).streamed, i) == sent_before(st.streamed, i),
{
    let next = prepared(st);
    assert forall|i: int| #[trigger]
        sent_before(next.streamed, i) == sent_before(st.streamed, i) by {
        assert(sent_before(next.streamed, i) =~= sent_before(st.streamed, i));
    }
}

/// A chunk leads from a valid state to a valid state. What was sent of each call is kept track
/// of: it grows by what the chunk sends. Each call that is sent gets the next index.
pub proof fn lemma_feed(format: GlmFormat, st: GlmState, chunk: Seq<char>, tools: Seq<Tool>)
    requires
        valid(st),
    ensures
        valid(feed(format, st, chunk, tools).0),
        forall|i: int| #[trigger]
            sent_before(feed(format, st, chunk, tools).0.streamed, i) == sent_before(
                st.streamed,
                i,
            ) + sent_by(feed(format, st, chunk, tools).1.calls, i),
        next_index(feed(format, st, chunk, tools).0) == next_index(st) + feed(
            format,
            st,
            chunk,
            tools,
        ).1.calls.len(),
        forall|k: int|
            0 <= k < feed(format, st, chunk, tools).1.calls.len() ==> (#[trigger] feed(
                format,
                st,
                chunk,
                tools,
            ).1.calls[k]).tool_index == next_index(st) + k,
{
    lemma_prepared(st);
    let (next, out) = feed(format, st, chunk, tools);
    let ready = prepared(st);
    assert forall|i: int| #[trigger]
        sent_before(next.streamed, i) == sent_before(st.streamed, i) + sent_by(out.calls, i) by {
        assert(sent_before(ready.streamed, i) == sent_before(st.streamed, i));
        if out.calls.len() > 0 {
            let item = out.calls[0];
            assert(out.calls =~= seq![item]);
            lemma_sent_by_one(item, i);
        }
        assert(sent_before(next.streamed, i) =~= sent_before(st.streamed, i) + sent_by(
            out.calls,
            i,
        ));
    }
}

/// The first block of a text with calls is the first call.
#[verifier::rlimit(30)]
pub proof fn lemma_first_block(
    format: GlmFormat,
    text: Seq<char>,
    lead: Seq<char>,
    items: Seq<(GlmCall, Seq<char>)>,
    tools: Seq<Tool>,
)
    requires
        text == lead + written_calls(format, items),
        !contains(lead, OPEN@),
        clear_calls(format, items),
        items.len() > 0,
    ensures
        ({
            let found = spans(text, OPEN@, CLOSE@, 0);
            let (begin, end) = found[0];
            &&& first_occurrence(text, OPEN@) is Some
            &&& found.len() > 0
            &&& text.take(begin) == lead
            &&& text_calls(format, text.subrange(begin, end), tools) == seq![
                calls_models(items, tools)[0],
            ]
            &&& text.skip(end) == items[0].1 + written_calls(format, items.skip(1))
        }),
{
    let inside = insides(format, items);
    lemma_insides_clear(format, items);
    lemma_blocks_written(lead, inside, OPEN@, CLOSE@);
    let found = spans(text, OPEN@, CLOSE@, 0);
    assert(blocks(text, OPEN@, CLOSE@).len() == found.len());
    let (begin, end) = found[0];
    assert(text.take(begin) =~= lead);
    let first = seq![(items[0].0, Seq::<char>::empty())];
    assert(clear_calls(format, first)) by {
        assert(clear_calls(format, items.take(1)));
        assert(items[0] == items.take(1)[0]);
        assert(!contains(Seq::<char>::empty(), OPEN@));
        assert(!contains(Seq::<char>::empty(), CLOSE@));
    }
    lemma_insides_clear(format, first);
    lemma_blocks_written(Seq::empty(), insides(format, first), OPEN@, CLOSE@);
    lemma_blocks_calls(format, first, tools);
    let block = text.subrange(begin, end);
    assert(insides(format, first)[0] == (inside[0].0, Seq::<char>::empty()));
    assert(insides(format, first).skip(1) =~= seq![]);
    assert(written_blocks(insides(format, first).skip(1), OPEN@, CLOSE@) =~= seq![]);
    assert(block =~= OPEN@ + (inside[0].0 + CLOSE@));
    assert(block =~= Seq::<char>::empty() + written_calls(format, first));
    assert(blocks(block, OPEN@, CLOSE@) =~= Seq::new(
        first.len(),
        |i: int| written_call(format, first[i].0),
    ));
    assert(text_calls(format, block, tools) == calls_models(first, tools));
    assert(calls_models(first, tools) =~= seq![calls_models(items, tools)[0]]);
    lemma_first_occurrence(text, OPEN@);
    assert(occurs_at(text, OPEN@, begin)) by {
        assert(text.subrange(begin, begin + OPEN@.len()) =~= block.take(OPEN@.len() as int));
        assert(block.take(OPEN@.len() as int) =~= OPEN@);
    }
    assert(calls_models(first, tools)[0] == calls_models(items, tools)[0]);
    assert(insides(format, items).skip(1) =~= insides(format, items.skip(1)));
    assert(text.skip(end) =~= items[0].1 + written_calls(format, items.skip(1)));
}

/// A call is sent as it was written, as soon as its block is complete: at the next index,
/// whatever chunks the text came in. The text past the block stays for the next call.
pub proof fn lemma_call_sent(
    format: GlmFormat,
    st: GlmState,
    chunk: Seq<char>,
    lead: Seq<char>,
    items: Seq<(GlmCall, Seq<char>)>,
    tools: Seq<Tool>,
)
    requires
        valid(st),
        st.buffer + chunk == lead + written_calls(format, items),
        !contains(lead, OPEN@),
        clear_calls(format, items),
        items.len() > 0,
        known_tool(tools, trimmed(items[0].0.name)),
    ensures
        ({
            let (next, out) = feed(format, st, chunk, tools);
            let call = calls_models(items, tools)[0];
            &&& out.normal_text == trimmed(lead)
            &&& out.calls == seq![
                ItemModel {
                    tool_index: next_index(st),
                    name: Some(call.name),
                    parameters: call.arguments,
                },
            ]
            &&& next.buffer == items[0].1 + written_calls(format, items.skip(1))
        }),
{
    lemma_first_block(format, st.buffer + chunk, lead, items, tools);
    lemma_prepared(st);
}

} // verus!
