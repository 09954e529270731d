//! What the calls of MiniMax M2 carry, in a complete text and in a stream.
use super::cutting::{
    all_calls, clear_calls_when_cut, clear_groups_when_cut, feed_all, lemma_stream_cut, object_text,
    sent_in_order, text_of,
};
use super::entities::{decoded, escaped, lemma_entities_round_trip};
use super::markup::{TOOL_CALL_CLOSE, TOOL_CALL_OPEN};
use super::params::{entries_text, entry_text, has_equal, lemma_collected_same, same_params, Params};
use super::prefix::clear_when_cut;
use super::round_trip::{
    call_model, clear_groups, group_models, groups_models, lemma_round_trip, pairs_of,
    written_groups, MinimaxCall, MinimaxGroup,
};
use super::stream::{
    current, initial, params_in, stream_params, streamed_value, streamed_values, MinimaxState,
};
use super::streaming::{consistent, lemma_initial_consistent, params_of};
use super::{argument_of, arguments_of, complete};
use crate::json::{json_text, members_of, parsed_json, values_equal, JsonModel, Members};
use crate::parsers::helpers::{joined, only_arguments, properties_of, sent_by};
use crate::parsers::values::{
    by_json, by_looks, by_schema, is_last_of, lemma_by_schema, lemma_inferred_value, lemma_members,
    lemma_plain_value, undecided,
};
use crate::text::search::{contains, occurs_at};
use crate::types::{CallModel, ItemModel, Tool, TrackedModel};
use vstd::prelude::*;

verus! {

/// The value that a parameter with this text has in a complete text: by the schema of the tool,
/// or else by its looks.
pub open spec fn is_argument(
    value: JsonModel,
    text: Seq<char>,
    tools: Seq<Tool>,
    name: Seq<char>,
    key: Seq<char>,
) -> bool {
    &&& by_schema(value, text, tools, name, key)
    &&& undecided(text, tools, name, key) ==> by_looks(value, text)
}

/// The text begins as the JSON of an object or of an array does.
pub open spec fn begins_as_json(text: Seq<char>) -> bool {
    text.len() > 0 && (text[0] == '{' || text[0] == '[')
}

/// The value that a parameter with this text has in a stream: by the schema of the tool, or else
/// as JSON where it begins as such, and by its looks.
pub open spec fn is_streamed(
    value: JsonModel,
    text: Seq<char>,
    tools: Seq<Tool>,
    name: Seq<char>,
    key: Seq<char>,
) -> bool {
    &&& by_schema(value, text, tools, name, key)
    &&& undecided(text, tools, name, key) && begins_as_json(text) ==> by_json(value, text)
    &&& undecided(text, tools, name, key) && !begins_as_json(text) ==> by_looks(value, text)
}

/// The value of a parameter in a complete text is that of its text, with the entities decoded.
pub proof fn lemma_argument(key: Seq<char>, raw: Seq<char>, tools: Seq<Tool>, name: Seq<char>)
    ensures
        is_argument(
            argument_of(key, raw, properties_of(tools, name)),
            decoded(raw),
            tools,
            name,
            key,
        ),
{
    lemma_by_schema(decoded(raw), tools, name, key);
    lemma_plain_value(decoded(raw));
}

proof fn lemma_begins_as_json(text: Seq<char>)
    ensures
        begins_as_json(text) <==> occurs_at(text, "{"@, 0) || occurs_at(text, "["@, 0),
{
    reveal_strlit("{");
    reveal_strlit("[");
    if text.len() > 0 {
        assert(text.subrange(0, 1) =~= seq![text[0]]);
        assert("{"@ =~= seq!['{']);
        assert("["@ =~= seq!['[']);
        if text.subrange(0, 1) == "{"@ {
            assert("{"@[0] == text.subrange(0, 1)[0]);
        }
        if text.subrange(0, 1) == "["@ {
            assert("["@[0] == text.subrange(0, 1)[0]);
        }
    }
}

/// The value of a parameter in a stream is that of its text, with the entities decoded.
pub proof fn lemma_streamed(key: Seq<char>, raw: Seq<char>, tools: Seq<Tool>, name: Seq<char>)
    ensures
        is_streamed(
            streamed_value(key, raw, properties_of(tools, name)),
            decoded(raw),
            tools,
            name,
            key,
        ),
{
    let text = decoded(raw);
    lemma_by_schema(text, tools, name, key);
    lemma_plain_value(text);
    lemma_inferred_value(text);
    lemma_begins_as_json(text);
}

/// A stream and a complete text give one value to a parameter, unless its text begins as the JSON
/// of an object or of an array does, and is JSON.
pub proof fn lemma_stream_as_complete(
    key: Seq<char>,
    raw: Seq<char>,
    properties: Option<JsonModel>,
)
    requires
        !begins_as_json(decoded(raw)) || parsed_json(decoded(raw)) is Err,
    ensures
        streamed_value(key, raw, properties) == argument_of(key, raw, properties),
{
    lemma_begins_as_json(decoded(raw));
}

/// The last of the parameters of that name.
pub open spec fn is_last_parameter(call: MinimaxCall, i: int) -> bool {
    is_last_of(pairs_of(call.params), i)
}

/// The members are those of a call: its parameters and nothing else, each with the value of its
/// text, which stands in the call as XML writes it. Of two parameters of one name, the later
/// stays.
pub open spec fn carries(members: Members, call: MinimaxCall, tools: Seq<Tool>) -> bool {
    &&& forall|key: Seq<char>| #[trigger]
        members.contains_key(key) <==> exists|i: int|
            0 <= i < call.params.len() && (#[trigger] call.params[i]).key == key
    &&& forall|i: int, text: Seq<char>|
        #![trigger is_last_parameter(call, i), escaped(text)]
        is_last_parameter(call, i) && call.params[i].value == escaped(text) ==> is_argument(
            members[call.params[i].key],
            text,
            tools,
            call.name,
            call.params[i].key,
        )
    &&& forall|i: int| #[trigger]
        is_last_parameter(call, i) ==> is_argument(
            members[call.params[i].key],
            decoded(call.params[i].value),
            tools,
            call.name,
            call.params[i].key,
        )
}

/// The call that is given to the caller is the one that was written: its name, and the text of a
/// JSON object with its parameters.
pub open spec fn is_call(model: CallModel, call: MinimaxCall, tools: Seq<Tool>) -> bool {
    &&& model.name == call.name
    &&& exists|members: Members|
        model.arguments == json_text(JsonModel::Object(members)) && #[trigger] carries(
            members,
            call,
            tools,
        )
}

proof fn lemma_call_model(call: MinimaxCall, tools: Seq<Tool>)
    ensures
        is_call(call_model(call, tools), call, tools),
{
    let pairs = pairs_of(call.params);
    let properties = properties_of(tools, call.name);
    let arguments = arguments_of(pairs, properties);
    let members = members_of(arguments);
    lemma_members(arguments);
    assert forall|key: Seq<char>| #[trigger]
        members.contains_key(key) <==> exists|i: int|
            0 <= i < call.params.len() && (#[trigger] call.params[i]).key == key by {
        if members.contains_key(key) {
            let i = choose|i: int| 0 <= i < arguments.len() && (#[trigger] arguments[i]).0 == key;
            assert(call.params[i].key == key);
        }
        if exists|i: int| 0 <= i < call.params.len() && (#[trigger] call.params[i]).key == key {
            let i = choose|i: int|
                0 <= i < call.params.len() && (#[trigger] call.params[i]).key == key;
            assert(arguments[i].0 == key);
        }
    }
    assert forall|i: int| #[trigger] is_last_parameter(call, i) implies is_argument(
        members[call.params[i].key],
        decoded(call.params[i].value),
        tools,
        call.name,
        call.params[i].key,
    ) by {
        assert(pairs[i].0 == call.params[i].key);
        assert forall|j: int| i < j < arguments.len() implies (#[trigger] arguments[j]).0
            != arguments[i].0 by {
            assert(pairs[j].0 != pairs[i].0);
        }
        assert(is_last_of(arguments, i));
        lemma_argument(call.params[i].key, call.params[i].value, tools, call.name);
    }
    assert forall|i: int, text: Seq<char>|
        #![trigger is_last_parameter(call, i), escaped(text)]
        is_last_parameter(call, i) && call.params[i].value == escaped(text) implies is_argument(
        members[call.params[i].key],
        text,
        tools,
        call.name,
        call.params[i].key,
    ) by {
        lemma_entities_round_trip(text);
    }
    assert(carries(members, call, tools));
    assert(call_model(call, tools).arguments == json_text(JsonModel::Object(members)));
}

proof fn lemma_models_front(items: Seq<(MinimaxGroup, Seq<char>)>, tools: Seq<Tool>)
    requires
        items.len() > 0,
    ensures
        groups_models(items, tools) == group_models(items[0].0, tools) + groups_models(
            items.skip(1),
            tools,
        ),
    decreases items.len(),
{
    if items.len() == 1 {
        assert(items.drop_last() =~= seq![]);
        assert(items.skip(1) =~= seq![]);
        assert(groups_models(items.drop_last(), tools) =~= seq![]);
        assert(groups_models(items, tools) =~= group_models(items[0].0, tools) + groups_models(
            items.skip(1),
            tools,
        ));
    } else {
        let before = items.drop_last();
        let more = items.skip(1);
        lemma_models_front(before, tools);
        assert(before.skip(1) =~= more.drop_last());
        assert(groups_models(items, tools) =~= group_models(items[0].0, tools) + groups_models(
            more,
            tools,
        ));
    }
}

proof fn lemma_models(items: Seq<(MinimaxGroup, Seq<char>)>, tools: Seq<Tool>)
    ensures
        groups_models(items, tools) == Seq::new(
            all_calls(items).len(),
            |i: int| call_model(all_calls(items)[i], tools),
        ),
    decreases items.len(),
{
    let all = Seq::new(all_calls(items).len(), |i: int| call_model(all_calls(items)[i], tools));
    if items.len() == 0 {
        assert(groups_models(items, tools) =~= all);
    } else {
        lemma_models_front(items, tools);
        lemma_models(items.skip(1), tools);
        assert(groups_models(items, tools) =~= all);
    }
}

/// The calls of a complete text are those that were written in it, in their order, each with its
/// name and its parameters: the values are those of the texts before they were written as XML,
/// each of the type that the tool declares for it, and else by its looks.
pub proof fn lemma_calls_carry(
    lead: Seq<char>,
    items: Seq<(MinimaxGroup, Seq<char>)>,
    tools: Seq<Tool>,
)
    requires
        !contains(lead, TOOL_CALL_OPEN@),
        clear_groups(items),
    ensures
        complete(lead + written_groups(items), tools).0 == lead,
        complete(lead + written_groups(items), tools).1.len() == all_calls(items).len(),
        forall|i: int|
            0 <= i < all_calls(items).len() ==> is_call(
                #[trigger] complete(lead + written_groups(items), tools).1[i],
                all_calls(items)[i],
                tools,
            ),
{
    lemma_round_trip(lead, items, tools);
    lemma_models(items, tools);
    let calls = complete(lead + written_groups(items), tools).1;
    assert forall|i: int| 0 <= i < all_calls(items).len() implies is_call(
        #[trigger] calls[i],
        all_calls(items)[i],
        tools,
    ) by {
        lemma_call_model(all_calls(items)[i], tools);
    }
}

/// The members of a JSON object, one after the other.
pub open spec fn members_text(params: Params) -> Seq<char>
    decreases params.len(),
{
    if params.len() == 0 {
        seq![]
    } else {
        let first = json_text(JsonModel::Text(params[0].0)) + (": "@ + json_text(params[0].1));
        if params.len() == 1 {
            first
        } else {
            first + (", "@ + members_text(params.skip(1)))
        }
    }
}

proof fn lemma_entries(params: Params)
    ensures
        entries_text(params) == members_text(params),
    decreases params.len(),
{
    if params.len() == 1 {
        assert(entries_text(params) =~= members_text(params));
    } else if params.len() > 1 {
        lemma_entries_last(params);
        lemma_entries(params.drop_last());
    }
}

proof fn lemma_entries_last(params: Params)
    requires
        params.len() > 1,
    ensures
        members_text(params) == members_text(params.drop_last()) + ", "@
            + entry_text(params.last().0, params.last().1),
    decreases params.len(),
{
    let before = params.drop_last();
    let more = params.skip(1);
    reveal_with_fuel(members_text, 2);
    assert(members_text(seq![]) =~= seq![]);
    if params.len() == 2 {
        assert(more.skip(1) =~= seq![]);
        assert(before.skip(1) =~= seq![]);
    } else {
        lemma_entries_last(more);
        assert(more.drop_last() =~= before.skip(1));
    }
    assert(members_text(params) =~= members_text(before) + ", "@
        + entry_text(params.last().0, params.last().1));
}

/// The text is that of a JSON object with the parameters of a call, in their order, and nothing
/// else; or nothing, if there are none.
pub open spec fn is_object_of(text: Seq<char>, call: MinimaxCall, tools: Seq<Tool>) -> bool {
    exists|params: Params|
        {
            &&& params.len() == call.params.len()
            &&& forall|i: int|
                0 <= i < params.len() ==> (#[trigger] params[i]).0 == call.params[i].key
            &&& forall|i: int, raw: Seq<char>|
                #![trigger params[i], escaped(raw)]
                0 <= i < params.len() && call.params[i].value == escaped(raw) ==> is_streamed(
                    params[i].1,
                    raw,
                    tools,
                    call.name,
                    call.params[i].key,
                )
            &&& forall|i: int|
                0 <= i < params.len() ==> is_streamed(
                    (#[trigger] params[i]).1,
                    decoded(call.params[i].value),
                    tools,
                    call.name,
                    call.params[i].key,
                )
            &&& params.len() == 0 ==> text.len() == 0
            &&& params.len() > 0 ==> text == "{"@ + (#[trigger] members_text(params) + "}"@)
        }
}

proof fn lemma_object_text(call: MinimaxCall, tools: Seq<Tool>)
    requires
        clear_when_cut(call),
    ensures
        is_object_of(object_text(params_of(call, tools)), call, tools),
{
    let pairs = pairs_of(call.params);
    let properties = properties_of(tools, call.name);
    let params = streamed_values(pairs, properties);
    lemma_collected_same(params);
    lemma_entries(params);
    let text = object_text(params);
    assert forall|i: int| 0 <= i < params.len() implies is_streamed(
        (#[trigger] params[i]).1,
        decoded(call.params[i].value),
        tools,
        call.name,
        call.params[i].key,
    ) by {
        lemma_streamed(call.params[i].key, call.params[i].value, tools, call.name);
    }
    assert forall|i: int, raw: Seq<char>|
        #![trigger params[i], escaped(raw)]
        0 <= i < params.len() && call.params[i].value == escaped(raw) implies is_streamed(
        params[i].1,
        raw,
        tools,
        call.name,
        call.params[i].key,
    ) by {
        lemma_entities_round_trip(raw);
    }
    if params.len() > 0 {
        assert(text =~= "{"@ + (members_text(params) + "}"@));
    } else {
        assert(members_text(params).len() == 0);
    }
}

/// The items send the calls in their order, from the index `id` on: of each an item with its name
/// alone, and then items that are, put together, the text of a JSON object with its parameters.
pub open spec fn streams(
    items: Seq<ItemModel>,
    id: int,
    calls: Seq<MinimaxCall>,
    tools: Seq<Tool>,
) -> bool
    decreases calls.len(),
{
    if calls.len() == 0 {
        items.len() == 0
    } else {
        &&& items.len() > 0
        &&& items[0].tool_index == id
        &&& items[0].name == Some(calls[0].name)
        &&& items[0].parameters.len() == 0
        &&& exists|n: int|
            {
                &&& 1 <= n <= items.len()
                &&& forall|k: int|
                    1 <= k < n ==> (#[trigger] items[k]).tool_index == id && items[k].name is None
                &&& is_object_of(put_together(items.subrange(1, n)), calls[0], tools)
                &&& streams(#[trigger] items.skip(n), id + 1, calls.skip(1), tools)
            }
    }
}

/// What the items hold, one after the other.
pub open spec fn put_together(items: Seq<ItemModel>) -> Seq<char>
    decreases items.len(),
{
    if items.len() == 0 {
        seq![]
    } else {
        put_together(items.drop_last()) + items.last().parameters
    }
}

proof fn lemma_put_together(items: Seq<ItemModel>, id: int)
    requires
        only_arguments(items, id),
    ensures
        put_together(items) == sent_by(items, id),
    decreases items.len(),
{
    if items.len() > 0 {
        let before = items.drop_last();
        assert forall|k: int| 0 <= k < before.len() implies (#[trigger] before[k]).tool_index == id
            && before[k].name is None by {
            assert(before[k] == items[k]);
        }
        lemma_put_together(before, id);
        assert(items[items.len() - 1].tool_index == id);
    }
}

proof fn lemma_streams(
    items: Seq<ItemModel>,
    id: int,
    calls: Seq<MinimaxCall>,
    tools: Seq<Tool>,
)
    requires
        sent_in_order(items, id, calls, tools),
        forall|i: int| 0 <= i < calls.len() ==> clear_when_cut(#[trigger] calls[i]),
    ensures
        streams(items, id, calls, tools),
    decreases calls.len(),
{
    if calls.len() > 0 {
        let n = choose|n: int|
            {
                &&& 1 <= n <= items.len()
                &&& only_arguments(items.subrange(1, n), id)
                &&& sent_by(items.subrange(1, n), id) == object_text(params_of(calls[0], tools))
                &&& sent_in_order(#[trigger] items.skip(n), id + 1, calls.skip(1), tools)
            };
        let part = items.subrange(1, n);
        let more = calls.skip(1);
        assert(clear_when_cut(calls[0]));
        assert forall|i: int| 0 <= i < more.len() implies clear_when_cut(#[trigger] more[i]) by {
            assert(more[i] == calls[i + 1]);
        }
        lemma_streams(items.skip(n), id + 1, more, tools);
        lemma_put_together(part, id);
        lemma_object_text(calls[0], tools);
        assert forall|k: int| 1 <= k < n implies (#[trigger] items[k]).tool_index == id
            && items[k].name is None by {
            assert(part[k - 1] == items[k]);
        }
    }
}

proof fn lemma_all_clear(groups: Seq<(MinimaxGroup, Seq<char>)>)
    requires
        clear_groups_when_cut(groups),
    ensures
        forall|i: int|
            0 <= i < all_calls(groups).len() ==> clear_when_cut(#[trigger] all_calls(groups)[i]),
    decreases groups.len(),
{
    if groups.len() > 0 {
        let more = groups.skip(1);
        assert(!contains(groups[0].1, TOOL_CALL_OPEN@));
        assert forall|i: int| 0 <= i < more.len() implies {
            &&& !contains((#[trigger] more[i]).0.head, "<invoke"@)
            &&& !contains(more[i].0.head, TOOL_CALL_CLOSE@)
            &&& clear_calls_when_cut(more[i].0.calls)
            &&& !contains(more[i].1, TOOL_CALL_OPEN@)
        } by {
            assert(more[i] == groups[i + 1]);
        }
        lemma_all_clear(more);
        let first = groups[0].0.calls;
        assert forall|i: int| 0 <= i < all_calls(groups).len() implies clear_when_cut(
            #[trigger] all_calls(groups)[i],
        ) by {
            if i < first.len() {
                assert(clear_when_cut(first[i]));
            } else {
                assert(all_calls(groups)[i] == all_calls(more)[i - first.len()]);
            }
        }
    }
}

/// The calls of a stream are those that were written in it, however it is cut into chunks: in
/// their order, each with the next index, its name before its parameters, which are sent as the
/// text of one JSON object. The values are those of the texts before they were written as XML. The
/// text outside of the groups is normal text.
pub proof fn lemma_stream_carries(
    st: MinimaxState,
    chunks: Seq<Seq<char>>,
    tools: Seq<Tool>,
    lead: Seq<char>,
    groups: Seq<(MinimaxGroup, Seq<char>)>,
)
    requires
        consistent(st),
        !st.in_call,
        chunks.len() > 0,
        !contains(lead, TOOL_CALL_OPEN@),
        clear_groups_when_cut(groups),
        st.buffer + joined(chunks) == lead + written_groups(groups),
    ensures
        ({
            let (end, all) = feed_all(st, chunks, tools);
            &&& streams(all.calls, current(st), all_calls(groups), tools)
            &&& text_of(all.normal_text + end.buffer, lead, groups)
        }),
{
    lemma_stream_cut(st, chunks, tools, lead, groups);
    lemma_all_clear(groups);
    let all = feed_all(st, chunks, tools).1;
    lemma_streams(all.calls, current(st), all_calls(groups), tools);
}

/// A new stream sends its calls from the index 0 on.
pub proof fn lemma_new_stream(
    chunks: Seq<Seq<char>>,
    tools: Seq<Tool>,
    lead: Seq<char>,
    groups: Seq<(MinimaxGroup, Seq<char>)>,
)
    requires
        chunks.len() > 0,
        !contains(lead, TOOL_CALL_OPEN@),
        clear_groups_when_cut(groups),
        joined(chunks) == lead + written_groups(groups),
    ensures
        streams(feed_all(initial(), chunks, tools).1.calls, 0, all_calls(groups), tools),
{
    lemma_initial_consistent();
    assert(initial().buffer + joined(chunks) =~= joined(chunks));
    lemma_stream_carries(initial(), chunks, tools, lead, groups);
}

/// The parameters that stand complete in the text are taken up, unless there are none, or they are
/// known: as many, each under its name with an equal value. Then nothing changes and nothing is
/// sent.
pub proof fn lemma_params_taken_up(st: MinimaxState, text: Seq<char>, tools: Seq<Tool>)
    ensures
        ({
            let (next, items) = stream_params(st, text, tools);
            let new = params_in(text, st.name, tools);
            let known = new.len() == 0 || {
                &&& new.len() == st.params.len()
                &&& forall|i: int|
                    0 <= i < new.len() ==> exists|j: int|
                        0 <= j < st.params.len() && (#[trigger] st.params[j]).0 == (
                        #[trigger] new[i]).0 && values_equal(new[i].1, st.params[j].1)
            };
            &&& known ==> next == st && items.len() == 0
            &&& !known ==> next.params == new
        }),
{
    let new = params_in(text, st.name, tools);
    if new.len() > 0 && same_params(new, st.params) {
        assert forall|i: int| 0 <= i < new.len() implies exists|j: int|
            0 <= j < st.params.len() && (#[trigger] st.params[j]).0 == (#[trigger] new[i]).0
                && values_equal(new[i].1, st.params[j].1) by {
            assert(has_equal(st.params, new[i].0, new[i].1));
        }
    }
}

/// The current call is kept by its name and by an object of the parameters that were read of it.
/// Nothing else that is kept changes.
pub proof fn lemma_call_kept(st: MinimaxState, text: Seq<char>, tools: Seq<Tool>)
    requires
        st.id matches Some(id) && 0 <= id,
    ensures
        ({
            let next = stream_params(st, text, tools).0;
            let id = st.id->0;
            &&& forall|i: int|
                0 <= i < st.calls.len() && i != id ==> (#[trigger] next.calls[i]) == st.calls[i]
            &&& next != st ==> {
                &&& id < next.calls.len()
                &&& next.calls[id] matches Some(call)
                &&& call.name == st.name
                &&& call.arguments matches JsonModel::Object(members)
                &&& forall|key: Seq<char>| #[trigger]
                    members.contains_key(key) <==> exists|i: int|
                        0 <= i < next.params.len() && (#[trigger] next.params[i]).0 == key
                &&& forall|i: int| #[trigger]
                    is_last_of(next.params, i) ==> members[next.params[i].0] == next.params[i].1
            }
        }),
{
    let new = params_in(text, st.name, tools);
    let next = stream_params(st, text, tools).0;
    let id = st.id->0;
    lemma_members(new);
    if next != st {
        assert(next.params == new);
        assert(next.calls[id] == Some(
            TrackedModel { name: st.name, arguments: JsonModel::Object(members_of(new)) },
        ));
    }
}

} // verus!
