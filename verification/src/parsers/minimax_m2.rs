//! The format of MiniMax M2:
//! `<minimax:tool_call><invoke name="func"><parameter name="key">value</parameter></invoke></minimax:tool_call>`.
//!
//! A group may hold several calls. A closing tag that stands literally in the value of a
//! parameter is kept: each closing tag is matched against the next sibling.
pub mod cutting;
pub mod entities;
pub mod markup;
pub mod outline;
pub mod params;
pub mod prefix;
pub mod round_trip;
pub mod stream;
pub mod streaming;
pub mod values;

use crate::json::{
    json_text, object_insert, object_model, object_new, object_value, members_of, write_json,
    JsonModel,
};
use crate::parsers::helpers::{
    coerce_by_schema_type, coerced, declared_type, declared_type_of, param_types_for_function,
    parse_value, plain_value, properties_of, value_ref_model,
};
use crate::parsers::spans::{blocks, lemma_spans_ordered, spans};
use crate::text::encoding::byte_offset;
use crate::text::search::{contains, has, split};
use crate::types::{
    call_models, text_pairs, CallModel, FunctionCall, ParserResult, Tool, ToolCall, TrackedCall,
};
use entities::decoded;
use markup::{
    block_texts, invoke_blocks, iter_invoke_blocks, iter_tool_call_blocks, parameter_pairs,
    parse_parameter_pairs, TOOL_CALL_CLOSE, TOOL_CALL_OPEN,
};
use serde_json::Value;
use vstd::prelude::*;

verus! {

/// Parser for the tool calls of MiniMax M2.
pub struct MinimaxM2Parser {
    buffer: String,
    prev_tool_call_arr: Vec<Option<TrackedCall>>,
    current_tool_id: Option<usize>,
    streamed_args_for_tool: Vec<String>,
    current_function_name: String,
    current_parameters: Vec<(String, Value)>,
    in_tool_call: bool,
    function_name_sent: bool,
}

/// The member of the arguments for the parameter `key` with the markup `raw` as its value.
pub open spec fn argument_of(
    key: Seq<char>,
    raw: Seq<char>,
    properties: Option<JsonModel>,
) -> JsonModel {
    match coerced(decoded(raw), declared_type_of(properties, key)) {
        Some(value) => value,
        None => plain_value(decoded(raw)),
    }
}

/// The members of the arguments, one for each parameter.
pub open spec fn arguments_of(
    pairs: Seq<(Seq<char>, Seq<char>)>,
    properties: Option<JsonModel>,
) -> Seq<(Seq<char>, JsonModel)> {
    Seq::new(pairs.len(), |i: int| (pairs[i].0, argument_of(pairs[i].0, pairs[i].1, properties)))
}

/// The call of `name` with the parameters in `params_text`.
pub open spec fn call_of(name: Seq<char>, params_text: Seq<char>, tools: Seq<Tool>) -> CallModel {
    CallModel {
        name,
        arguments: json_text(
            JsonModel::Object(
                members_of(arguments_of(parameter_pairs(params_text), properties_of(tools, name))),
            ),
        ),
    }
}

/// The calls in a group.
pub open spec fn block_calls(block: Seq<char>, tools: Seq<Tool>) -> Seq<CallModel> {
    let invokes = invoke_blocks(block);
    Seq::new(invokes.len(), |i: int| call_of(invokes[i].0, invokes[i].1, tools))
}

/// The calls in the groups `groups`, one group after the other.
pub open spec fn groups_calls(groups: Seq<Seq<char>>, tools: Seq<Tool>) -> Seq<CallModel>
    decreases groups.len(),
{
    if groups.len() == 0 {
        seq![]
    } else {
        groups_calls(groups.drop_last(), tools) + block_calls(groups.last(), tools)
    }
}

/// The groups in `text`.
pub open spec fn groups(text: Seq<char>) -> Seq<Seq<char>> {
    blocks(text, TOOL_CALL_OPEN@, TOOL_CALL_CLOSE@)
}

/// The position of the first group from the group `i` on that holds a call.
pub open spec fn first_valid(text: Seq<char>, i: int) -> Option<int>
    decreases groups(text).len() - i,
{
    if i < 0 || i >= groups(text).len() {
        None
    } else if invoke_blocks(groups(text)[i]).len() > 0 {
        Some(spans(text, TOOL_CALL_OPEN@, TOOL_CALL_CLOSE@, 0)[i].0)
    } else {
        first_valid(text, i + 1)
    }
}

/// The text before the calls, and the calls: all of the text and no calls, where there are
/// none.
pub open spec fn complete(text: Seq<char>, tools: Seq<Tool>) -> (Seq<char>, Seq<CallModel>) {
    match first_valid(text, 0) {
        Some(pos) => (text.take(pos), groups_calls(groups(text), tools)),
        None => (text, seq![]),
    }
}

impl MinimaxM2Parser {
    /// The arguments that the parameters in `params_text` give, each of the schema type that is
    /// declared for it, or else by what it looks like.
    pub fn parse_parameters(params_text: &str, param_types: Option<&Value>) -> (r: serde_json::Map<
        String,
        Value,
    >)
        ensures
            object_model(r) == members_of(
                arguments_of(parameter_pairs(params_text@), value_ref_model(param_types)),
            ),
    {
        let mut parameters = object_new();
        let pairs = parse_parameter_pairs(params_text);
        let n = pairs.len();
        let mut i: usize = 0;
        let ghost all = arguments_of(parameter_pairs(params_text@), value_ref_model(param_types));
        assert(all.take(0) =~= seq![]);
        while i < n
            invariant
                n == pairs@.len(),
                i <= n,
                text_pairs(pairs@) == parameter_pairs(params_text@),
                all == arguments_of(parameter_pairs(params_text@), value_ref_model(param_types)),
                object_model(parameters) == members_of(all.take(i as int)),
            decreases n - i,
        {
            assert(text_pairs(pairs@)[i as int] == (pairs@[i as int].0@, pairs@[i as int].1@));
            let key = &pairs[i].0;
            let decoded_value = Self::decode_xml_entities(&pairs[i].1);
            let value = match coerce_by_schema_type(
                &decoded_value,
                declared_type(param_types, key),
            ) {
                Some(value) => value,
                None => parse_value(&decoded_value),
            };
            assert(all.take(i + 1).drop_last() =~= all.take(i as int));
            object_insert(&mut parameters, key.clone(), value);
            i += 1;
        }
        assert(all.take(n as int) =~= all);
        parameters
    }

    /// The calls in a group, which may hold several.
    pub fn parse_tool_call(block: &str, tools: &[Tool]) -> (r: Vec<ToolCall>)
        ensures
            call_models(r@) == block_calls(block@, tools@),
    {
        let mut calls: Vec<ToolCall> = Vec::new();
        let invokes = iter_invoke_blocks(block);
        let n = invokes.len();
        let mut i: usize = 0;
        assert(call_models(calls@) =~= block_calls(block@, tools@).take(0));
        while i < n
            invariant
                n == invokes@.len(),
                i <= n,
                block_texts(invokes@) == invoke_blocks(block@),
                call_models(calls@) == block_calls(block@, tools@).take(i as int),
            decreases n - i,
        {
            assert(block_texts(invokes@)[i as int] == (invokes@[i as int].0@, invokes@[i as int].1@));
            let func_name = &invokes[i].0;
            let param_types = param_types_for_function(tools, func_name);
            let parameters = Self::parse_parameters(invokes[i].1, param_types);
            let ghost before = calls@;
            match write_json(&object_value(parameters)) {
                Ok(arguments) => {
                    let call = ToolCall {
                        function: FunctionCall { name: func_name.clone(), arguments },
                    };
                    let ghost model = call@;
                    calls.push(call);
                    assert(model == block_calls(block@, tools@)[i as int]);
                    assert(call_models(calls@) =~= call_models(before).push(model));
                    assert(block_calls(block@, tools@).take(i + 1) =~= block_calls(
                        block@,
                        tools@,
                    ).take(i as int).push(model));
                },
                Err(_) => {},
            }
            i += 1;
        }
        assert(block_calls(block@, tools@).take(n as int) =~= block_calls(block@, tools@));
        calls
    }

    /// The calls in `text`, and the byte offset of the first group that holds one.
    pub fn parse_tool_calls_from_text(text: &str, tools: &[Tool]) -> (r: (
        Vec<ToolCall>,
        Option<usize>,
    ))
        ensures
            call_models(r.0@) == groups_calls(groups(text@), tools@),
            match r.1 {
                Some(at) => {
                    &&& first_valid(text@, 0) matches Some(pos)
                    &&& 0 <= pos <= text@.len()
                    &&& at == byte_offset(text@, pos)
                },
                None => first_valid(text@, 0) is None,
            },
            r.0@.len() > 0 <==> r.1 is Some,
    {
        let mut tool_calls: Vec<ToolCall> = Vec::new();
        let mut first_valid_pos: Option<usize> = None;
        let found = iter_tool_call_blocks(text);
        let n = found.len();
        let mut i: usize = 0;
        let ghost all = groups(text@);
        let ghost places = spans(text@, TOOL_CALL_OPEN@, TOOL_CALL_CLOSE@, 0);
        proof {
            lemma_spans_ordered(text@, TOOL_CALL_OPEN@, TOOL_CALL_CLOSE@, 0);
            assert(all.take(0) =~= seq![]);
            assert(call_models(tool_calls@) =~= seq![]);
        }
        while i < n
            invariant
                n == found@.len(),
                i <= n,
                all == groups(text@),
                n == all.len(),
                places == spans(text@, TOOL_CALL_OPEN@, TOOL_CALL_CLOSE@, 0),
                all.len() == places.len(),
                forall|j: int|
                    0 <= j < n ==> {
                        &&& (#[trigger] found@[j]).0 == byte_offset(text@, places[j].0)
                        &&& found@[j].1@ == all[j]
                    },
                forall|j: int| 0 <= j < n ==> 0 <= (#[trigger] places[j]).0 <= text@.len(),
                call_models(tool_calls@) == groups_calls(all.take(i as int), tools@),
                match first_valid_pos {
                    Some(at) => {
                        &&& first_valid(text@, 0) matches Some(pos)
                        &&& 0 <= pos <= text@.len()
                        &&& at == byte_offset(text@, pos)
                    },
                    None => first_valid(text@, 0) == first_valid(text@, i as int),
                },
                tool_calls@.len() > 0 <==> first_valid_pos is Some,
            decreases n - i,
        {
            let (start, block) = found[i];
            let mut calls = Self::parse_tool_call(block, tools);
            assert(call_models(calls@).len() == invoke_blocks(all[i as int]).len());
            if calls.len() > 0 && first_valid_pos.is_none() {
                first_valid_pos = Some(start);
            }
            proof {
                assert(all.take(i + 1).drop_last() =~= all.take(i as int));
                assert(call_models(tool_calls@ + calls@) =~= call_models(tool_calls@)
                    + call_models(calls@));
            }
            tool_calls.append(&mut calls);
            i += 1;
        }
        assert(all.take(n as int) =~= all);
        (tool_calls, first_valid_pos)
    }

    /// The text before the calls, and the calls, read by the schemas of `tools`.
    pub fn parse_complete_inner(&self, text: &str, tools: &[Tool]) -> (r: (String, Vec<ToolCall>))
        ensures
            (r.0@, call_models(r.1@)) == complete(text@, tools@),
    {
        if !self.has_tool_markers(text) {
            proof {
                lemma_no_marker(text@);
            }
            let none: Vec<ToolCall> = Vec::new();
            assert(call_models(none@) =~= seq![]);
            return (text.to_owned(), none);
        }
        let (tool_calls, first_valid_pos) = Self::parse_tool_calls_from_text(text, tools);
        match first_valid_pos {
            Some(at) => {
                let normal_text = split(text, at, Ghost(first_valid(text@, 0)->0)).0.to_owned();
                (normal_text, tool_calls)
            },
            None => {
                assert(call_models(tool_calls@) =~= seq![]);
                (text.to_owned(), tool_calls)
            },
        }
    }

    /// The text before the calls, and the calls. What type a value has is told by what it looks
    /// like.
    pub fn parse_complete(&self, text: &str) -> (r: ParserResult<(String, Vec<ToolCall>)>)
        ensures
            r is Ok,
            (r->Ok_0.0@, call_models(r->Ok_0.1@)) == complete(text@, seq![]),
    {
        let tools: Vec<Tool> = Vec::new();
        assert(tools@ =~= seq![]);
        Ok(self.parse_complete_inner(text, tools.as_slice()))
    }

    /// The text before the calls, and the calls, read by the schemas of `tools`.
    pub fn parse_complete_with_tools(&self, text: &str, tools: &[Tool]) -> (r: ParserResult<
        (String, Vec<ToolCall>),
    >)
        ensures
            r is Ok,
            (r->Ok_0.0@, call_models(r->Ok_0.1@)) == complete(text@, tools@),
    {
        Ok(self.parse_complete_inner(text, tools))
    }

    /// Whether `text` has the opening tag of a group.
    pub fn has_tool_markers(&self, text: &str) -> (r: bool)
        ensures
            r == contains(text@, TOOL_CALL_OPEN@),
    {
        proof {
            reveal_strlit("<minimax:tool_call>");
        }
        has(text, TOOL_CALL_OPEN)
    }
}

/// A text without the opening tag of a group has no groups.
proof fn lemma_no_marker(text: Seq<char>)
    requires
        !contains(text, TOOL_CALL_OPEN@),
    ensures
        groups(text).len() == 0,
        first_valid(text, 0) is None,
{
    assert(text.skip(0) =~= text);
    crate::text::search::lemma_first_occurrence(text, TOOL_CALL_OPEN@);
}

} // verus!
