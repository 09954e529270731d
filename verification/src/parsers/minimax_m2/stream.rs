//! Reading a stream of MiniMax M2 in chunks.
//!
//! The parser passes through three phases: it seeks the opening tag of a group, then the
//! opening tag of a call in the group (or the end of the group), then it reads the parameters
//! of the call up to its end. Each phase is one function from state to state, and
//! [`run`] follows them as far as the text in the buffer allows.
use super::markup::{
    call_end, find_call_end, find_invoke_open_offset, lemma_call_end, named_open, open_position,
    parameter_pairs, parse_parameter_pairs, try_parse_invoke_open, INVOKE_CLOSE, TOOL_CALL_CLOSE,
    TOOL_CALL_OPEN,
};
use super::params::{
    added_fragment, collected, distinct, opening_fragment, params_equal, params_model,
    params_object, same_params, set_param, write_added, write_opening, Params,
};
use super::entities::decoded;
use super::MinimaxM2Parser;
use crate::json::{members_of, value_model, JsonModel};
use crate::parsers::helpers::{
    coerce_by_schema_type, coerced, declared_type, declared_type_of, ends_with_partial_token,
    ensure_capacity, get_unstreamed_args, infer_value, inferred_value, padded,
    param_types_for_function, parse_value, partial_token, plain_value, properties_of, unstreamed,
    value_ref_model,
};
use crate::text::encoding::{lemma_byte_offset_monotone, lemma_occurrence_encodes};
use crate::text::search::{
    byte_len, cut, first_occurrence, lemma_first_occurrence, occurs_at, split,
    starts_with,
};
use crate::types::{
    argument_item, item_models, name_item, text_pairs, texts, tracked_models, ItemModel,
    ParserResult, ResultModel, StreamingParseResult, Tool, ToolCallItem, TrackedCall, TrackedModel,
};
use serde_json::Value;
use vstd::prelude::*;

verus! {

/// What the parser keeps from one chunk to the next.
pub struct MinimaxState {
    /// The text that is not yet dealt with.
    pub buffer: Seq<char>,
    /// The calls so far, as far as their arguments are read.
    pub calls: Seq<Option<TrackedModel>>,
    /// The index of the current call, or of the next; none before the first.
    pub id: Option<int>,
    /// What was sent of the arguments of each call.
    pub streamed: Seq<Seq<char>>,
    /// The name of the current call.
    pub name: Seq<char>,
    /// The parameters of the current call, as far as they are read.
    pub params: Params,
    /// The parser is inside a group.
    pub in_call: bool,
    /// The parser is inside a call.
    pub name_sent: bool,
}

/// The state before the first chunk.
pub open spec fn initial() -> MinimaxState {
    MinimaxState {
        buffer: seq![],
        calls: seq![],
        id: None,
        streamed: seq![],
        name: seq![],
        params: seq![],
        in_call: false,
        name_sent: false,
    }
}

/// The value of a parameter in a stream: by its schema type, else JSON if it looks like an
/// object or an array, else a plain value.
pub open spec fn streamed_value(
    key: Seq<char>,
    raw: Seq<char>,
    properties: Option<JsonModel>,
) -> JsonModel {
    let text = decoded(raw);
    match coerced(text, declared_type_of(properties, key)) {
        Some(value) => value,
        None => if occurs_at(text, "{"@, 0) || occurs_at(text, "["@, 0) {
            inferred_value(text)
        } else {
            plain_value(text)
        },
    }
}

/// The values of some parameters in a stream.
pub open spec fn streamed_values(
    pairs: Seq<(Seq<char>, Seq<char>)>,
    properties: Option<JsonModel>,
) -> Params {
    Seq::new(pairs.len(), |i: int| (pairs[i].0, streamed_value(pairs[i].0, pairs[i].1, properties)))
}

/// The parameters of the current call that stand complete in `text`.
pub open spec fn params_in(text: Seq<char>, name: Seq<char>, tools: Seq<Tool>) -> Params {
    collected(streamed_values(parameter_pairs(text), properties_of(tools, name)))
}

/// What is sent when the parameters become `new`: the beginning of the object with the first of
/// them, and then those that are new.
pub open spec fn fragment(new: Params, known: Params) -> Seq<char> {
    if known.len() == 0 {
        opening_fragment(new)
    } else {
        added_fragment(new, known)
    }
}

/// The items that send `parameters` for the call `id`: none, if there is nothing to send.
pub open spec fn fragment_items(id: int, parameters: Seq<char>) -> Seq<ItemModel> {
    if parameters.len() > 0 {
        seq![argument_item(id, parameters)]
    } else {
        seq![]
    }
}

/// Takes up the parameters that stand complete in `text`, and what is sent for them.
pub open spec fn stream_params(st: MinimaxState, text: Seq<char>, tools: Seq<Tool>) -> (
    MinimaxState,
    Seq<ItemModel>,
) {
    let id = st.id->0;
    let new = params_in(text, st.name, tools);
    if new.len() == 0 || same_params(new, st.params) {
        (st, seq![])
    } else {
        let streamed = padded(st.streamed, id + 1, seq![]);
        let parameters = fragment(new, st.params);
        let sent = if st.params.len() == 0 {
            parameters
        } else {
            streamed[id] + parameters
        };
        let call = TrackedModel { name: st.name, arguments: JsonModel::Object(members_of(new)) };
        (
            MinimaxState {
                calls: padded(st.calls, id + 1, None).update(id, Some(call)),
                streamed: streamed.update(id, sent),
                params: new,
                ..st
            },
            fragment_items(id, parameters),
        )
    }
}

/// Closes the object of the arguments of the call `id`, if anything of it was sent: nothing else
/// closes it.
pub open spec fn close_object(streamed: Seq<Seq<char>>, id: int) -> (
    Seq<Seq<char>>,
    Seq<ItemModel>,
) {
    if id < streamed.len() && streamed[id].len() > 0 {
        (streamed.update(id, streamed[id] + "}"@), seq![argument_item(id, "}"@)])
    } else {
        (streamed, seq![])
    }
}

/// The next state, the output so far, and whether there is more to be done.
pub struct Progress {
    pub more: bool,
    pub state: MinimaxState,
    pub out: ResultModel,
}

/// `out` with further items.
pub open spec fn with_items(out: ResultModel, items: Seq<ItemModel>) -> ResultModel {
    ResultModel { normal_text: out.normal_text, calls: out.calls + items }
}

/// Outside of a group: all of the text up to the next group is normal text, and takes the place of
/// the normal text that came before in the same chunk. What may be the beginning of an opening tag
/// stays in the buffer.
pub open spec fn seek_group(st: MinimaxState, out: ResultModel) -> Progress {
    match first_occurrence(st.buffer, TOOL_CALL_OPEN@) {
        Some(i) => Progress {
            more: true,
            state: MinimaxState {
                buffer: st.buffer.skip(i + TOOL_CALL_OPEN@.len()),
                in_call: true,
                name_sent: false,
                name: seq![],
                params: seq![],
                ..st
            },
            out: ResultModel { normal_text: st.buffer.take(i), calls: out.calls },
        },
        None => {
            let end = match partial_token(st.buffer, TOOL_CALL_OPEN@) {
                Some(n) => st.buffer.len() - n,
                None => st.buffer.len() as int,
            };
            Progress {
                more: false,
                state: MinimaxState { buffer: st.buffer.skip(end), ..st },
                out: ResultModel { normal_text: st.buffer.take(end), calls: out.calls },
            }
        },
    }
}

/// The position at which the group ends, if it ends before the next call.
pub open spec fn group_end(buffer: Seq<char>) -> Option<int> {
    match first_occurrence(buffer, TOOL_CALL_CLOSE@) {
        Some(e) => match open_position(buffer, "<invoke"@) {
            Some(i) => if e < i {
                Some(e)
            } else {
                None
            },
            None => Some(e),
        },
        None => None,
    }
}

/// The index of the current call.
pub open spec fn current(st: MinimaxState) -> int {
    match st.id {
        Some(id) => id,
        None => 0,
    }
}

/// Inside of a group: its end, or the next call, which is announced by its name.
pub open spec fn seek_call(st: MinimaxState, out: ResultModel) -> Progress {
    match group_end(st.buffer) {
        Some(e) => Progress {
            more: true,
            state: MinimaxState {
                buffer: st.buffer.skip(e + TOOL_CALL_CLOSE@.len()),
                in_call: false,
                name: seq![],
                params: seq![],
                ..st
            },
            out,
        },
        None => match named_open(st.buffer, "<invoke"@) {
            Some((name, k)) => {
                let id = current(st);
                Progress {
                    more: true,
                    state: MinimaxState {
                        buffer: st.buffer.skip(k),
                        name,
                        name_sent: true,
                        id: Some(id),
                        calls: padded(st.calls, id + 1, None),
                        streamed: padded(st.streamed, id + 1, seq![]),
                        ..st
                    },
                    out: with_items(out, seq![name_item(id, name)]),
                }
            },
            None => Progress { more: false, state: st, out },
        },
    }
}

/// What stands in the buffer of the current call: all of it, if the call does not end there.
pub open spec fn call_text(buffer: Seq<char>) -> Seq<char> {
    match call_end(buffer) {
        Some(c) => buffer.take(c),
        None => buffer,
    }
}

/// Inside of a call: its own parameters, and its end.
pub open spec fn read_call(st: MinimaxState, out: ResultModel, tools: Seq<Tool>) -> Progress {
    let (next, items) = stream_params(st, call_text(st.buffer), tools);
    match call_end(st.buffer) {
        Some(c) => {
            let id = next.id->0;
            let (streamed, closing) = close_object(next.streamed, id);
            Progress {
                more: true,
                state: MinimaxState {
                    buffer: next.buffer.skip(c + INVOKE_CLOSE@.len()),
                    streamed,
                    name_sent: false,
                    name: seq![],
                    params: seq![],
                    id: Some(id + 1),
                    ..next
                },
                out: with_items(with_items(out, items), closing),
            }
        },
        None => Progress { more: false, state: next, out: with_items(out, items) },
    }
}

/// One step of the parser.
pub open spec fn advance(st: MinimaxState, out: ResultModel, tools: Seq<Tool>) -> Progress {
    if !st.in_call {
        seek_group(st, out)
    } else if !st.name_sent {
        seek_call(st, out)
    } else {
        read_call(st, out, tools)
    }
}

/// The steps of the parser, as far as the text in the buffer allows.
pub open spec fn run(st: MinimaxState, out: ResultModel, tools: Seq<Tool>) -> (
    MinimaxState,
    ResultModel,
)
    decreases st.buffer.len(),
{
    let p = advance(st, out, tools);
    if p.more && p.state.buffer.len() < st.buffer.len() {
        run(p.state, p.out, tools)
    } else {
        (p.state, p.out)
    }
}

/// What the parser does with a chunk.
pub open spec fn feed(st: MinimaxState, chunk: Seq<char>, tools: Seq<Tool>) -> (
    MinimaxState,
    ResultModel,
) {
    run(
        MinimaxState { buffer: st.buffer + chunk, ..st },
        ResultModel { normal_text: seq![], calls: seq![] },
        tools,
    )
}

/// The state is one that the parser can be in.
pub open spec fn valid(st: MinimaxState) -> bool {
    &&& distinct(st.params)
    &&& st.id matches Some(id) ==> 0 <= id
    &&& st.name_sent ==> {
        &&& st.id is Some
        &&& st.id->0 < st.calls.len()
        &&& st.id->0 < st.streamed.len()
    }
}

/// The index of a call as an integer.
pub open spec fn index_of(id: Option<usize>) -> Option<int> {
    match id {
        Some(id) => Some(id as int),
        None => None,
    }
}

impl View for MinimaxM2Parser {
    type V = MinimaxState;

    closed spec fn view(&self) -> MinimaxState {
        MinimaxState {
            buffer: self.buffer@,
            calls: tracked_models(self.prev_tool_call_arr@),
            id: index_of(self.current_tool_id),
            streamed: texts(self.streamed_args_for_tool@),
            name: self.current_function_name@,
            params: params_model(self.current_parameters@),
            in_call: self.in_tool_call,
            name_sent: self.function_name_sent,
        }
    }
}

/// The value of a parameter in a stream.
fn read_streamed_value(key: &str, raw: &str, properties: Option<&Value>) -> (r: Value)
    ensures
        value_model(r) == streamed_value(key@, raw@, value_ref_model(properties)),
{
    let text = MinimaxM2Parser::decode_xml_entities(raw);
    match coerce_by_schema_type(&text, declared_type(properties, key)) {
        Some(value) => value,
        None => {
            if starts_with(&text, "{") || starts_with(&text, "[") {
                infer_value(&text)
            } else {
                parse_value(&text)
            }
        },
    }
}

/// The parameters of the call of `name` that stand complete in `text`.
fn read_params(text: &str, name: &str, tools: &[Tool]) -> (r: Vec<(String, Value)>)
    ensures
        params_model(r@) == params_in(text@, name@, tools@),
        distinct(params_model(r@)),
{
    let properties = param_types_for_function(tools, name);
    let pairs = parse_parameter_pairs(text);
    let n = pairs.len();
    let mut params: Vec<(String, Value)> = Vec::new();
    let mut i: usize = 0;
    let ghost all = streamed_values(parameter_pairs(text@), value_ref_model(properties));
    assert(all.take(0) =~= seq![]);
    assert(params_model(params@) =~= seq![]);
    while i < n
        invariant
            n == pairs@.len(),
            i <= n,
            text_pairs(pairs@) == parameter_pairs(text@),
            all == streamed_values(parameter_pairs(text@), value_ref_model(properties)),
            params_model(params@) == collected(all.take(i as int)),
            distinct(params_model(params@)),
        decreases n - i,
    {
        assert(text_pairs(pairs@)[i as int] == (pairs@[i as int].0@, pairs@[i as int].1@));
        let value = read_streamed_value(&pairs[i].0, &pairs[i].1, properties);
        assert(all.take(i + 1).drop_last() =~= all.take(i as int));
        set_param(&mut params, pairs[i].0.clone(), value);
        i += 1;
    }
    assert(all.take(n as int) =~= all);
    params
}

/// Adds the item that sends `parameters` for the call `id`.
fn push_argument(items: &mut Vec<ToolCallItem>, id: usize, parameters: String)
    ensures
        item_models(final(items)@) == item_models(old(items)@).push(
            argument_item(id as int, parameters@),
        ),
{
    let ghost before = items@;
    let ghost text = parameters@;
    items.push(ToolCallItem { tool_index: id, name: None, parameters });
    assert(item_models(items@) =~= item_models(before).push(argument_item(id as int, text)));
}

/// Adds to one of some strings.
fn append_at(strings: &mut Vec<String>, i: usize, more: &str)
    requires
        i < old(strings)@.len(),
    ensures
        texts(final(strings)@) == texts(old(strings)@).update(
            i as int,
            old(strings)@[i as int]@ + more@,
        ),
{
    let ghost before = strings@;
    let mut s = strings[i].clone();
    s.append(more);
    strings.set(i, s);
    assert(texts(strings@) =~= texts(before).update(i as int, before[i as int]@ + more@));
}

impl MinimaxM2Parser {
    /// The parser is in a state that it can be in.
    pub closed spec fn wf(&self) -> bool {
        valid(self@)
    }

    /// A new parser.
    pub fn new() -> (r: Self)
        ensures
            r.wf(),
            r@ == initial(),
    {
        let r = MinimaxM2Parser {
            buffer: String::new(),
            prev_tool_call_arr: Vec::new(),
            current_tool_id: None,
            streamed_args_for_tool: Vec::new(),
            current_function_name: String::new(),
            current_parameters: Vec::new(),
            in_tool_call: false,
            function_name_sent: false,
        };
        assert(r@.buffer =~= initial().buffer);
        assert(r@.calls =~= initial().calls);
        assert(r@.streamed =~= initial().streamed);
        assert(r@.name =~= initial().name);
        assert(r@.params =~= initial().params);
        r
    }

    /// Takes up the parameters that stand complete in `text`, and gives what is sent for them.
    fn parse_and_stream_parameters(&mut self, text: &str, tools: &[Tool]) -> (r: Vec<ToolCallItem>)
        requires
            valid(old(self)@),
            old(self)@.name_sent,
        ensures
            (final(self)@, item_models(r@)) == stream_params(old(self)@, text@, tools@),
            valid(final(self)@),
    {
        let mut calls: Vec<ToolCallItem> = Vec::new();
        assert(item_models(calls@) =~= seq![]);
        let tool_id = match self.current_tool_id {
            Some(id) => id,
            None => {
                return calls;
            },
        };
        let new_params = read_params(text, &self.current_function_name, tools);
        if new_params.len() == 0 || params_equal(&new_params, &self.current_parameters) {
            return calls;
        }
        let ghost st = self@;
        let ghost new = params_model(new_params@);
        let ghost id = tool_id as int;
        ensure_capacity(tool_id, &mut self.prev_tool_call_arr, &mut self.streamed_args_for_tool);
        if self.current_parameters.len() == 0 {
            let json_fragment = write_opening(&new_params);
            let ghost parameters = json_fragment@;
            proof {
                reveal_strlit("{");
            }
            push_argument(&mut calls, tool_id, json_fragment.clone());
            let ghost before = self.streamed_args_for_tool@;
            self.streamed_args_for_tool.set(tool_id, json_fragment);
            assert(texts(self.streamed_args_for_tool@) =~= texts(before).update(id, parameters));
            assert(item_models(calls@) =~= fragment_items(id, parameters));
        } else {
            let json_fragment = write_added(&new_params, &self.current_parameters);
            let ghost parameters = json_fragment@;
            let ghost before = self.streamed_args_for_tool@;
            append_at(&mut self.streamed_args_for_tool, tool_id, &json_fragment);
            if !json_fragment.as_str().is_empty() {
                push_argument(&mut calls, tool_id, json_fragment);
            }
            assert(item_models(calls@) =~= fragment_items(id, parameters));
        }
        let arguments = params_object(&new_params);
        self.current_parameters = new_params;
        let ghost before = self.prev_tool_call_arr@;
        let call = TrackedCall { name: self.current_function_name.clone(), arguments };
        let ghost model = call@;
        self.prev_tool_call_arr.set(tool_id, Some(call));
        assert(tracked_models(self.prev_tool_call_arr@) =~= tracked_models(before).update(
            id,
            Some(model),
        ));
        calls
    }

    /// Outside of a group: finds the next one. True if there is more to be done.
    fn find_group(&mut self, out: &mut StreamingParseResult) -> (r: bool)
        requires
            valid(old(self)@),
        ensures
            ({
                let p = seek_group(old(self)@, old(out)@);
                &&& r == p.more
                &&& final(self)@ == p.state
                &&& final(out)@ == p.out
                &&& p.more ==> p.state.buffer.len() < old(self)@.buffer.len()
            }),
            valid(final(self)@),
    {
        proof {
            reveal_strlit("<minimax:tool_call>");
        }
        match cut(&self.buffer, TOOL_CALL_OPEN) {
            Some((_, before, after)) => {
                out.normal_text = before.to_owned();
                self.buffer = after.to_owned();
                self.in_tool_call = true;
                self.function_name_sent = false;
                self.current_function_name = String::new();
                self.current_parameters = Vec::new();
                assert(self@.name =~= seq![]);
                assert(self@.params =~= seq![]);
                true
            },
            None => {
                match ends_with_partial_token(&self.buffer, TOOL_CALL_OPEN) {
                    Some(partial_len) => {
                        let ghost n = partial_token(self.buffer@, TOOL_CALL_OPEN@)->0;
                        let ghost at = self.buffer@.len() - n;
                        proof {
                            lemma_occurrence_encodes(
                                self.buffer@,
                                TOOL_CALL_OPEN@.take(n),
                                at,
                            );
                        }
                        let end = byte_len(&self.buffer) - partial_len;
                        let (head, tail) = split(&self.buffer, end, Ghost(at));
                        out.normal_text = head.to_owned();
                        self.buffer = tail.to_owned();
                    },
                    None => {
                        out.normal_text = self.buffer.clone();
                        proof {
                            let n = self.buffer@.len() as int;
                            assert(self.buffer@.take(n) =~= self.buffer@);
                            assert(self.buffer@.skip(n) =~= seq![]);
                        }
                        self.buffer = String::new();
                    },
                }
                false
            },
        }
    }

    /// The end of the group, if it comes before the next call: what follows it.
    fn after_group(&self) -> (r: Option<String>)
        ensures
            match r {
                Some(rest) => {
                    &&& group_end(self@.buffer) matches Some(e)
                    &&& rest@ == self@.buffer.skip(e + TOOL_CALL_CLOSE@.len())
                    &&& rest@.len() < self@.buffer.len()
                },
                None => group_end(self@.buffer) is None,
            },
    {
        proof {
            reveal_strlit("</minimax:tool_call>");
        }
        match cut(&self.buffer, TOOL_CALL_CLOSE) {
            Some((end_pos, _, rest)) => {
                match find_invoke_open_offset(&self.buffer) {
                    Some(i) => {
                        proof {
                            let e = first_occurrence(self.buffer@, TOOL_CALL_CLOSE@)->0;
                            let k = open_position(self.buffer@, "<invoke"@)->0;
                            lemma_first_occurrence(self.buffer@, "<invoke"@);
                            if e < k {
                                lemma_byte_offset_monotone(self.buffer@, e, k);
                            } else if k < e {
                                lemma_byte_offset_monotone(self.buffer@, k, e);
                            }
                        }
                        if end_pos < i {
                            Some(rest.to_owned())
                        } else {
                            None
                        }
                    },
                    None => Some(rest.to_owned()),
                }
            },
            None => None,
        }
    }

    /// Inside of a group: finds its end or the next call. True if there is more to be done.
    fn find_call(&mut self, out: &mut StreamingParseResult) -> (r: bool)
        requires
            valid(old(self)@),
            !old(self)@.name_sent,
        ensures
            ({
                let p = seek_call(old(self)@, old(out)@);
                &&& r == p.more
                &&& final(self)@ == p.state
                &&& final(out)@ == p.out
                &&& p.more ==> p.state.buffer.len() < old(self)@.buffer.len()
            }),
            valid(final(self)@),
    {
        match self.after_group() {
            Some(rest) => {
                self.buffer = rest;
                self.in_tool_call = false;
                self.current_function_name = String::new();
                self.current_parameters = Vec::new();
                assert(self@.name =~= seq![]);
                assert(self@.params =~= seq![]);
                return true;
            },
            None => {},
        }
        match try_parse_invoke_open(&self.buffer) {
            Some((function_name, after_open)) => {
                let ghost k = (named_open(self.buffer@, "<invoke"@)->0).1;
                let rest = split(&self.buffer, after_open, Ghost(k)).1.to_owned();
                let tool_id = match self.current_tool_id {
                    Some(id) => id,
                    None => 0,
                };
                ensure_capacity(
                    tool_id,
                    &mut self.prev_tool_call_arr,
                    &mut self.streamed_args_for_tool,
                );
                self.current_function_name = function_name.clone();
                self.function_name_sent = true;
                self.current_tool_id = Some(tool_id);
                let ghost items = out.calls@;
                let ghost name = function_name@;
                out.calls.push(
                    ToolCallItem {
                        tool_index: tool_id,
                        name: Some(function_name),
                        parameters: String::new(),
                    },
                );
                assert(item_models(out.calls@) =~= item_models(items) + seq![
                    name_item(tool_id as int, name),
                ]);
                self.buffer = rest;
                true
            },
            None => false,
        }
    }

    /// Inside of a call: reads its parameters and its end. True if there is more to be done.
    fn read_parameters(&mut self, out: &mut StreamingParseResult, tools: &[Tool]) -> (r: bool)
        requires
            valid(old(self)@),
            old(self)@.name_sent,
        ensures
            ({
                let p = read_call(old(self)@, old(out)@, tools@);
                &&& r == p.more
                &&& final(self)@ == p.state
                &&& final(out)@ == p.out
                &&& p.more ==> p.state.buffer.len() < old(self)@.buffer.len()
            }),
            valid(final(self)@),
    {
        let end = find_call_end(&self.buffer);
        let text = match end {
            Some(at) => split(&self.buffer, at, Ghost(call_end(self.buffer@)->0)).0.to_owned(),
            None => self.buffer.clone(),
        };
        let mut items = self.parse_and_stream_parameters(&text, tools);
        let ghost next = self@;
        let ghost sent = item_models(items@);
        let ghost before = out@;
        proof {
            assert(item_models(out.calls@ + items@) =~= item_models(out.calls@) + item_models(
                items@,
            ));
        }
        out.calls.append(&mut items);
        assert(out@ == with_items(before, sent));
        match end {
            Some(at) => {
                let ghost c = call_end(self.buffer@)->0;
                proof {
                    reveal_strlit("</invoke>");
                    lemma_call_end(self.buffer@);
                    lemma_occurrence_encodes(self.buffer@, INVOKE_CLOSE@, c);
                }
                let tool_id = match self.current_tool_id {
                    Some(id) => id,
                    None => {
                        return false;
                    },
                };
                let bound = self.prev_tool_call_arr.len();
                let ghost closing = close_object(next.streamed, tool_id as int);
                let ghost after = out@;
                if self.close_arguments(tool_id) {
                    push_argument(&mut out.calls, tool_id, "}".to_owned());
                }
                assert(out@.calls =~= with_items(after, closing.1).calls);
                let total = byte_len(&self.buffer);
                let rest = split(
                    &self.buffer,
                    at + byte_len(INVOKE_CLOSE),
                    Ghost(c + INVOKE_CLOSE@.len()),
                ).1.to_owned();
                self.buffer = rest;
                self.function_name_sent = false;
                self.current_function_name = String::new();
                self.current_parameters = Vec::new();
                self.current_tool_id = Some(tool_id + 1);
                assert(self@.name =~= seq![]);
                assert(self@.params =~= seq![]);
                true
            },
            None => false,
        }
    }

    /// Closes the object of the arguments of the call `tool_id`, if anything of it was sent. True
    /// if it was.
    fn close_arguments(&mut self, tool_id: usize) -> (r: bool)
        ensures
            ({
                let closed = close_object(old(self)@.streamed, tool_id as int);
                &&& final(self)@ == (MinimaxState { streamed: closed.0, ..old(self)@ })
                &&& closed.1 == (if r {
                    seq![argument_item(tool_id as int, "}"@)]
                } else {
                    seq![]
                })
                &&& final(self).prev_tool_call_arr == old(self).prev_tool_call_arr
                &&& final(self).buffer == old(self).buffer
            }),
    {
        if tool_id < self.streamed_args_for_tool.len() {
            if !self.streamed_args_for_tool[tool_id].as_str().is_empty() {
                append_at(&mut self.streamed_args_for_tool, tool_id, "}");
                return true;
            }
        }
        false
    }

    /// Takes up a chunk of the stream. Names are passed on whether a tool has them or not.
    pub fn parse_incremental(&mut self, chunk: &str, tools: &[Tool]) -> (r: ParserResult<
        StreamingParseResult,
    >)
        requires
            old(self).wf(),
        ensures
            final(self).wf(),
            r is Ok,
            (final(self)@, r->Ok_0@) == feed(old(self)@, chunk@, tools@),
    {
        self.buffer.append(chunk);
        let mut out = StreamingParseResult::default();
        let ghost goal = run(self@, out@, tools@);
        loop
            invariant_except_break
                run(self@, out@, tools@) == goal,
            invariant
                valid(self@),
            ensures
                (self@, out@) == goal,
            decreases self@.buffer.len(),
        {
            let more = if !self.in_tool_call {
                self.find_group(&mut out)
            } else if !self.function_name_sent {
                self.find_call(&mut out)
            } else {
                self.read_parameters(&mut out, tools)
            };
            if !more {
                break;
            }
        }
        Ok(out)
    }

    /// What is still to be sent of the arguments of the last call.
    pub fn get_unstreamed_tool_args(&self) -> (r: Option<Vec<ToolCallItem>>)
        ensures
            match r {
                Some(items) => {
                    &&& unstreamed(self@.calls, self@.streamed) matches Some(item)
                    &&& item_models(items@) == seq![item]
                },
                None => unstreamed(self@.calls, self@.streamed) is None,
            },
    {
        get_unstreamed_args(&self.prev_tool_call_arr, &self.streamed_args_for_tool)
    }

    /// Forgets the stream so far.
    pub fn reset(&mut self)
        ensures
            final(self).wf(),
            final(self)@ == initial(),
    {
        *self = Self::new();
    }
}

impl Default for MinimaxM2Parser {
    fn default() -> (r: Self)
        ensures
            r.wf(),
            r@ == initial(),
    {
        Self::new()
    }
}

} // verus!
