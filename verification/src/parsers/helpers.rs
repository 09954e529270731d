//! What the parsers share: values from text, the schemas of tools, and the tracking of calls
//! in a stream.
use crate::json::{
    as_str, float_number, get, is_float, json_text, kind, member, parsed_json, read_float, read_json,
    scalar, value_model, write_json, JsonModel, Kind, NumberModel, Scalar,
};
use crate::text::edit::{strip_prefix, without_prefix};
use crate::text::number::{integer_of, parse_integer};
use crate::text::search::{ends_with, occurs_at, offset_for, same};
use crate::types::{
    argument_item, item_models, texts, tracked_models, ItemModel, Tool, ToolCallItem, TrackedCall,
    TrackedModel,
};
use serde_json::Value;
use vstd::prelude::*;

verus! {

/// The literal that `text` spells, in JSON or in Python.
pub open spec fn literal(text: Seq<char>) -> Option<JsonModel> {
    if text == "true"@ || text == "True"@ {
        Some(JsonModel::Bool(true))
    } else if text == "false"@ || text == "False"@ {
        Some(JsonModel::Bool(false))
    } else if text == "null"@ || text == "None"@ {
        Some(JsonModel::Null)
    } else {
        None
    }
}

/// The value of a text that is taken for a literal, an integer or the floating-point number
/// `float`, and else for a string.
pub open spec fn plain_value_given(text: Seq<char>, float: Option<JsonModel>) -> JsonModel {
    match literal(text) {
        Some(value) => value,
        None => match integer_of(text) {
            Some(n) => JsonModel::Number(NumberModel::Integer(n)),
            None => match float {
                Some(value) => value,
                None => JsonModel::Text(text),
            },
        },
    }
}

/// The value that is the floating-point number which `text` denotes.
pub open spec fn float_value(text: Seq<char>) -> Option<JsonModel> {
    match float_number(text) {
        Some(n) => Some(JsonModel::Number(n)),
        None => None,
    }
}

/// The value of a text that is taken for a literal, an integer or a floating-point number, and
/// else for a string.
pub open spec fn plain_value(text: Seq<char>) -> JsonModel {
    plain_value_given(text, float_value(text))
}

/// The value of a text that is taken for JSON, of which `read` was read, and else for a plain
/// value.
pub open spec fn inferred_value_given(
    text: Seq<char>,
    read: Result<JsonModel, Seq<char>>,
    float: Option<JsonModel>,
) -> JsonModel {
    match read {
        Ok(value) => value,
        Err(_) => plain_value_given(text, float),
    }
}

/// The value of a text that is taken for JSON, and else for a plain value.
pub open spec fn inferred_value(text: Seq<char>) -> JsonModel {
    inferred_value_given(text, parsed_json(text), float_value(text))
}

/// The value is a number that is not held as a floating-point number.
pub open spec fn is_integer(value: JsonModel) -> bool {
    value matches JsonModel::Number(n) && n is Integer
}

/// The value has the schema type `t`.
pub open spec fn has_type(value: JsonModel, t: Seq<char>) -> bool {
    ||| t == "integer"@ && is_integer(value)
    ||| t == "number"@ && value is Number
    ||| t == "boolean"@ && value is Bool
    ||| t == "null"@ && value is Null
    ||| t == "array"@ && value is Array
    ||| t == "object"@ && value is Object
}

/// `raw` as a value of the schema type that is declared for it: itself for a string, else what
/// was read of it as JSON, if that has the type.
pub open spec fn coerced_given(
    raw: Seq<char>,
    declared: Option<Seq<char>>,
    read: Result<JsonModel, Seq<char>>,
) -> Option<JsonModel> {
    match declared {
        Some(t) => if t == "string"@ {
            Some(JsonModel::Text(raw))
        } else {
            match read {
                Ok(value) => if has_type(value, t) {
                    Some(value)
                } else {
                    None
                },
                Err(_) => None,
            }
        },
        None => None,
    }
}

/// `raw` as a value of the schema type that is declared for it, if it can be one.
pub open spec fn coerced(raw: Seq<char>, declared: Option<Seq<char>>) -> Option<JsonModel> {
    coerced_given(raw, declared, parsed_json(raw))
}

/// The schemas of the parameters of the first tool with this name, by the names of the
/// parameters.
pub open spec fn properties_of(tools: Seq<Tool>, name: Seq<char>) -> Option<JsonModel>
    decreases tools.len(),
{
    if tools.len() == 0 {
        None
    } else if tools[0].function.name@ == name {
        member(value_model(tools[0].function.parameters), "properties"@)
    } else {
        properties_of(tools.skip(1), name)
    }
}

/// The schema type that is declared for the parameter `key`.
pub open spec fn declared_type_of(properties: Option<JsonModel>, key: Seq<char>) -> Option<
    Seq<char>,
> {
    match properties {
        Some(p) => match member(p, key) {
            Some(schema) => match member(schema, "type"@) {
                Some(JsonModel::Text(t)) => Some(t),
                _ => None,
            },
            None => None,
        },
        None => None,
    }
}

/// There is a tool with this name.
pub open spec fn known_tool(tools: Seq<Tool>, name: Seq<char>) -> bool {
    exists|i: int| 0 <= i < tools.len() && (#[trigger] tools[i]).function.name@ == name
}

/// `s`, with copies of `x` added up to the length `n`.
pub open spec fn padded<T>(s: Seq<T>, n: int, x: T) -> Seq<T> {
    if s.len() < n {
        s + Seq::new((n - s.len()) as nat, |i: int| x)
    } else {
        s
    }
}

/// What is still to be sent of the arguments of the last call, if what was sent is a beginning
/// of them.
pub open spec fn unstreamed(
    calls: Seq<Option<TrackedModel>>,
    streamed: Seq<Seq<char>>,
) -> Option<ItemModel> {
    let last = calls.len() - 1;
    if 0 <= last < streamed.len() {
        match calls[last] {
            Some(call) => match without_prefix(json_text(call.arguments), streamed[last]) {
                Some(rest) => if rest.len() > 0 {
                    Some(argument_item(last, rest))
                } else {
                    None
                },
                None => None,
            },
            None => None,
        }
    } else {
        None
    }
}

/// What was sent of the arguments of the call `i`.
pub open spec fn sent_before(streamed: Seq<Seq<char>>, i: int) -> Seq<char> {
    if 0 <= i < streamed.len() {
        streamed[i]
    } else {
        seq![]
    }
}

/// What the items send of the arguments of the call `i`.
pub open spec fn sent_by(items: Seq<ItemModel>, i: int) -> Seq<char>
    decreases items.len(),
{
    if items.len() == 0 {
        seq![]
    } else {
        sent_by(items.drop_last(), i) + if items.last().tool_index == i {
            items.last().parameters
        } else {
            seq![]
        }
    }
}

/// The text that was cut into the chunks.
pub open spec fn joined(chunks: Seq<Seq<char>>) -> Seq<char>
    decreases chunks.len(),
{
    if chunks.len() == 0 {
        seq![]
    } else {
        chunks[0] + joined(chunks.skip(1))
    }
}

/// The items add to the arguments of the call `id`.
pub open spec fn only_arguments(items: Seq<ItemModel>, id: int) -> bool {
    forall|k: int|
        0 <= k < items.len() ==> (#[trigger] items[k]).tool_index == id && items[k].name is None
}

/// What one item sends.
pub proof fn lemma_sent_by_one(item: ItemModel, i: int)
    ensures
        sent_by(seq![item], i) == (if item.tool_index == i {
            item.parameters
        } else {
            seq![]
        }),
{
    assert(seq![item].drop_last() =~= seq![]);
    reveal_with_fuel(sent_by, 2);
    assert(sent_by(seq![item], i) =~= if item.tool_index == i {
        item.parameters
    } else {
        seq![]
    });
}

/// What some items and then others send.
pub proof fn lemma_sent_by_concat(a: Seq<ItemModel>, b: Seq<ItemModel>, i: int)
    ensures
        sent_by(a + b, i) == sent_by(a, i) + sent_by(b, i),
    decreases b.len(),
{
    if b.len() == 0 {
        assert(a + b =~= a);
        assert(sent_by(a, i) + sent_by(b, i) =~= sent_by(a, i));
    } else {
        assert((a + b).drop_last() =~= a + b.drop_last());
        lemma_sent_by_concat(a, b.drop_last(), i);
        assert(sent_by(a + b, i) =~= sent_by(a, i) + sent_by(b, i));
    }
}

/// What is still to be sent of the last call completes what was sent of it: the two together
/// are its arguments.
pub proof fn lemma_unstreamed_completes(
    calls: Seq<Option<TrackedModel>>,
    streamed: Seq<Seq<char>>,
)
    ensures
        unstreamed(calls, streamed) matches Some(item) ==> {
            &&& item.tool_index == calls.len() - 1
            &&& calls.last() matches Some(call)
            &&& sent_before(streamed, item.tool_index) + item.parameters == json_text(
                call.arguments,
            )
        },
{
    if unstreamed(calls, streamed) is Some {
        let last = calls.len() - 1;
        let text = json_text((calls[last]->0).arguments);
        let sent = streamed[last];
        assert(text =~= text.subrange(0, sent.len() as int) + text.skip(sent.len() as int));
    }
}

/// Something is still to be sent just where the last call has a place for itself and for what was
/// sent of it, and what was sent is a beginning of its arguments, but not all of them.
pub proof fn lemma_unstreamed(calls: Seq<Option<TrackedModel>>, streamed: Seq<Seq<char>>)
    ensures
        unstreamed(calls, streamed) is Some <==> {
            &&& 0 < calls.len() <= streamed.len()
            &&& calls.last() matches Some(call)
            &&& streamed[calls.len() - 1].len() < json_text(call.arguments).len()
            &&& json_text(call.arguments).take(streamed[calls.len() - 1].len() as int)
                == streamed[calls.len() - 1]
        },
        unstreamed(calls, streamed) matches Some(item) ==> {
            &&& item.tool_index == calls.len() - 1
            &&& item.name is None
            &&& item.parameters.len() > 0
        },
{
    if 0 < calls.len() <= streamed.len() && calls.last() is Some {
        let last = calls.len() - 1;
        let text = json_text((calls[last]->0).arguments);
        let sent = streamed[last];
        if sent.len() <= text.len() {
            assert(text.subrange(0, sent.len() as int) =~= text.take(sent.len() as int));
        }
    }
}

/// `n` is the length of a beginning of `token`, neither empty nor all of it, with which
/// `buffer` ends.
pub open spec fn partial_token_at(buffer: Seq<char>, token: Seq<char>, n: int) -> bool {
    0 < n < token.len() && occurs_at(buffer, token.take(n), buffer.len() - n)
}

/// `n` is the least such length.
pub open spec fn is_partial_token(buffer: Seq<char>, token: Seq<char>, n: int) -> bool {
    &&& partial_token_at(buffer, token, n)
    &&& forall|m: int| 0 < m < n ==> !#[trigger] partial_token_at(buffer, token, m)
}

/// The least such length, if there is one.
pub open spec fn partial_token(buffer: Seq<char>, token: Seq<char>) -> Option<int> {
    if exists|n: int| #[trigger] is_partial_token(buffer, token, n) {
        Some(choose|n: int| #[trigger] is_partial_token(buffer, token, n))
    } else {
        None
    }
}

proof fn lemma_least_partial(buffer: Seq<char>, token: Seq<char>, n: int)
    requires
        partial_token_at(buffer, token, n),
    ensures
        exists|m: int| #[trigger] is_partial_token(buffer, token, m),
    decreases n,
{
    if exists|m: int| 0 < m < n && #[trigger] partial_token_at(buffer, token, m) {
        let m = choose|m: int| 0 < m < n && #[trigger] partial_token_at(buffer, token, m);
        lemma_least_partial(buffer, token, m);
    } else {
        assert(is_partial_token(buffer, token, n));
    }
}

/// The end of a buffer that may be the beginning of a token: the shortest that is one, neither
/// empty nor all of the token. There is none just where no end of the buffer is such a beginning.
pub proof fn lemma_partial_token(buffer: Seq<char>, token: Seq<char>)
    ensures
        match partial_token(buffer, token) {
            Some(n) => {
                &&& 0 < n < token.len()
                &&& n <= buffer.len()
                &&& buffer.skip(buffer.len() - n) == token.take(n)
                &&& forall|m: int|
                    0 < m < n ==> buffer.skip(buffer.len() - m) != #[trigger] token.take(m)
            },
            None => forall|m: int|
                0 < m < token.len() && m <= buffer.len() ==> buffer.skip(buffer.len() - m)
                    != #[trigger] token.take(m),
        },
{
    let n = match partial_token(buffer, token) {
        Some(n) => n,
        None => buffer.len() as int + 1,
    };
    if partial_token(buffer, token) is Some {
        assert(is_partial_token(buffer, token, n));
        assert(buffer.subrange(buffer.len() - n, buffer.len() as int) =~= buffer.skip(
            buffer.len() - n,
        ));
    }
    assert forall|m: int| 0 < m < n && m < token.len() && m <= buffer.len() implies buffer.skip(
        buffer.len() - m,
    ) != #[trigger] token.take(m) by {
        if buffer.skip(buffer.len() - m) == token.take(m) {
            assert(buffer.subrange(buffer.len() - m, buffer.len() as int) =~= token.take(m));
            assert(partial_token_at(buffer, token, m));
            lemma_least_partial(buffer, token, m);
        }
    }
}

/// The model of an optional value.
pub open spec fn value_opt_model(value: Option<Value>) -> Option<JsonModel> {
    match value {
        Some(value) => Some(value_model(value)),
        None => None,
    }
}

/// The model of what was read.
pub open spec fn read_model(read: Result<Value, String>) -> Result<JsonModel, Seq<char>> {
    match read {
        Ok(value) => Ok(value_model(value)),
        Err(message) => Err(message@),
    }
}

/// The literal that `text` spells, in JSON or in Python.
fn read_literal(text: &str) -> (r: Option<Value>)
    ensures
        match r {
            Some(value) => literal(text@) == Some(value_model(value)),
            None => literal(text@) is None,
        },
{
    if same(text, "true") || same(text, "True") {
        Some(scalar(Scalar::Bool(true)))
    } else if same(text, "false") || same(text, "False") {
        Some(scalar(Scalar::Bool(false)))
    } else if same(text, "null") || same(text, "None") {
        Some(scalar(Scalar::Null))
    } else {
        None
    }
}

/// The value of a text, given the floating-point number that it may denote.
pub fn plain_value_from(text: &str, float: Option<Value>) -> (r: Value)
    ensures
        value_model(r) == plain_value_given(text@, value_opt_model(float)),
{
    match read_literal(text) {
        Some(value) => {
            return value;
        },
        None => {},
    }
    match parse_integer(text) {
        Some(n) => {
            return scalar(Scalar::Integer(n));
        },
        None => {},
    }
    match float {
        Some(value) => value,
        None => scalar(Scalar::Text(text.to_owned())),
    }
}

/// The value of a text that is taken for a literal, an integer or a floating-point number, and
/// else for a string.
pub fn parse_value(text: &str) -> (r: Value)
    ensures
        value_model(r) == plain_value(text@),
{
    plain_value_from(text, read_float(text))
}

/// The value of a text, given what was read of it as JSON and the floating-point number that it
/// may denote.
pub fn infer_value_from(text: &str, read: Result<Value, String>, float: Option<Value>) -> (r: Value)
    ensures
        value_model(r) == inferred_value_given(text@, read_model(read), value_opt_model(float)),
{
    match read {
        Ok(value) => value,
        Err(_) => plain_value_from(text, float),
    }
}

/// The value of a text of which no schema type is known: JSON, then a literal as Python spells
/// it, an integer or a floating-point number, then a string.
pub fn infer_value(value_str: &str) -> (r: Value)
    ensures
        value_model(r) == inferred_value(value_str@),
{
    infer_value_from(value_str, read_json(value_str), read_float(value_str))
}

/// Whether the value has the schema type `t`.
fn is_of_type(value: &Value, t: &str) -> (r: bool)
    ensures
        r == has_type(value_model(*value), t@),
{
    let kind = kind(value);
    (same(t, "integer") && kind == Kind::Number && !is_float(value)) || (same(t, "number") && kind
        == Kind::Number) || (same(t, "boolean") && kind == Kind::Bool) || (same(t, "null") && kind
        == Kind::Null) || (same(t, "array") && kind == Kind::Array) || (same(t, "object") && kind
        == Kind::Object)
}

/// The text of an optional string slice.
pub open spec fn slice_text(s: Option<&str>) -> Option<Seq<char>> {
    match s {
        Some(s) => Some(s@),
        None => None,
    }
}

/// `raw` as a value of the schema type that is declared for it, given what was read of it as
/// JSON.
pub fn coerce_from(raw: &str, schema_type: Option<&str>, read: Result<Value, String>) -> (r: Option<
    Value,
>)
    ensures
        match r {
            Some(value) => coerced_given(raw@, slice_text(schema_type), read_model(read)) == Some(
                value_model(value),
            ),
            None => coerced_given(raw@, slice_text(schema_type), read_model(read)) is None,
        },
{
    match schema_type {
        Some(t) => {
            if same(t, "string") {
                Some(scalar(Scalar::Text(raw.to_owned())))
            } else {
                match read {
                    Ok(value) => {
                        if is_of_type(&value, t) {
                            Some(value)
                        } else {
                            None
                        }
                    },
                    Err(_) => None,
                }
            }
        },
        None => None,
    }
}

/// `raw` as a value of the schema type that is declared for it, if it can be one: a string
/// stays as it stands, also where it looks like a number.
pub fn coerce_by_schema_type(raw: &str, schema_type: Option<&str>) -> (r: Option<Value>)
    ensures
        match r {
            Some(value) => coerced(raw@, slice_text(schema_type)) == Some(value_model(value)),
            None => coerced(raw@, slice_text(schema_type)) is None,
        },
{
    coerce_from(raw, schema_type, read_json(raw))
}

/// The model of an optional reference to a value.
pub open spec fn value_ref_model(value: Option<&Value>) -> Option<JsonModel> {
    match value {
        Some(value) => Some(value_model(*value)),
        None => None,
    }
}

/// The schemas of the parameters of the first tool with this name, by the names of the
/// parameters.
pub fn param_types_for_function<'a>(tools: &'a [Tool], func_name: &str) -> (r: Option<&'a Value>)
    ensures
        value_ref_model(r) == properties_of(tools@, func_name@),
{
    let n = tools.len();
    let mut i: usize = 0;
    assert(tools@.skip(0) =~= tools@);
    while i < n
        invariant
            n == tools@.len(),
            i <= n,
            properties_of(tools@, func_name@) == properties_of(tools@.skip(i as int), func_name@),
        decreases n - i,
    {
        if same(&tools[i].function.name, func_name) {
            return get(&tools[i].function.parameters, "properties");
        }
        assert(tools@.skip(i as int).skip(1) =~= tools@.skip(i + 1));
        i += 1;
    }
    None
}

/// The schema type that is declared for the parameter `key`.
pub fn declared_type<'a>(properties: Option<&'a Value>, key: &str) -> (r: Option<&'a str>)
    ensures
        slice_text(r) == declared_type_of(value_ref_model(properties), key@),
{
    match properties {
        Some(p) => match get(p, key) {
            Some(schema) => match get(schema, "type") {
                Some(t) => as_str(t),
                None => None,
            },
            None => None,
        },
        None => None,
    }
}

/// Whether there is a tool with this name.
pub fn has_tool(tools: &[Tool], name: &str) -> (r: bool)
    ensures
        r == known_tool(tools@, name@),
{
    let n = tools.len();
    let mut i: usize = 0;
    while i < n
        invariant
            n == tools@.len(),
            i <= n,
            forall|j: int| 0 <= j < i ==> (#[trigger] tools@[j]).function.name@ != name@,
        decreases n - i,
    {
        if same(&tools[i].function.name, name) {
            return true;
        }
        i += 1;
    }
    false
}

/// Makes places for the call `tool_id` and those before it.
pub(crate) fn ensure_capacity(
    tool_id: usize,
    prev_tool_call_arr: &mut Vec<Option<TrackedCall>>,
    streamed_args_for_tool: &mut Vec<String>,
)
    ensures
        tracked_models(final(prev_tool_call_arr)@) == padded(
            tracked_models(old(prev_tool_call_arr)@),
            tool_id + 1,
            None,
        ),
        texts(final(streamed_args_for_tool)@) == padded(
            texts(old(streamed_args_for_tool)@),
            tool_id + 1,
            Seq::empty(),
        ),
        final(prev_tool_call_arr)@.len() > tool_id,
        final(streamed_args_for_tool)@.len() > tool_id,
{
    let ghost calls = tracked_models(prev_tool_call_arr@);
    let ghost sent = texts(streamed_args_for_tool@);
    assert(padded(calls, calls.len() as int, None) =~= calls);
    while prev_tool_call_arr.len() <= tool_id
        invariant
            calls.len() <= prev_tool_call_arr@.len(),
            prev_tool_call_arr@.len() <= tool_id + 1 || prev_tool_call_arr@.len() == calls.len(),
            tracked_models(prev_tool_call_arr@) == padded(
                calls,
                prev_tool_call_arr@.len() as int,
                None,
            ),
        decreases tool_id + 1 - prev_tool_call_arr@.len(),
    {
        let ghost n = prev_tool_call_arr@.len() as int;
        prev_tool_call_arr.push(None);
        assert(tracked_models(prev_tool_call_arr@) =~= padded(calls, n, None).push(None));
        assert(padded(calls, n + 1, None) =~= padded(calls, n, None).push(None));
    }
    assert(padded(sent, sent.len() as int, Seq::empty()) =~= sent);
    while streamed_args_for_tool.len() <= tool_id
        invariant
            sent.len() <= streamed_args_for_tool@.len(),
            streamed_args_for_tool@.len() <= tool_id + 1 || streamed_args_for_tool@.len()
                == sent.len(),
            texts(streamed_args_for_tool@) == padded(
                sent,
                streamed_args_for_tool@.len() as int,
                Seq::empty(),
            ),
        decreases tool_id + 1 - streamed_args_for_tool@.len(),
    {
        let ghost n = streamed_args_for_tool@.len() as int;
        streamed_args_for_tool.push(String::new());
        assert(texts(streamed_args_for_tool@) =~= padded(sent, n, Seq::empty()).push(Seq::empty()));
        assert(padded(sent, n + 1, Seq::empty()) =~= padded(sent, n, Seq::empty()).push(
            Seq::empty(),
        ));
    }
}

/// Forgets the current call, which was begun in vain: its text, and the place for what was sent
/// of it, if it has no place among the calls.
pub(crate) fn reset_current_tool_state(
    buffer: &mut String,
    current_tool_name_sent: &mut bool,
    streamed_args_for_tool: &mut Vec<String>,
    prev_tool_call_arr: &Vec<Option<TrackedCall>>,
)
    ensures
        final(buffer)@ == Seq::<char>::empty(),
        !*final(current_tool_name_sent),
        texts(final(streamed_args_for_tool)@) == (if old(streamed_args_for_tool)@.len()
            > prev_tool_call_arr@.len() {
            texts(old(streamed_args_for_tool)@).drop_last()
        } else {
            texts(old(streamed_args_for_tool)@)
        }),
{
    *buffer = String::new();
    *current_tool_name_sent = false;
    if streamed_args_for_tool.len() > prev_tool_call_arr.len() {
        let ghost before = streamed_args_for_tool@;
        streamed_args_for_tool.pop();
        assert(texts(streamed_args_for_tool@) =~= texts(before).drop_last());
    }
}

/// What is still to be sent of the arguments of the last call, if what was sent is a beginning
/// of them.
pub(crate) fn get_unstreamed_args(
    prev_tool_call_arr: &Vec<Option<TrackedCall>>,
    streamed_args_for_tool: &Vec<String>,
) -> (r: Option<Vec<ToolCallItem>>)
    ensures
        match r {
            Some(items) => {
                &&& unstreamed(
                    tracked_models(prev_tool_call_arr@),
                    texts(streamed_args_for_tool@),
                ) matches Some(item)
                &&& item_models(items@) == seq![item]
            },
            None => unstreamed(tracked_models(prev_tool_call_arr@), texts(streamed_args_for_tool@))
                is None,
        },
{
    let n = prev_tool_call_arr.len();
    if n == 0 || n > streamed_args_for_tool.len() {
        return None;
    }
    let last = n - 1;
    match &prev_tool_call_arr[last] {
        Some(call) => match write_json(&call.arguments) {
            Ok(expected) => match strip_prefix(&expected, &streamed_args_for_tool[last]) {
                Some(rest) => {
                    if rest.is_empty() {
                        return None;
                    }
                    let item = ToolCallItem {
                        tool_index: last,
                        name: None,
                        parameters: rest.to_owned(),
                    };
                    let ghost model = item@;
                    let mut items: Vec<ToolCallItem> = Vec::new();
                    items.push(item);
                    assert(item_models(items@) =~= seq![model]);
                    Some(items)
                },
                None => None,
            },
            Err(_) => None,
        },
        None => None,
    }
}

/// The length in bytes of the shortest beginning of `token`, neither empty nor all of it, with
/// which `buffer` ends.
pub fn ends_with_partial_token(buffer: &str, token: &str) -> (r: Option<usize>)
    ensures
        offset_for(r, token@, partial_token(buffer@, token@)),
        partial_token(buffer@, token@) matches Some(n) ==> is_partial_token(buffer@, token@, n),
{
    let total = token.unicode_len();
    let mut n: usize = 1;
    while n < total
        invariant
            total == token@.len(),
            1 <= n,
            forall|m: int| 0 < m < n ==> !#[trigger] partial_token_at(buffer@, token@, m),
        decreases total - n,
    {
        let part = token.substring_char(0, n);
        assert(part@ =~= token@.take(n as int));
        if ends_with(buffer, part) {
            proof {
                assert(is_partial_token(buffer@, token@, n as int));
                let k = partial_token(buffer@, token@)->0;
                if k < n {
                    assert(!partial_token_at(buffer@, token@, k));
                } else if n < k {
                    assert(!partial_token_at(buffer@, token@, n as int));
                }
            }
            return Some(part.as_bytes().len());
        }
        n += 1;
    }
    assert forall|m: int| !#[trigger] partial_token_at(buffer@, token@, m) by {
        if 0 < m < total {
            assert(m < n);
        }
    }
    None
}

} // verus!
