//! The formats of the GLM-4 mixture-of-experts models:
//!
//! - GLM-4.5 and GLM-4.6:
//!   `<tool_call>{name}\n<arg_key>{key}</arg_key>\n<arg_value>{value}</arg_value>\n</tool_call>`
//! - GLM-4.7:
//!   `<tool_call>{name}<arg_key>{key}</arg_key><arg_value>{value}</arg_value></tool_call>`
//!
//! A closing tag that stands literally in the value of an argument is kept: each closing tag is
//! matched against the next sibling. An opening `<tool_call>` inside a value ends the block
//! before it.
pub mod round_trip;
pub mod streaming;
pub mod values;

use crate::json::{
    json_text, members_of, object_insert, object_model, object_new, object_value, parsed_json,
    read_json, write_json, JsonModel,
};
use crate::parsers::helpers::{
    coerce_by_schema_type, coerced, declared_type, declared_type_of, ensure_capacity,
    get_unstreamed_args, has_tool, infer_value, inferred_value, known_tool, padded,
    param_types_for_function, properties_of, read_model, reset_current_tool_state, unstreamed,
    value_ref_model,
};
use crate::parsers::spans::{
    before_open, blocks, find_blocks, find_spans, lemma_before_open_bounds, lemma_spans_ordered,
    offsets_for, spans,
};
use crate::text::edit::{
    strip_prefix, strip_suffix, trim, trim_start, trimmed, trimmed_start, without_prefix,
    without_suffix,
};
use crate::text::encoding::byte_offset;
use crate::text::search::{
    byte_len, contains, cut, first_occurrence, has, last_occurrence, lemma_first_occurrence, rcut,
    split,
};
use crate::types::{
    call_models, item_models, nothing, only_text, text_pairs, texts, tracked_models, CallModel,
    FunctionCall, ItemModel, ParserError, ParserResult, ResultModel, StreamingParseResult, Tool,
    ToolCall, ToolCallItem, TrackedCall, TrackedModel,
};
use serde_json::Value;
use vstd::prelude::*;

verus! {

/// How the name of a call is written.
#[derive(Clone, Copy, PartialEq, Eq, Structural, Debug)]
pub enum GlmFormat {
    /// The name ends at the first line break.
    Glm45,
    /// The name is what stands before the first `<arg_key>`, or all of the block.
    Glm47,
}

/// Opens a call.
pub const OPEN: &'static str = "<tool_call>";

/// Closes a call.
pub const CLOSE: &'static str = "</tool_call>";

/// Opens the key of an argument.
pub const ARG_KEY_OPEN: &'static str = "<arg_key>";

/// Closes the key of an argument.
pub const ARG_KEY_CLOSE: &'static str = "</arg_key>";

/// Opens the value of an argument.
pub const ARG_VAL_OPEN: &'static str = "<arg_value>";

/// Closes the value of an argument.
pub const ARG_VAL_CLOSE: &'static str = "</arg_value>";

/// The first argument in `s`: its key, its value and what follows them. The value reaches to
/// the last closing tag before the next key.
pub open spec fn first_argument(s: Seq<char>) -> Option<(Seq<char>, Seq<char>, Seq<char>)> {
    match first_occurrence(s, ARG_KEY_OPEN@) {
        Some(i) => {
            let after_open = s.skip(i + ARG_KEY_OPEN@.len());
            match first_occurrence(after_open, ARG_KEY_CLOSE@) {
                Some(j) => {
                    let after_key = after_open.skip(j + ARG_KEY_CLOSE@.len());
                    match first_occurrence(after_key, ARG_VAL_OPEN@) {
                        Some(k) => {
                            let after_val = after_key.skip(k + ARG_VAL_OPEN@.len());
                            let region = before_open(after_val, ARG_KEY_OPEN@);
                            match last_occurrence(region, ARG_VAL_CLOSE@) {
                                Some(c) => Some(
                                    (
                                        trimmed(after_open.take(j)),
                                        trimmed(region.take(c)),
                                        after_val.skip(region.len() as int),
                                    ),
                                ),
                                None => None,
                            }
                        },
                        None => None,
                    }
                },
                None => None,
            }
        },
        None => None,
    }
}

/// The keys and values of the arguments in `s`, up to one that is not complete.
pub open spec fn argument_pairs(s: Seq<char>) -> Seq<(Seq<char>, Seq<char>)>
    decreases s.len(),
{
    match first_argument(s) {
        Some((key, value, rest)) => {
            proof {
                lemma_first_argument_bounds(s);
            }
            seq![(key, value)] + argument_pairs(rest)
        },
        None => seq![],
    }
}

/// What follows an argument is shorter than what it stands in.
pub proof fn lemma_first_argument_bounds(s: Seq<char>)
    ensures
        first_argument(s) matches Some((_, _, rest)) ==> rest.len() < s.len(),
{
    reveal_strlit("<arg_key>");
    lemma_first_occurrence(s, ARG_KEY_OPEN@);
    if let Some(i) = first_occurrence(s, ARG_KEY_OPEN@) {
        let after_open = s.skip(i + ARG_KEY_OPEN@.len());
        lemma_first_occurrence(after_open, ARG_KEY_CLOSE@);
        if let Some(j) = first_occurrence(after_open, ARG_KEY_CLOSE@) {
            let after_key = after_open.skip(j + ARG_KEY_CLOSE@.len());
            lemma_first_occurrence(after_key, ARG_VAL_OPEN@);
            if let Some(k) = first_occurrence(after_key, ARG_VAL_OPEN@) {
                lemma_before_open_bounds(after_key.skip(k + ARG_VAL_OPEN@.len()), ARG_KEY_OPEN@);
            }
        }
    }
}

/// The name of the call in a block, and the markup of its arguments.
pub open spec fn split_block(format: GlmFormat, block: Seq<char>) -> Option<
    (Seq<char>, Seq<char>),
> {
    match without_prefix(block, OPEN@) {
        Some(rest) => match without_suffix(rest, CLOSE@) {
            Some(inner) => split_inner(format, inner),
            None => None,
        },
        None => None,
    }
}

/// The name of the call in the inside of a block, and the markup of its arguments.
pub open spec fn split_inner(format: GlmFormat, inner: Seq<char>) -> Option<
    (Seq<char>, Seq<char>),
> {
    match format {
        GlmFormat::Glm45 => match first_occurrence(inner, "\n"@) {
            Some(i) => named(trimmed(inner.take(i)), trimmed_start(inner.skip(i + "\n"@.len()))),
            None => None,
        },
        GlmFormat::Glm47 => {
            let body = trimmed(inner);
            match first_occurrence(body, ARG_KEY_OPEN@) {
                Some(i) => named(trimmed(body.take(i)), trimmed_start(body.skip(i))),
                None => named(body, seq![]),
            }
        },
    }
}

/// The name with what follows it, if the name is not empty.
pub open spec fn named(name: Seq<char>, rest: Seq<char>) -> Option<(Seq<char>, Seq<char>)> {
    if name.len() > 0 {
        Some((name, rest))
    } else {
        None
    }
}

/// The value of an argument: by its schema type, or else by what it looks like.
pub open spec fn argument_of(
    key: Seq<char>,
    raw: Seq<char>,
    properties: Option<JsonModel>,
) -> JsonModel {
    match coerced(raw, declared_type_of(properties, key)) {
        Some(value) => value,
        None => inferred_value(raw),
    }
}

/// The members of the arguments.
pub open spec fn arguments_of(
    pairs: Seq<(Seq<char>, Seq<char>)>,
    properties: Option<JsonModel>,
) -> Seq<(Seq<char>, JsonModel)> {
    Seq::new(pairs.len(), |i: int| (pairs[i].0, argument_of(pairs[i].0, pairs[i].1, properties)))
}

/// The call of `name` with the arguments in `args_text`.
pub open spec fn call_of(name: Seq<char>, args_text: Seq<char>, tools: Seq<Tool>) -> CallModel {
    CallModel {
        name,
        arguments: json_text(
            JsonModel::Object(
                members_of(arguments_of(argument_pairs(args_text), properties_of(tools, name))),
            ),
        ),
    }
}

/// The call in a block.
pub open spec fn block_call(format: GlmFormat, block: Seq<char>, tools: Seq<Tool>) -> Option<
    CallModel,
> {
    match split_block(format, block) {
        Some((name, args_text)) => Some(call_of(name, args_text, tools)),
        None => None,
    }
}

/// The calls in some blocks.
pub open spec fn blocks_calls(format: GlmFormat, blocks: Seq<Seq<char>>, tools: Seq<Tool>) -> Seq<
    CallModel,
>
    decreases blocks.len(),
{
    if blocks.len() == 0 {
        seq![]
    } else {
        let before = blocks_calls(format, blocks.drop_last(), tools);
        match block_call(format, blocks.last(), tools) {
            Some(call) => before.push(call),
            None => before,
        }
    }
}

/// The calls in a text.
pub open spec fn text_calls(format: GlmFormat, text: Seq<char>, tools: Seq<Tool>) -> Seq<
    CallModel,
> {
    blocks_calls(format, blocks(text, OPEN@, CLOSE@), tools)
}

/// The text before the first `<tool_call>`, and the calls: all of the text and no calls, where
/// there are none.
pub open spec fn complete(format: GlmFormat, text: Seq<char>, tools: Seq<Tool>) -> (
    Seq<char>,
    Seq<CallModel>,
) {
    let calls = text_calls(format, text, tools);
    match first_occurrence(text, OPEN@) {
        Some(i) => if calls.len() > 0 {
            (text.take(i), calls)
        } else {
            (text, seq![])
        },
        None => (text, seq![]),
    }
}

/// What the parser keeps from one chunk to the next.
pub struct GlmState {
    /// The text that is not yet dealt with.
    pub buffer: Seq<char>,
    /// The calls so far.
    pub calls: Seq<Option<TrackedModel>>,
    /// The index of the next call; none before the first block.
    pub id: Option<int>,
    /// What was sent of the arguments of each call.
    pub streamed: Seq<Seq<char>>,
}

/// The state before the first chunk.
pub open spec fn initial() -> GlmState {
    GlmState { buffer: seq![], calls: seq![], id: None, streamed: seq![] }
}

/// The state in which the next call has its place.
pub open spec fn prepared(st: GlmState) -> GlmState {
    let (id, calls, streamed) = match st.id {
        Some(id) => (id, st.calls, st.streamed),
        None => (0, seq![], seq![seq![]]),
    };
    GlmState {
        id: Some(id),
        calls: padded(calls, id + 1, None),
        streamed: padded(streamed, id + 1, seq![]),
        ..st
    }
}

/// Sends the call `call` at once, of whose arguments `read` was read.
pub open spec fn send_given(
    st: GlmState,
    call: CallModel,
    read: Result<JsonModel, Seq<char>>,
    normal_text: Seq<char>,
) -> (GlmState, ResultModel) {
    let id = st.id->0;
    (
        GlmState {
            calls: match read {
                Ok(arguments) => st.calls.update(
                    id,
                    Some(TrackedModel { name: call.name, arguments }),
                ),
                Err(_) => st.calls,
            },
            id: Some(id + 1),
            streamed: st.streamed.update(id, call.arguments),
            ..st
        },
        ResultModel {
            normal_text,
            calls: seq![
                ItemModel { tool_index: id, name: Some(call.name), parameters: call.arguments },
            ],
        },
    )
}

/// Forgets the text, if it calls an unknown tool.
pub open spec fn dropped(st: GlmState) -> GlmState {
    GlmState {
        buffer: seq![],
        streamed: if st.streamed.len() > st.calls.len() {
            st.streamed.drop_last()
        } else {
            st.streamed
        },
        ..st
    }
}

/// What the parser does with a chunk: at most one block is taken up.
pub open spec fn feed(format: GlmFormat, st: GlmState, chunk: Seq<char>, tools: Seq<Tool>) -> (
    GlmState,
    ResultModel,
) {
    let text = st.buffer + chunk;
    match first_occurrence(text, OPEN@) {
        None => (
            GlmState { buffer: seq![], ..st },
            only_text(
                if st.id matches Some(id) && id > 0 {
                    seq![]
                } else {
                    text
                },
            ),
        ),
        Some(start) => {
            let found = spans(text, OPEN@, CLOSE@, 0);
            if found.len() == 0 {
                (GlmState { buffer: text.skip(start), ..st }, only_text(text.take(start)))
            } else {
                let (begin, end) = found[0];
                let parsed = text_calls(format, text.subrange(begin, end), tools);
                let normal_text = trimmed(text.take(begin));
                let next = prepared(st);
                let rest = GlmState { buffer: text.skip(end), ..next };
                if parsed.len() == 0 {
                    (rest, only_text(normal_text))
                } else if known_tool(tools, parsed[0].name) {
                    send_given(rest, parsed[0], parsed_json(parsed[0].arguments), normal_text)
                } else {
                    (dropped(next), nothing())
                }
            }
        },
    }
}

/// The blocks of calls in `text`, by the byte offsets at which they begin and end.
pub fn first_tool_call_spans(text: &str) -> (r: Vec<(usize, usize)>)
    ensures
        offsets_for(r@, text@, spans(text@, OPEN@, CLOSE@, 0)),
{
    proof {
        reveal_strlit("<tool_call>");
        reveal_strlit("</tool_call>");
    }
    find_spans(text, OPEN, CLOSE)
}

/// The blocks of calls in `text`.
pub fn iter_tool_call_blocks<'a>(text: &'a str) -> (r: Vec<&'a str>)
    ensures
        r@.len() == blocks(text@, OPEN@, CLOSE@).len(),
        forall|i: int| 0 <= i < r@.len() ==> (#[trigger] r@[i])@ == blocks(text@, OPEN@, CLOSE@)[i],
{
    proof {
        reveal_strlit("<tool_call>");
        reveal_strlit("</tool_call>");
    }
    let found = find_blocks(text, OPEN, CLOSE);
    let n = found.len();
    let mut r: Vec<&'a str> = Vec::new();
    let mut i: usize = 0;
    while i < n
        invariant
            n == found@.len(),
            i <= n,
            r@.len() == i,
            forall|j: int|
                0 <= j < n ==> (#[trigger] found@[j]).1@ == blocks(text@, OPEN@, CLOSE@)[j],
            forall|j: int| 0 <= j < i ==> (#[trigger] r@[j])@ == blocks(text@, OPEN@, CLOSE@)[j],
        decreases n - i,
    {
        r.push(found[i].1);
        i += 1;
    }
    r
}

/// The first argument in `s`: its key, its value and what follows them.
fn read_argument<'a>(s: &'a str) -> (r: Option<(String, String, &'a str)>)
    ensures
        match r {
            Some((key, value, rest)) => first_argument(s@) == Some((key@, value@, rest@)),
            None => first_argument(s@) is None,
        },
{
    proof {
        reveal_strlit("<arg_key>");
        reveal_strlit("</arg_key>");
        reveal_strlit("<arg_value>");
        reveal_strlit("</arg_value>");
    }
    let (_, _, after_open) = match cut(s, ARG_KEY_OPEN) {
        Some(found) => found,
        None => {
            return None;
        },
    };
    let (_, key, after_key) = match cut(after_open, ARG_KEY_CLOSE) {
        Some(found) => found,
        None => {
            return None;
        },
    };
    let (_, _, after_val) = match cut(after_key, ARG_VAL_OPEN) {
        Some(found) => found,
        None => {
            return None;
        },
    };
    let region = match cut(after_val, ARG_KEY_OPEN) {
        Some((_, region, _)) => region,
        None => after_val,
    };
    proof {
        lemma_before_open_bounds(after_val@, ARG_KEY_OPEN@);
    }
    let (_, value, _) = match rcut(region, ARG_VAL_CLOSE) {
        Some(found) => found,
        None => {
            return None;
        },
    };
    let rest = split(after_val, byte_len(region), Ghost(region@.len() as int)).1;
    Some((trim(key).to_owned(), trim(value).to_owned(), rest))
}

/// The keys and values of the arguments in `args_text`, up to one that is not complete.
pub fn parse_arg_key_value_pairs(args_text: &str) -> (r: Vec<(String, String)>)
    ensures
        text_pairs(r@) == argument_pairs(args_text@),
{
    let mut pairs: Vec<(String, String)> = Vec::new();
    let mut cursor = args_text;
    assert(text_pairs(pairs@) + argument_pairs(cursor@) =~= argument_pairs(args_text@));
    loop
        invariant
            text_pairs(pairs@) + argument_pairs(cursor@) == argument_pairs(args_text@),
        decreases cursor@.len(),
    {
        proof {
            lemma_first_argument_bounds(cursor@);
        }
        match read_argument(cursor) {
            Some((key, value, rest)) => {
                let ghost before = pairs@;
                let ghost pair = (key@, value@);
                pairs.push((key, value));
                assert(text_pairs(pairs@) =~= text_pairs(before).push(pair));
                assert(text_pairs(pairs@) + argument_pairs(rest@) =~= text_pairs(before) + (
                seq![pair] + argument_pairs(rest@)));
                cursor = rest;
            },
            None => {
                assert(text_pairs(pairs@) + seq![] =~= text_pairs(pairs@));
                return pairs;
            },
        }
    }
}

/// Parser for the tool calls of the GLM-4 mixture-of-experts models.
pub struct Glm4MoeParser {
    format: GlmFormat,
    buffer: String,
    prev_tool_call_arr: Vec<Option<TrackedCall>>,
    current_tool_id: Option<usize>,
    streamed_args_for_tool: Vec<String>,
}

impl View for Glm4MoeParser {
    type V = GlmState;

    closed spec fn view(&self) -> GlmState {
        GlmState {
            buffer: self.buffer@,
            calls: tracked_models(self.prev_tool_call_arr@),
            id: match self.current_tool_id {
                Some(id) => Some(id as int),
                None => None,
            },
            streamed: texts(self.streamed_args_for_tool@),
        }
    }
}

impl Glm4MoeParser {
    /// The format that the parser reads.
    pub closed spec fn format(&self) -> GlmFormat {
        self.format
    }

    fn new(format: GlmFormat) -> (r: Self)
        ensures
            r.format() == format,
            r@ == initial(),
    {
        let r = Glm4MoeParser {
            format,
            buffer: String::new(),
            prev_tool_call_arr: Vec::new(),
            current_tool_id: None,
            streamed_args_for_tool: Vec::new(),
        };
        assert(r@.buffer =~= initial().buffer);
        assert(r@.calls =~= initial().calls);
        assert(r@.streamed =~= initial().streamed);
        r
    }

    /// A new parser for GLM-4.5 and GLM-4.6.
    pub fn glm45() -> (r: Self)
        ensures
            r.format() == GlmFormat::Glm45,
            r@ == initial(),
    {
        Self::new(GlmFormat::Glm45)
    }

    /// A new parser for GLM-4.7.
    pub fn glm47() -> (r: Self)
        ensures
            r.format() == GlmFormat::Glm47,
            r@ == initial(),
    {
        Self::new(GlmFormat::Glm47)
    }

    /// The arguments in `args_text`, each of the schema type that is declared for it, or else
    /// by what it looks like.
    pub fn parse_arguments(&self, args_text: &str, param_types: Option<&Value>) -> (r: serde_json::Map<
        String,
        Value,
    >)
        ensures
            object_model(r) == members_of(
                arguments_of(argument_pairs(args_text@), value_ref_model(param_types)),
            ),
    {
        let mut arguments = object_new();
        let pairs = parse_arg_key_value_pairs(args_text);
        let n = pairs.len();
        let mut i: usize = 0;
        let ghost all = arguments_of(argument_pairs(args_text@), value_ref_model(param_types));
        assert(all.take(0) =~= seq![]);
        while i < n
            invariant
                n == pairs@.len(),
                i <= n,
                text_pairs(pairs@) == argument_pairs(args_text@),
                all == arguments_of(argument_pairs(args_text@), value_ref_model(param_types)),
                object_model(arguments) == members_of(all.take(i as int)),
            decreases n - i,
        {
            assert(text_pairs(pairs@)[i as int] == (pairs@[i as int].0@, pairs@[i as int].1@));
            let key = &pairs[i].0;
            let value = match coerce_by_schema_type(&pairs[i].1, declared_type(param_types, key)) {
                Some(value) => value,
                None => infer_value(&pairs[i].1),
            };
            assert(all.take(i + 1).drop_last() =~= all.take(i as int));
            object_insert(&mut arguments, key.clone(), value);
            i += 1;
        }
        assert(all.take(n as int) =~= all);
        arguments
    }

    /// The name of the call in a block, and the markup of its arguments.
    pub fn split_tool_call_block<'a>(&self, block: &'a str) -> (r: Option<(String, &'a str)>)
        ensures
            match r {
                Some((name, args_text)) => split_block(self.format(), block@) == Some(
                    (name@, args_text@),
                ),
                None => split_block(self.format(), block@) is None,
            },
    {
        proof {
            reveal_strlit("\n");
            reveal_strlit("<arg_key>");
            reveal_strlit("");
        }
        let rest = match strip_prefix(block, OPEN) {
            Some(rest) => rest,
            None => {
                return None;
            },
        };
        let inner = match strip_suffix(rest, CLOSE) {
            Some(inner) => inner,
            None => {
                return None;
            },
        };
        match self.format {
            GlmFormat::Glm45 => match cut(inner, "\n") {
                Some((_, head, tail)) => {
                    let name = trim(head);
                    if name.is_empty() {
                        return None;
                    }
                    Some((name.to_owned(), trim_start(tail)))
                },
                None => None,
            },
            GlmFormat::Glm47 => {
                let body = trim(inner);
                match cut(body, ARG_KEY_OPEN) {
                    Some((at, head, _)) => {
                        let name = trim(head);
                        if name.is_empty() {
                            return None;
                        }
                        let tail = split(
                            body,
                            at,
                            Ghost(first_occurrence(body@, ARG_KEY_OPEN@)->0),
                        ).1;
                        Some((name.to_owned(), trim_start(tail)))
                    },
                    None => {
                        if body.is_empty() {
                            return None;
                        }
                        assert(""@ =~= seq![]);
                        Some((body.to_owned(), ""))
                    },
                }
            },
        }
    }

    /// The call in a block, if it has one.
    pub fn parse_tool_call(&self, block: &str, tools: &[Tool]) -> (r: ParserResult<Option<ToolCall>>)
        ensures
            r is Ok,
            match r->Ok_0 {
                Some(call) => block_call(self.format(), block@, tools@) == Some(call@),
                None => block_call(self.format(), block@, tools@) is None,
            },
    {
        let (func_name, args_text) = match self.split_tool_call_block(block) {
            Some(parts) => parts,
            None => {
                return Ok(None);
            },
        };
        let param_types = param_types_for_function(tools, &func_name);
        let arguments = self.parse_arguments(args_text, param_types);
        match write_json(&object_value(arguments)) {
            Ok(arguments) => Ok(
                Some(ToolCall { function: FunctionCall { name: func_name, arguments } }),
            ),
            Err(message) => Err(ParserError::ParsingFailed(message)),
        }
    }

    /// The calls in a text.
    pub fn parse_tool_calls_from_text(&self, text: &str, tools: &[Tool]) -> (r: Vec<ToolCall>)
        ensures
            call_models(r@) == text_calls(self.format(), text@, tools@),
    {
        let mut parsed: Vec<ToolCall> = Vec::new();
        let found = iter_tool_call_blocks(text);
        let n = found.len();
        let mut i: usize = 0;
        let ghost all = blocks(text@, OPEN@, CLOSE@);
        assert(all.take(0) =~= seq![]);
        assert(call_models(parsed@) =~= seq![]);
        while i < n
            invariant
                n == found@.len(),
                i <= n,
                all == blocks(text@, OPEN@, CLOSE@),
                n == all.len(),
                forall|j: int| 0 <= j < n ==> (#[trigger] found@[j])@ == all[j],
                call_models(parsed@) == blocks_calls(self.format(), all.take(i as int), tools@),
            decreases n - i,
        {
            assert(all.take(i + 1).drop_last() =~= all.take(i as int));
            let ghost before = parsed@;
            match self.parse_tool_call(found[i], tools) {
                Ok(Some(tool)) => {
                    let ghost model = tool@;
                    parsed.push(tool);
                    assert(call_models(parsed@) =~= call_models(before).push(model));
                },
                Ok(None) => {},
                Err(_) => {},
            }
            i += 1;
        }
        assert(all.take(n as int) =~= all);
        parsed
    }

    /// The text before the calls, and the calls, read by the schemas of `tools`.
    pub fn parse_complete_inner(&self, text: &str, tools: &[Tool]) -> (r: ParserResult<
        (String, Vec<ToolCall>),
    >)
        ensures
            r is Ok,
            (r->Ok_0.0@, call_models(r->Ok_0.1@)) == complete(self.format(), text@, tools@),
    {
        proof {
            reveal_strlit("<tool_call>");
        }
        let normal_text = match cut(text, OPEN) {
            Some((_, head, _)) => head,
            None => {
                let none: Vec<ToolCall> = Vec::new();
                assert(call_models(none@) =~= seq![]);
                return Ok((text.to_owned(), none));
            },
        };
        let parsed = self.parse_tool_calls_from_text(text, tools);
        assert(call_models(parsed@).len() == parsed@.len());
        if parsed.len() == 0 {
            assert(call_models(parsed@) =~= seq![]);
            return Ok((text.to_owned(), parsed));
        }
        Ok((normal_text.to_owned(), parsed))
    }

    /// The text before the calls, and the calls. What type a value has is told by what it looks
    /// like.
    pub fn parse_complete(&self, text: &str) -> (r: ParserResult<(String, Vec<ToolCall>)>)
        ensures
            r is Ok,
            (r->Ok_0.0@, call_models(r->Ok_0.1@)) == complete(self.format(), text@, seq![]),
    {
        let tools: Vec<Tool> = Vec::new();
        assert(tools@ =~= seq![]);
        self.parse_complete_inner(text, tools.as_slice())
    }

    /// The text before the calls, and the calls, read by the schemas of `tools`.
    pub fn parse_complete_with_tools(&self, text: &str, tools: &[Tool]) -> (r: ParserResult<
        (String, Vec<ToolCall>),
    >)
        ensures
            r is Ok,
            (r->Ok_0.0@, call_models(r->Ok_0.1@)) == complete(self.format(), text@, tools@),
    {
        self.parse_complete_inner(text, tools)
    }

    /// Whether `text` has the opening tag of a call.
    pub fn has_tool_markers(&self, text: &str) -> (r: bool)
        ensures
            r == contains(text@, OPEN@),
    {
        proof {
            reveal_strlit("<tool_call>");
        }
        has(text, OPEN)
    }

    /// What is still to be sent of the arguments of the last call.
    pub fn get_unstreamed_tool_args(&self) -> (r: Option<Vec<ToolCallItem>>)
        ensures
            match r {
                Some(items) => {
                    &&& unstreamed(self@.calls, self@.streamed) matches Some(item)
                    &&& item_models(items@) == seq![item]
                },
                None => unstreamed(self@.calls, self@.streamed) is None,
            },
    {
        get_unstreamed_args(&self.prev_tool_call_arr, &self.streamed_args_for_tool)
    }

    /// Forgets the stream so far.
    pub fn reset(&mut self)
        ensures
            final(self)@ == initial(),
            final(self).format() == old(self).format(),
    {
        *self = Self::new(self.format);
    }

    /// Makes a place for the next call, and gives its index.
    fn prepare(&mut self) -> (r: usize)
        ensures
            final(self)@ == prepared(old(self)@),
            final(self).format() == old(self).format(),
            final(self).buffer == old(self).buffer,
            final(self).prev_tool_call_arr@.len() > r,
            final(self).streamed_args_for_tool@.len() > r,
            final(self).current_tool_id == Some(r),
    {
        let tool_id = match self.current_tool_id {
            Some(id) => id,
            None => {
                self.prev_tool_call_arr = Vec::new();
                self.streamed_args_for_tool = Vec::new();
                self.streamed_args_for_tool.push(String::new());
                assert(tracked_models(self.prev_tool_call_arr@) =~= seq![]);
                assert(texts(self.streamed_args_for_tool@) =~= seq![seq![]]);
                0
            },
        };
        self.current_tool_id = Some(tool_id);
        ensure_capacity(tool_id, &mut self.prev_tool_call_arr, &mut self.streamed_args_for_tool);
        tool_id
    }

    /// Sends a call at once, given what was read of its arguments.
    pub fn send_call(
        &mut self,
        call: ToolCall,
        read: Result<Value, String>,
        normal_text: String,
    ) -> (r: StreamingParseResult)
        requires
            old(self)@.id matches Some(id) && id < old(self)@.calls.len() && id < old(
                self,
            )@.streamed.len(),
        ensures
            (final(self)@, r@) == send_given(old(self)@, call@, read_model(read), normal_text@),
            final(self).format() == old(self).format(),
    {
        let tool_id = match self.current_tool_id {
            Some(id) => id,
            None => vstd::pervasive::unreached(),
        };
        let bound = self.prev_tool_call_arr.len();
        let ghost id = tool_id as int;
        let name = call.function.name;
        let arguments = call.function.arguments;
        let ghost calls_before = self.prev_tool_call_arr@;
        match read {
            Ok(value) => {
                let record = TrackedCall { name: name.clone(), arguments: value };
                let ghost model = record@;
                self.prev_tool_call_arr.set(tool_id, Some(record));
                assert(tracked_models(self.prev_tool_call_arr@) =~= tracked_models(
                    calls_before,
                ).update(id, Some(model)));
            },
            Err(_) => {},
        }
        let ghost sent_before = self.streamed_args_for_tool@;
        self.streamed_args_for_tool.set(tool_id, arguments.clone());
        assert(texts(self.streamed_args_for_tool@) =~= texts(sent_before).update(id, arguments@));
        self.current_tool_id = Some(tool_id + 1);
        let item = ToolCallItem { tool_index: tool_id, name: Some(name), parameters: arguments };
        let ghost model = item@;
        let mut calls: Vec<ToolCallItem> = Vec::new();
        calls.push(item);
        assert(item_models(calls@) =~= seq![model]);
        StreamingParseResult { normal_text, calls }
    }

    /// Takes up a chunk of the stream. A call is sent when its block is complete; at most one
    /// is taken up at a time.
    pub fn parse_incremental(&mut self, chunk: &str, tools: &[Tool]) -> (r: ParserResult<
        StreamingParseResult,
    >)
        ensures
            final(self).format() == old(self).format(),
            r is Ok,
            (final(self)@, r->Ok_0@) == feed(old(self).format(), old(self)@, chunk@, tools@),
    {
        proof {
            reveal_strlit("<tool_call>");
            reveal_strlit("</tool_call>");
        }
        self.buffer.append(chunk);
        let current_text = self.buffer.clone();
        let (start, head, _) = match cut(&current_text, OPEN) {
            Some(found) => found,
            None => {
                self.buffer = String::new();
                let normal_text = match self.current_tool_id {
                    Some(id) => {
                        if id > 0 {
                            String::new()
                        } else {
                            current_text.clone()
                        }
                    },
                    None => current_text.clone(),
                };
                let calls: Vec<ToolCallItem> = Vec::new();
                assert(item_models(calls@) =~= seq![]);
                assert(self@.buffer =~= seq![]);
                return Ok(StreamingParseResult { normal_text, calls });
            },
        };
        let ghost text = current_text@;
        let ghost first = first_occurrence(text, OPEN@)->0;
        let found = first_tool_call_spans(&current_text);
        proof {
            lemma_spans_ordered(text, OPEN@, CLOSE@, 0);
        }
        if found.len() == 0 {
            let normal_text = head.to_owned();
            self.buffer = split(&current_text, start, Ghost(first)).1.to_owned();
            let calls: Vec<ToolCallItem> = Vec::new();
            assert(item_models(calls@) =~= seq![]);
            return Ok(StreamingParseResult { normal_text, calls });
        }
        let (block_start, block_end) = found[0];
        let ghost span = spans(text, OPEN@, CLOSE@, 0)[0];
        assert(found@[0].0 == byte_offset(text, span.0));
        assert(0 <= span.0 <= span.1 <= text.len());
        self.prepare();
        let (before_end, rest) = split(&current_text, block_end, Ghost(span.1));
        proof {
            assert(before_end@.take(span.0) =~= text.take(span.0));
            assert(before_end@.skip(span.0) =~= text.subrange(span.0, span.1));
        }
        let (before, block) = split(before_end, block_start, Ghost(span.0));
        let mut parsed_tools = self.parse_tool_calls_from_text(block, tools);
        let normal_text = trim(before).to_owned();
        let rest = rest.to_owned();
        assert(call_models(parsed_tools@).len() == parsed_tools@.len());
        if parsed_tools.len() > 0 {
            assert(call_models(parsed_tools@)[0] == parsed_tools@[0]@);
            let call = parsed_tools.remove(0);
            if !has_tool(tools, &call.function.name) {
                let mut name_sent = false;
                reset_current_tool_state(
                    &mut self.buffer,
                    &mut name_sent,
                    &mut self.streamed_args_for_tool,
                    &self.prev_tool_call_arr,
                );
                return Ok(StreamingParseResult::default());
            }
            self.buffer = rest;
            let read = read_json(&call.function.arguments);
            return Ok(self.send_call(call, read, normal_text));
        }
        self.buffer = rest;
        let calls: Vec<ToolCallItem> = Vec::new();
        assert(item_models(calls@) =~= seq![]);
        Ok(StreamingParseResult { normal_text, calls })
    }
}

impl Default for Glm4MoeParser {
    fn default() -> (r: Self)
        ensures
            r.format() == GlmFormat::Glm45,
            r@ == initial(),
    {
        Self::glm45()
    }
}

} // verus!
