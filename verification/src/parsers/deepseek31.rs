//! The format of DeepSeek V3.1:
//! `<｜tool▁calls▁begin｜><｜tool▁call▁begin｜>{name}<｜tool▁sep｜>{json_args}<｜tool▁call▁end｜><｜tool▁calls▁end｜>`.
//!
//! The name stands directly behind the beginning of the call, and the arguments directly behind
//! the separator, as JSON text without a code block round it. A token inside a string of the
//! arguments is part of the string.
pub mod cutting;
pub mod outside;
pub mod pattern;
pub mod round_trip;
pub mod stream;
pub mod streaming;
pub mod values;

use self::outside::{cut_outside, first_outside, lemma_first_outside};
use crate::json::{
    json_text, kind, object_insert, object_new, object_value, one_member, parsed_json, read_json,
    write_json, JsonModel, Kind,
};
use crate::parsers::helpers::read_model;
use crate::text::edit::{trim, trimmed};
use crate::text::encoding::{
    byte_offset, lemma_byte_offset_injective, lemma_byte_offset_skip, lemma_encode_split,
};
use crate::text::search::{
    byte_len, contains, cut, first_occurrence, has, lemma_first_occurrence, offset_for,
    offset_of_rest, split,
};
use crate::types::{
    call_models, CallModel, FunctionCall, ParserError, ParserResult, ToolCall, TrackedCall,
};
use regex::Regex;
use serde_json::Value;
use vstd::prelude::*;
use vstd::utf8::*;

verus! {

/// Opens the calls.
pub const TOOL_CALLS_BEGIN: &'static str = "<｜tool▁calls▁begin｜>";

/// Opens a call.
pub const TOOL_CALL_BEGIN: &'static str = "<｜tool▁call▁begin｜>";

/// Separates the name of a call from its arguments.
pub const TOOL_SEP: &'static str = "<｜tool▁sep｜>";

/// Closes a call.
pub const TOOL_CALL_END: &'static str = "<｜tool▁call▁end｜>";

/// Closes the calls.
pub const TOOL_CALLS_END: &'static str = "<｜tool▁calls▁end｜>";

/// Ends the output of the model.
pub const EOS_TOKEN: &'static str = "<｜end▁of▁sentence｜>";

/// None of the tokens is empty.
pub proof fn lemma_tokens()
    ensures
        TOOL_CALLS_BEGIN@.len() > 0,
        TOOL_CALL_BEGIN@.len() > 0,
        TOOL_SEP@.len() > 0,
        TOOL_CALL_END@.len() > 0,
        TOOL_CALLS_END@.len() > 0,
        EOS_TOKEN@.len() > 0,
{
    reveal_strlit("<｜tool▁calls▁begin｜>");
    reveal_strlit("<｜tool▁call▁begin｜>");
    reveal_strlit("<｜tool▁sep｜>");
    reveal_strlit("<｜tool▁call▁end｜>");
    reveal_strlit("<｜tool▁calls▁end｜>");
    reveal_strlit("<｜end▁of▁sentence｜>");
}

/// The parts of a call that follow its beginning, as they stand in `after`: the text of its
/// name, the text of its arguments, and the position past its end.
pub open spec fn parts(after: Seq<char>) -> Option<(Seq<char>, Seq<char>, int)> {
    match first_occurrence(after, TOOL_SEP@) {
        Some(i) => {
            let arguments = after.skip(i + TOOL_SEP@.len());
            match first_outside(arguments, TOOL_CALL_END@) {
                Some(e) => Some(
                    (
                        after.take(i),
                        arguments.take(e),
                        i + TOOL_SEP@.len() + e + TOOL_CALL_END@.len(),
                    ),
                ),
                None => None,
            }
        },
        None => None,
    }
}

/// The arguments as an object: themselves, or the object with the one member `value`.
pub open spec fn as_object(value: JsonModel) -> JsonModel {
    if value is Object {
        value
    } else {
        JsonModel::Object(one_member("value"@, value))
    }
}

/// The call of `name`, if `read` was read of its arguments.
pub open spec fn call_given(name: Seq<char>, read: Result<JsonModel, Seq<char>>) -> Result<
    CallModel,
    Seq<char>,
> {
    match read {
        Ok(value) => Ok(CallModel { name, arguments: json_text(as_object(value)) }),
        Err(message) => Err("Invalid JSON: "@ + message),
    }
}

/// The call that follows its beginning in `after`, with the position past its end; or why there
/// is none.
pub open spec fn call_after(after: Seq<char>) -> Result<(CallModel, int), Seq<char>> {
    match first_occurrence(after, TOOL_SEP@) {
        Some(i) => if trimmed(after.take(i)).len() == 0 {
            Err("Empty function name"@)
        } else {
            match parts(after) {
                Some((name, arguments, end)) => match call_given(
                    trimmed(name),
                    parsed_json(trimmed(arguments)),
                ) {
                    Ok(call) => Ok((call, end)),
                    Err(message) => Err(message),
                },
                None => Err("Failed to match tool call pattern"@),
            }
        },
        None => Err("Failed to match tool call pattern"@),
    }
}

/// The calls in `text`. One that cannot be parsed is passed over.
pub open spec fn calls_in(text: Seq<char>) -> Seq<CallModel>
    decreases text.len(),
{
    match first_occurrence(text, TOOL_CALL_BEGIN@) {
        Some(i) => {
            let after = text.skip(i + TOOL_CALL_BEGIN@.len());
            proof {
                lemma_tokens();
                lemma_first_occurrence(text, TOOL_CALL_BEGIN@);
                lemma_parts_bounds(after);
            }
            match call_after(after) {
                Ok((call, end)) => seq![call] + calls_in(after.skip(end)),
                Err(_) => calls_in(after),
            }
        },
        None => seq![],
    }
}

/// The text before the calls, and the calls: all of the text and no calls, where there are
/// none.
pub open spec fn complete(text: Seq<char>) -> (Seq<char>, Seq<CallModel>) {
    let calls = calls_in(text);
    match first_occurrence(text, TOOL_CALLS_BEGIN@) {
        Some(i) => if calls.len() > 0 {
            (text.take(i), calls)
        } else {
            (text, seq![])
        },
        None => (text, seq![]),
    }
}

/// The position past the end of the first call in `text`.
pub open spec fn call_end(text: Seq<char>) -> Option<int> {
    match first_occurrence(text, TOOL_CALL_BEGIN@) {
        Some(i) => match parts(text.skip(i + TOOL_CALL_BEGIN@.len())) {
            Some((_, _, end)) => Some(i + TOOL_CALL_BEGIN@.len() + end),
            None => None,
        },
        None => None,
    }
}

/// A call lies in the text.
pub proof fn lemma_parts_bounds(after: Seq<char>)
    ensures
        parts(after) matches Some((_, _, end)) ==> 0 < end <= after.len(),
{
    lemma_tokens();
    lemma_first_occurrence(after, TOOL_SEP@);
    if let Some(i) = first_occurrence(after, TOOL_SEP@) {
        lemma_first_outside(after.skip(i + TOOL_SEP@.len()), TOOL_CALL_END@);
    }
}

/// `at` is the byte offset at which character `k` of `s` begins.
pub open spec fn begins_at(s: Seq<char>, k: int, at: int) -> bool {
    0 <= k <= s.len() && at == byte_offset(s, k)
}

/// A call, or why there is none.
pub open spec fn outcome(r: Result<ToolCall, ParserError>) -> Result<CallModel, Seq<char>> {
    match r {
        Ok(call) => Ok(call@),
        Err(error) => Err(error@),
    }
}

/// The call of `func_name`, given what was read of its arguments.
pub fn tool_call_from(func_name: &str, read: Result<Value, String>) -> (r: ParserResult<ToolCall>)
    ensures
        outcome(r) == call_given(func_name@, read_model(read)),
{
    let value = match read {
        Ok(value) => value,
        Err(message) => {
            let mut text = "Invalid JSON: ".to_owned();
            text.append(&message);
            return Err(ParserError::ParsingFailed(text));
        },
    };
    let args = if kind(&value) == Kind::Object {
        value
    } else {
        let mut object = object_new();
        object_insert(&mut object, "value".to_owned(), value);
        object_value(object)
    };
    match write_json(&args) {
        Ok(arguments) => Ok(
            ToolCall { function: FunctionCall { name: func_name.to_owned(), arguments } },
        ),
        Err(message) => Err(ParserError::ParsingFailed(message)),
    }
}

/// The call that follows its beginning in `after`, with what stands behind it.
fn read_call<'a>(after: &'a str) -> (r: ParserResult<(ToolCall, &'a str)>)
    ensures
        match r {
            Ok((call, rest)) => {
                &&& call_after(after@) matches Ok((model, end))
                &&& call@ == model
                &&& 0 < end <= after@.len()
                &&& rest@ == after@.skip(end)
            },
            Err(error) => call_after(after@) == Err::<(CallModel, int), _>(error@),
        },
{
    proof {
        lemma_tokens();
        lemma_parts_bounds(after@);
    }
    let (_, name, arguments) = match cut(after, TOOL_SEP) {
        Some(found) => found,
        None => {
            return Err(
                ParserError::ParsingFailed("Failed to match tool call pattern".to_owned()),
            );
        },
    };
    let func_name = trim(name);
    if func_name.is_empty() {
        return Err(ParserError::ParsingFailed("Empty function name".to_owned()));
    }
    let (json_args, rest) = match cut_outside(arguments, TOOL_CALL_END) {
        Some(found) => found,
        None => {
            return Err(
                ParserError::ParsingFailed("Failed to match tool call pattern".to_owned()),
            );
        },
    };
    assert(rest@ =~= after@.skip((parts(after@)->0).2));
    match tool_call_from(func_name, read_json(trim(json_args))) {
        Ok(call) => Ok((call, rest)),
        Err(error) => Err(error),
    }
}

/// Parser for the tool calls of DeepSeek V3.1.
pub struct DeepSeek31Parser {
    partial_tool_call_regex: Regex,
    buffer: String,
    prev_tool_call_arr: Vec<Option<TrackedCall>>,
    current_tool_id: Option<usize>,
    current_tool_name_sent: bool,
    streamed_args_for_tool: Vec<String>,
}

impl DeepSeek31Parser {
    /// The call at the byte offset `start`, at which its beginning stands, with the byte offset
    /// past its end.
    pub fn parse_tool_call_at(text: &str, start: usize) -> (r: ParserResult<(ToolCall, usize)>)
        requires
            exists|k: int| #[trigger]
                begins_at(text@, k, start + encode_utf8(TOOL_CALL_BEGIN@).len()),
        ensures
            forall|k: int| #[trigger]
                begins_at(text@, k, start + encode_utf8(TOOL_CALL_BEGIN@).len()) ==> match r {
                    Ok((call, end)) => {
                        &&& call_after(text@.skip(k)) matches Ok((model, len))
                        &&& call@ == model
                        &&& begins_at(text@, k + len, end as int)
                    },
                    Err(error) => call_after(text@.skip(k)) == Err::<(CallModel, int), _>(error@),
                },
    {
        let ghost k = choose|k: int| #[trigger]
            begins_at(text@, k, start + encode_utf8(TOOL_CALL_BEGIN@).len());
        let n = byte_len(text);
        proof {
            lemma_encode_split(text@, k);
            assert forall|j: int| #[trigger]
                begins_at(text@, j, start + encode_utf8(TOOL_CALL_BEGIN@).len()) implies j
                == k by {
                lemma_byte_offset_injective(text@, j, k);
            }
        }
        let after = split(text, start + byte_len(TOOL_CALL_BEGIN), Ghost(k)).1;
        match read_call(after) {
            Ok((call, rest)) => {
                let ghost len = (call_after(after@)->Ok_0).1;
                assert(rest@ =~= text@.skip(k + len));
                Ok((call, offset_of_rest(text, rest, Ghost(k + len))))
            },
            Err(error) => Err(error),
        }
    }

    /// The byte offset past the end of the first call in `text`, ignoring tokens inside JSON
    /// strings.
    pub fn end_of_current_tool_call(text: &str) -> (r: Option<usize>)
        ensures
            offset_for(r, text@, call_end(text@)),
            call_end(text@) matches Some(end) ==> 0 < end <= text@.len(),
    {
        proof {
            lemma_tokens();
        }
        let after = match cut(text, TOOL_CALL_BEGIN) {
            Some((_, _, after)) => after,
            None => {
                return None;
            },
        };
        proof {
            lemma_parts_bounds(after@);
        }
        let arguments = match cut(after, TOOL_SEP) {
            Some((_, _, arguments)) => arguments,
            None => {
                return None;
            },
        };
        match cut_outside(arguments, TOOL_CALL_END) {
            Some((_, rest)) => {
                assert(rest@ =~= text@.skip(call_end(text@)->0));
                Some(offset_of_rest(text, rest, Ghost(call_end(text@)->0)))
            },
            None => None,
        }
    }

    /// The calls in `text`.
    fn parse_tool_calls(text: &str) -> (r: Vec<ToolCall>)
        ensures
            call_models(r@) == calls_in(text@),
    {
        let mut tools: Vec<ToolCall> = Vec::new();
        let mut pos: usize = 0;
        let ghost mut k: int = 0;
        let n = byte_len(text);
        proof {
            lemma_tokens();
            assert(text@.take(0) =~= Seq::<char>::empty());
            assert(text@.skip(0) =~= text@);
            assert(call_models(tools@) + calls_in(text@) =~= calls_in(text@));
        }
        loop
            invariant
                TOOL_CALL_BEGIN@.len() > 0,
                begins_at(text@, k, pos as int),
                encode_utf8(text@).len() == n,
                call_models(tools@) + calls_in(text@.skip(k)) == calls_in(text@),
            decreases text@.len() - k,
        {
            let rest = split(text, pos, Ghost(k)).1;
            match cut(rest, TOOL_CALL_BEGIN) {
                Some((at, _, after)) => {
                    let ghost i = first_occurrence(rest@, TOOL_CALL_BEGIN@)->0;
                    let ghost behind = k + i + TOOL_CALL_BEGIN@.len();
                    proof {
                        lemma_byte_offset_skip(text@, k, i);
                        lemma_byte_offset_skip(text@, k, i + TOOL_CALL_BEGIN@.len());
                        lemma_encode_split(text@, behind);
                        assert(after@ =~= text@.skip(behind));
                        lemma_parts_bounds(after@);
                    }
                    let start = pos + at;
                    assert(begins_at(
                        text@,
                        behind,
                        start + encode_utf8(TOOL_CALL_BEGIN@).len(),
                    ));
                    match Self::parse_tool_call_at(text, start) {
                        Ok((tool, end)) => {
                            let ghost len = (call_after(after@)->Ok_0).1;
                            let ghost before = tools@;
                            let ghost model = tool@;
                            tools.push(tool);
                            proof {
                                assert(after@.skip(len) =~= text@.skip(behind + len));
                                assert(call_models(tools@) =~= call_models(before).push(model));
                                assert(call_models(tools@) + calls_in(text@.skip(behind + len))
                                    =~= call_models(before) + (seq![model] + calls_in(
                                    text@.skip(behind + len),
                                )));
                                k = behind + len;
                            }
                            pos = end;
                        },
                        Err(_) => {
                            pos = start + byte_len(TOOL_CALL_BEGIN);
                            proof {
                                k = behind;
                            }
                        },
                    }
                },
                None => {
                    assert(call_models(tools@) + seq![] =~= call_models(tools@));
                    return tools;
                },
            }
        }
    }

    /// The text before the calls, and the calls.
    pub fn parse_complete(&self, text: &str) -> (r: ParserResult<(String, Vec<ToolCall>)>)
        ensures
            r is Ok,
            (r->Ok_0.0@, call_models(r->Ok_0.1@)) == complete(text@),
    {
        proof {
            lemma_tokens();
        }
        let normal_text = match cut(text, TOOL_CALLS_BEGIN) {
            Some((_, head, _)) => head,
            None => {
                let none: Vec<ToolCall> = Vec::new();
                assert(call_models(none@) =~= seq![]);
                return Ok((text.to_owned(), none));
            },
        };
        let tools = Self::parse_tool_calls(text);
        assert(call_models(tools@).len() == tools@.len());
        if tools.len() == 0 {
            assert(call_models(tools@) =~= seq![]);
            return Ok((text.to_owned(), tools));
        }
        Ok((normal_text.to_owned(), tools))
    }

    /// Whether `text` has the token that opens the calls.
    pub fn has_tool_markers(&self, text: &str) -> (r: bool)
        ensures
            r == contains(text@, TOOL_CALLS_BEGIN@),
    {
        proof {
            lemma_tokens();
        }
        has(text, TOOL_CALLS_BEGIN)
    }
}

} // verus!
