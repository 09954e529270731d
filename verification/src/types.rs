//! What the tool-call parsers take and give back.
use crate::json::{value_model, JsonModel};
use serde_json::Value;
use vstd::prelude::*;

verus! {

/// The function that a tool offers: its name and the JSON schema of its parameters.
#[derive(Debug)]
pub struct Function {
    pub name: String,
    pub parameters: Value,
}

/// A tool that the model may call.
#[derive(Debug)]
pub struct Tool {
    pub function: Function,
}

/// A call of a function by name, with its arguments as JSON text.
#[derive(Debug, PartialEq, Eq)]
pub struct FunctionCall {
    pub name: String,
    pub arguments: String,
}

/// A complete tool call.
#[derive(Debug, PartialEq, Eq)]
pub struct ToolCall {
    pub function: FunctionCall,
}

/// A piece of a tool call in a stream: its name, or a further part of its arguments.
#[derive(Debug, PartialEq, Eq)]
pub struct ToolCallItem {
    pub tool_index: usize,
    pub name: Option<String>,
    pub parameters: String,
}

/// What one chunk of a stream gave.
#[derive(Debug, PartialEq, Eq)]
pub struct StreamingParseResult {
    pub normal_text: String,
    pub calls: Vec<ToolCallItem>,
}

/// Why a text was not parsed.
#[derive(Debug, PartialEq, Eq)]
pub enum ParserError {
    ParsingFailed(String),
}

pub type ParserResult<T> = Result<T, ParserError>;

/// A call that a streaming parser keeps track of: its name and the arguments read so far.
#[derive(Debug)]
pub struct TrackedCall {
    pub name: String,
    pub arguments: Value,
}

/// The mathematical model of a [`ToolCall`].
pub struct CallModel {
    pub name: Seq<char>,
    pub arguments: Seq<char>,
}

/// The mathematical model of a [`ToolCallItem`].
pub struct ItemModel {
    pub tool_index: int,
    pub name: Option<Seq<char>>,
    pub parameters: Seq<char>,
}

/// The mathematical model of a [`StreamingParseResult`].
pub struct ResultModel {
    pub normal_text: Seq<char>,
    pub calls: Seq<ItemModel>,
}

/// The mathematical model of a [`TrackedCall`].
pub struct TrackedModel {
    pub name: Seq<char>,
    pub arguments: JsonModel,
}

/// The text of an optional string.
pub open spec fn text_of(s: Option<String>) -> Option<Seq<char>> {
    match s {
        Some(s) => Some(s@),
        None => None,
    }
}

impl View for ToolCall {
    type V = CallModel;

    open spec fn view(&self) -> CallModel {
        CallModel { name: self.function.name@, arguments: self.function.arguments@ }
    }
}

impl View for ToolCallItem {
    type V = ItemModel;

    open spec fn view(&self) -> ItemModel {
        ItemModel {
            tool_index: self.tool_index as int,
            name: text_of(self.name),
            parameters: self.parameters@,
        }
    }
}

impl View for StreamingParseResult {
    type V = ResultModel;

    open spec fn view(&self) -> ResultModel {
        ResultModel { normal_text: self.normal_text@, calls: item_models(self.calls@) }
    }
}

impl View for ParserError {
    type V = Seq<char>;

    open spec fn view(&self) -> Seq<char> {
        match self {
            ParserError::ParsingFailed(message) => message@,
        }
    }
}

impl View for TrackedCall {
    type V = TrackedModel;

    open spec fn view(&self) -> TrackedModel {
        TrackedModel { name: self.name@, arguments: value_model(self.arguments) }
    }
}

/// The models of some calls.
pub open spec fn call_models(calls: Seq<ToolCall>) -> Seq<CallModel> {
    Seq::new(calls.len(), |i: int| calls[i]@)
}

/// The models of some items.
pub open spec fn item_models(items: Seq<ToolCallItem>) -> Seq<ItemModel> {
    Seq::new(items.len(), |i: int| items[i]@)
}

/// The model of a place for a tracked call, which may be empty.
pub open spec fn tracked_model(call: Option<TrackedCall>) -> Option<TrackedModel> {
    match call {
        Some(call) => Some(call@),
        None => None,
    }
}

/// The models of some places for tracked calls.
pub open spec fn tracked_models(calls: Seq<Option<TrackedCall>>) -> Seq<Option<TrackedModel>> {
    Seq::new(calls.len(), |i: int| tracked_model(calls[i]))
}

/// The texts of some strings.
pub open spec fn texts(strings: Seq<String>) -> Seq<Seq<char>> {
    Seq::new(strings.len(), |i: int| strings[i]@)
}

/// The texts of some pairs of strings.
pub open spec fn text_pairs(pairs: Seq<(String, String)>) -> Seq<(Seq<char>, Seq<char>)> {
    Seq::new(pairs.len(), |i: int| (pairs[i].0@, pairs[i].1@))
}

/// The item that announces a call by its name.
pub open spec fn name_item(index: int, name: Seq<char>) -> ItemModel {
    ItemModel { tool_index: index, name: Some(name), parameters: Seq::empty() }
}

/// The item that adds to the arguments of a call.
pub open spec fn argument_item(index: int, parameters: Seq<char>) -> ItemModel {
    ItemModel { tool_index: index, name: None, parameters }
}

/// The result that has neither text nor calls.
pub open spec fn nothing() -> ResultModel {
    ResultModel { normal_text: Seq::empty(), calls: Seq::empty() }
}

/// The result that has text and no calls.
pub open spec fn only_text(normal_text: Seq<char>) -> ResultModel {
    ResultModel { normal_text, calls: Seq::empty() }
}

impl Default for StreamingParseResult {
    fn default() -> (r: Self)
        ensures
            r@ == nothing(),
    {
        let r = StreamingParseResult { normal_text: String::new(), calls: Vec::new() };
        assert(r@.calls =~= Seq::empty());
        r
    }
}

} // verus!
