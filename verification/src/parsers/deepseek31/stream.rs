//! Reading a stream of DeepSeek V3.1 in chunks.
use super::pattern::{captures, compile, partial_call, pattern_of, PARTIAL_TOOL_CALL};
use super::{
    call_end, lemma_tokens, DeepSeek31Parser, EOS_TOKEN, TOOL_CALLS_BEGIN, TOOL_CALLS_END,
    TOOL_CALL_BEGIN, TOOL_CALL_END,
};
use crate::json::{no_members, object_new, object_value, parsed_json, read_json, JsonModel};
use crate::parsers::helpers::{
    ensure_capacity, get_unstreamed_args, has_tool, known_tool, padded, read_model,
    reset_current_tool_state, unstreamed,
};
use crate::text::edit::{
    replace, replaced, strip_prefix, trim, trim_end, trim_end_of, trimmed, trimmed_end,
    trimmed_end_of, without_prefix,
};
use crate::text::search::{contains, has, same, split};
use crate::types::{
    argument_item, item_models, name_item, nothing, only_text, texts, tracked_models, ParserResult,
    ResultModel, StreamingParseResult, Tool, ToolCallItem, TrackedCall, TrackedModel,
};
use serde_json::Value;
use vstd::prelude::*;

verus! {

/// What the parser keeps from one chunk to the next.
pub struct DeepSeekState {
    /// The text that is not yet dealt with.
    pub buffer: Seq<char>,
    /// The calls so far.
    pub calls: Seq<Option<TrackedModel>>,
    /// The index of the current call, or of the next; none before the first.
    pub id: Option<int>,
    /// The name of the current call was sent.
    pub name_sent: bool,
    /// What was sent of the arguments of each call.
    pub streamed: Seq<Seq<char>>,
}

/// The state before the first chunk.
pub open spec fn initial() -> DeepSeekState {
    DeepSeekState { buffer: seq![], calls: seq![], id: None, name_sent: false, streamed: seq![] }
}

/// `text` without the tokens that end something.
pub open spec fn without_end_tokens(text: Seq<char>) -> Seq<char> {
    replaced(
        replaced(replaced(text, TOOL_CALLS_END@, ""@), TOOL_CALL_END@, ""@),
        EOS_TOKEN@,
        ""@,
    )
}

/// `s` without the copies of `token` and the white space at its end.
pub open spec fn strip_token(s: Seq<char>, token: Seq<char>) -> Seq<char> {
    trimmed_end(trimmed_end_of(s, token))
}

/// `s` without what each end token in turn, with white space, takes off its end.
pub open spec fn strip_once(s: Seq<char>) -> Seq<char> {
    strip_token(strip_token(strip_token(s, EOS_TOKEN@), TOOL_CALLS_END@), TOOL_CALL_END@)
}

/// `s` without the end tokens and the white space at its end, in whatever order they stand
/// there.
pub open spec fn stripped(s: Seq<char>) -> Seq<char>
    decreases s.len(),
{
    let t = strip_once(s);
    if t.len() < s.len() {
        stripped(t)
    } else {
        s
    }
}

/// The arguments of a call, as far as they stand in `raw`.
pub open spec fn clean_arguments(raw: Seq<char>) -> Seq<char> {
    stripped(trimmed_end(raw))
}

/// What is to be sent of the arguments, if `sent` was sent before: what follows that, or all of
/// them if they do not begin with it.
pub open spec fn argument_diff(arguments: Seq<char>, sent: Seq<char>) -> Seq<char> {
    match without_prefix(arguments, sent) {
        Some(rest) => rest,
        None => arguments,
    }
}

/// The state in which the current call has its place.
pub open spec fn prepared(st: DeepSeekState) -> DeepSeekState {
    let (id, calls, streamed) = match st.id {
        Some(id) => (id, st.calls, st.streamed),
        None => (0, seq![], seq![seq![]]),
    };
    DeepSeekState {
        id: Some(id),
        calls: padded(calls, id + 1, None),
        streamed: padded(streamed, id + 1, seq![]),
        ..st
    }
}

/// Drops the text, if it calls an unknown tool.
pub open spec fn dropped(st: DeepSeekState) -> DeepSeekState {
    DeepSeekState {
        buffer: seq![],
        name_sent: false,
        streamed: if st.streamed.len() > st.calls.len() {
            st.streamed.drop_last()
        } else {
            st.streamed
        },
        ..st
    }
}

/// Sends the name of the current call.
pub open spec fn send_name(st: DeepSeekState, name: Seq<char>) -> (DeepSeekState, ResultModel) {
    let id = st.id->0;
    (
        DeepSeekState {
            calls: st.calls.update(
                id,
                Some(TrackedModel { name, arguments: JsonModel::Object(no_members()) }),
            ),
            name_sent: true,
            ..st
        },
        ResultModel { normal_text: seq![], calls: seq![name_item(id, name)] },
    )
}

/// Sends what is new of the arguments of the current call.
pub open spec fn send_arguments(st: DeepSeekState, arguments: Seq<char>) -> (
    DeepSeekState,
    ResultModel,
) {
    let id = st.id->0;
    let diff = argument_diff(arguments, st.streamed[id]);
    if diff.len() > 0 {
        (
            DeepSeekState { streamed: st.streamed.update(id, st.streamed[id] + diff), ..st },
            ResultModel { normal_text: seq![], calls: seq![argument_item(id, diff)] },
        )
    } else {
        (st, nothing())
    }
}

/// Goes on to the next call, if `read`, which was read of the arguments of the current one, is
/// a complete value. The text past the end of the call stays.
pub open spec fn finish_call(st: DeepSeekState, read: Result<JsonModel, Seq<char>>) -> DeepSeekState {
    let id = st.id->0;
    match read {
        Ok(arguments) => DeepSeekState {
            buffer: match call_end(st.buffer) {
                Some(end) => st.buffer.skip(end),
                None => seq![],
            },
            calls: match st.calls[id] {
                Some(call) => st.calls.update(id, Some(TrackedModel { arguments, ..call })),
                None => st.calls,
            },
            id: Some(id + 1),
            name_sent: false,
            ..st
        },
        Err(_) => st,
    }
}

/// What the parser does with a chunk.
pub open spec fn feed(st: DeepSeekState, chunk: Seq<char>, tools: Seq<Tool>) -> (
    DeepSeekState,
    ResultModel,
) {
    let text = st.buffer + chunk;
    let next = DeepSeekState { buffer: text, ..st };
    if !contains(text, TOOL_CALLS_BEGIN@) && !contains(text, TOOL_CALL_BEGIN@) {
        (DeepSeekState { buffer: seq![], ..st }, only_text(without_end_tokens(text)))
    } else {
        match partial_call(text) {
            None => (next, nothing()),
            Some((raw_name, raw_arguments)) => {
                let name = trimmed(raw_name);
                if !known_tool(tools, name) {
                    (dropped(next), nothing())
                } else if st.name_sent {
                    let arguments = clean_arguments(trimmed(raw_arguments));
                    let (sent, result) = send_arguments(prepared(next), arguments);
                    (finish_call(sent, parsed_json(arguments)), result)
                } else {
                    send_name(prepared(next), name)
                }
            },
        }
    }
}

/// White space is taken off the end.
pub proof fn lemma_trimmed_end(s: Seq<char>)
    ensures
        trimmed_end(s).len() <= s.len(),
        trimmed_end(s) == s.take(trimmed_end(s).len() as int),
    decreases s.len(),
{
    if trimmed_end(s).len() == s.len() {
        assert(s.take(s.len() as int) =~= s);
    }
    if s.len() > 0 {
        lemma_trimmed_end(s.drop_last());
        let n = trimmed_end(s.drop_last()).len() as int;
        assert(s.drop_last().take(n) =~= s.take(n));
        assert(s.take(s.len() as int) =~= s);
    }
}

/// Copies of a token are taken off the end.
pub proof fn lemma_trimmed_end_of(s: Seq<char>, token: Seq<char>)
    ensures
        trimmed_end_of(s, token).len() <= s.len(),
        trimmed_end_of(s, token) == s.take(trimmed_end_of(s, token).len() as int),
    decreases s.len(),
{
    assert(s.take(s.len() as int) =~= s);
    if trimmed_end_of(s, token) != s {
        let t = s.take(s.len() - token.len());
        lemma_trimmed_end_of(t, token);
        let n = trimmed_end_of(t, token).len() as int;
        assert(t.take(n) =~= s.take(n));
    }
}

/// A token and white space are taken off the end.
pub proof fn lemma_strip_token(s: Seq<char>, token: Seq<char>)
    ensures
        strip_token(s, token).len() <= s.len(),
        strip_token(s, token) == s.take(strip_token(s, token).len() as int),
{
    let t = trimmed_end_of(s, token);
    lemma_trimmed_end_of(s, token);
    lemma_trimmed_end(t);
    let n = strip_token(s, token).len() as int;
    assert(t.take(n) =~= s.take(n));
}

/// The end tokens and white space are taken off the end; where nothing is, nothing changes.
pub proof fn lemma_strip_once(s: Seq<char>)
    ensures
        strip_once(s).len() <= s.len(),
        strip_once(s) == s.take(strip_once(s).len() as int),
        strip_once(s).len() == s.len() ==> strip_once(s) == s,
{
    let a = strip_token(s, EOS_TOKEN@);
    let b = strip_token(a, TOOL_CALLS_END@);
    lemma_strip_token(s, EOS_TOKEN@);
    lemma_strip_token(a, TOOL_CALLS_END@);
    lemma_strip_token(b, TOOL_CALL_END@);
    let n = strip_once(s).len() as int;
    assert(b.take(n) =~= s.take(n));
    assert(s.take(s.len() as int) =~= s);
}

/// The arguments of a call, as far as they stand in `raw`.
fn clean<'a>(raw: &'a str) -> (r: &'a str)
    ensures
        r@ == clean_arguments(raw@),
{
    let mut rest = trim_end(raw);
    loop
        invariant
            clean_arguments(raw@) == stripped(rest@),
        decreases rest@.len(),
    {
        proof {
            lemma_tokens();
            lemma_strip_once(rest@);
        }
        let before = rest;
        rest = trim_end(trim_end_of(rest, EOS_TOKEN));
        rest = trim_end(trim_end_of(rest, TOOL_CALLS_END));
        rest = trim_end(trim_end_of(rest, TOOL_CALL_END));
        if same(rest, before) {
            return rest;
        }
    }
}

impl View for DeepSeek31Parser {
    type V = DeepSeekState;

    closed spec fn view(&self) -> DeepSeekState {
        DeepSeekState {
            buffer: self.buffer@,
            calls: tracked_models(self.prev_tool_call_arr@),
            id: match self.current_tool_id {
                Some(id) => Some(id as int),
                None => None,
            },
            name_sent: self.current_tool_name_sent,
            streamed: texts(self.streamed_args_for_tool@),
        }
    }
}

impl DeepSeek31Parser {
    /// The parser holds the regular expression of a call.
    pub closed spec fn wf(&self) -> bool {
        pattern_of(self.partial_tool_call_regex) == PARTIAL_TOOL_CALL@
    }

    /// A new parser.
    pub fn new() -> (r: Self)
        ensures
            r.wf(),
            r@ == initial(),
    {
        let partial_tool_call_regex = match compile(PARTIAL_TOOL_CALL) {
            Some(regex) => regex,
            None => vstd::pervasive::unreached(),
        };
        let r = DeepSeek31Parser {
            partial_tool_call_regex,
            buffer: String::new(),
            prev_tool_call_arr: Vec::new(),
            current_tool_id: None,
            current_tool_name_sent: false,
            streamed_args_for_tool: Vec::new(),
        };
        assert(r@.buffer =~= initial().buffer);
        assert(r@.calls =~= initial().calls);
        assert(r@.streamed =~= initial().streamed);
        r
    }

    /// What is still to be sent of the arguments of the last call.
    pub fn get_unstreamed_tool_args(&self) -> (r: Option<Vec<ToolCallItem>>)
        ensures
            match r {
                Some(items) => {
                    &&& unstreamed(self@.calls, self@.streamed) matches Some(item)
                    &&& item_models(items@) == seq![item]
                },
                None => unstreamed(self@.calls, self@.streamed) is None,
            },
    {
        get_unstreamed_args(&self.prev_tool_call_arr, &self.streamed_args_for_tool)
    }

    /// Forgets the stream so far.
    pub fn reset(&mut self)
        ensures
            final(self)@ == initial(),
            final(self).wf() == old(self).wf(),
    {
        self.buffer = String::new();
        self.prev_tool_call_arr = Vec::new();
        self.current_tool_id = None;
        self.current_tool_name_sent = false;
        self.streamed_args_for_tool = Vec::new();
        assert(self@.buffer =~= initial().buffer);
        assert(self@.calls =~= initial().calls);
        assert(self@.streamed =~= initial().streamed);
    }

    /// Makes a place for the current call, and gives its index.
    fn prepare(&mut self) -> (r: usize)
        ensures
            final(self)@ == prepared(old(self)@),
            final(self).wf() == old(self).wf(),
            final(self).buffer == old(self).buffer,
            final(self).prev_tool_call_arr@.len() > r,
            final(self).streamed_args_for_tool@.len() > r,
            final(self).current_tool_id == Some(r),
    {
        let tool_id = match self.current_tool_id {
            Some(id) => id,
            None => {
                self.prev_tool_call_arr = Vec::new();
                self.streamed_args_for_tool = Vec::new();
                self.streamed_args_for_tool.push(String::new());
                assert(tracked_models(self.prev_tool_call_arr@) =~= seq![]);
                assert(texts(self.streamed_args_for_tool@) =~= seq![seq![]]);
                0
            },
        };
        self.current_tool_id = Some(tool_id);
        ensure_capacity(tool_id, &mut self.prev_tool_call_arr, &mut self.streamed_args_for_tool);
        tool_id
    }

    /// Sends the name of the current call.
    fn announce(&mut self, tool_id: usize, name: &str) -> (r: Vec<ToolCallItem>)
        requires
            old(self).current_tool_id == Some(tool_id),
            tool_id < old(self).prev_tool_call_arr@.len(),
        ensures
            (final(self)@, (ResultModel { normal_text: seq![], calls: item_models(r@) }))
                == send_name(old(self)@, name@),
            final(self).wf() == old(self).wf(),
    {
        let record = TrackedCall { name: name.to_owned(), arguments: object_value(object_new()) };
        let ghost model = record@;
        let ghost before = self.prev_tool_call_arr@;
        self.prev_tool_call_arr.set(tool_id, Some(record));
        assert(tracked_models(self.prev_tool_call_arr@) =~= tracked_models(before).update(
            tool_id as int,
            Some(model),
        ));
        self.current_tool_name_sent = true;
        let item = ToolCallItem {
            tool_index: tool_id,
            name: Some(name.to_owned()),
            parameters: String::new(),
        };
        let ghost sent = item@;
        assert(sent.parameters =~= Seq::empty());
        let mut calls: Vec<ToolCallItem> = Vec::new();
        calls.push(item);
        assert(item_models(calls@) =~= seq![sent]);
        calls
    }

    /// Sends what is new of the arguments of the current call.
    fn send(&mut self, tool_id: usize, arguments: &str) -> (r: Vec<ToolCallItem>)
        requires
            old(self).current_tool_id == Some(tool_id),
            tool_id < old(self).streamed_args_for_tool@.len(),
        ensures
            (final(self)@, (ResultModel { normal_text: seq![], calls: item_models(r@) }))
                == send_arguments(old(self)@, arguments@),
            final(self).wf() == old(self).wf(),
            final(self).current_tool_id == old(self).current_tool_id,
            final(self).prev_tool_call_arr == old(self).prev_tool_call_arr,
            final(self).buffer == old(self).buffer,
    {
        let mut calls: Vec<ToolCallItem> = Vec::new();
        let last_sent = self.streamed_args_for_tool[tool_id].clone();
        let diff = match strip_prefix(arguments, &last_sent) {
            Some(rest) => rest,
            None => arguments,
        };
        assert(item_models(calls@) =~= seq![]);
        if !diff.is_empty() {
            let item = ToolCallItem { tool_index: tool_id, name: None, parameters: diff.to_owned() };
            let ghost model = item@;
            calls.push(item);
            assert(item_models(calls@) =~= seq![model]);
            let ghost before = self.streamed_args_for_tool@;
            let mut sent = last_sent;
            sent.append(diff);
            self.streamed_args_for_tool.set(tool_id, sent);
            assert(texts(self.streamed_args_for_tool@) =~= texts(before).update(
                tool_id as int,
                sent@,
            ));
        }
        calls
    }

    /// Goes on to the next call, given what was read of the arguments of the current one.
    pub fn finish(&mut self, read: Result<Value, String>)
        requires
            old(self)@.id matches Some(id) && id < old(self)@.calls.len(),
        ensures
            final(self)@ == finish_call(old(self)@, read_model(read)),
            final(self).wf() == old(self).wf(),
    {
        let arguments = match read {
            Ok(arguments) => arguments,
            Err(_) => {
                return;
            },
        };
        let tool_id = match self.current_tool_id {
            Some(id) => id,
            None => vstd::pervasive::unreached(),
        };
        let ghost before = self.prev_tool_call_arr@;
        let bound = self.prev_tool_call_arr.len();
        let name = match &self.prev_tool_call_arr[tool_id] {
            Some(call) => Some(call.name.clone()),
            None => None,
        };
        match name {
            Some(name) => {
                let record = TrackedCall { name, arguments };
                let ghost model = record@;
                self.prev_tool_call_arr.set(tool_id, Some(record));
                assert(tracked_models(self.prev_tool_call_arr@) =~= tracked_models(before).update(
                    tool_id as int,
                    Some(model),
                ));
            },
            None => {},
        }
        let current_text = self.buffer.clone();
        self.buffer = match Self::end_of_current_tool_call(&current_text) {
            Some(end) => split(&current_text, end, Ghost(call_end(current_text@)->0)).1.to_owned(),
            None => String::new(),
        };
        self.current_tool_id = Some(tool_id + 1);
        self.current_tool_name_sent = false;
    }

    /// Takes up a chunk of the stream. The name of a call is sent first, then its arguments as
    /// they come in.
    pub fn parse_incremental(&mut self, chunk: &str, tools: &[Tool]) -> (r: ParserResult<
        StreamingParseResult,
    >)
        requires
            old(self).wf(),
        ensures
            final(self).wf(),
            r is Ok,
            (final(self)@, r->Ok_0@) == feed(old(self)@, chunk@, tools@),
    {
        proof {
            lemma_tokens();
        }
        self.buffer.append(chunk);
        let current_text = self.buffer.clone();
        let has_tool_call = self.has_tool_markers(&current_text) || has(
            &current_text,
            TOOL_CALL_BEGIN,
        );
        if !has_tool_call {
            self.buffer = String::new();
            let normal_text = replace(&current_text, TOOL_CALLS_END, "");
            let normal_text = replace(&normal_text, TOOL_CALL_END, "");
            let normal_text = replace(&normal_text, EOS_TOKEN, "");
            let calls: Vec<ToolCallItem> = Vec::new();
            assert(item_models(calls@) =~= seq![]);
            assert(self@.buffer =~= seq![]);
            return Ok(StreamingParseResult { normal_text, calls });
        }
        let (raw_name, raw_args) = match captures(&self.partial_tool_call_regex, &current_text) {
            Some(groups) => groups,
            None => {
                return Ok(StreamingParseResult::default());
            },
        };
        let func_name = trim(raw_name);
        let func_args_raw = trim(raw_args);
        if !has_tool(tools, func_name) {
            reset_current_tool_state(
                &mut self.buffer,
                &mut self.current_tool_name_sent,
                &mut self.streamed_args_for_tool,
                &self.prev_tool_call_arr,
            );
            return Ok(StreamingParseResult::default());
        }
        let tool_id = self.prepare();
        let calls = if self.current_tool_name_sent {
            let func_args_clean = clean(func_args_raw);
            let calls = self.send(tool_id, func_args_clean);
            self.finish(read_json(func_args_clean));
            calls
        } else {
            self.announce(tool_id, func_name)
        };
        let normal_text = String::new();
        assert(normal_text@ =~= seq![]);
        Ok(StreamingParseResult { normal_text, calls })
    }
}

impl Default for DeepSeek31Parser {
    fn default() -> (r: Self)
        ensures
            r.wf(),
            r@ == initial(),
    {
        Self::new()
    }
}

} // verus!
