use model_gateway::parsers::deepseek31::{
    tool_call_from, DeepSeek31Parser, EOS_TOKEN, TOOL_CALLS_BEGIN, TOOL_CALLS_END,
    TOOL_CALL_BEGIN, TOOL_CALL_END, TOOL_SEP,
};
use model_gateway::types::{Function, FunctionCall, ParserError, Tool, ToolCall};
use serde_json::Value;

fn json(text: &str) -> Value {
    serde_json::from_str(text).unwrap()
}

fn tool(name: &str) -> Tool {
    Tool { function: Function { name: name.to_string(), parameters: json("{}") } }
}

fn call(name: &str, arguments: &str) -> ToolCall {
    ToolCall {
        function: FunctionCall { name: name.to_string(), arguments: arguments.to_string() },
    }
}

fn written(name: &str, arguments: &str) -> String {
    format!("{TOOL_CALL_BEGIN}{name}{TOOL_SEP}{arguments}{TOOL_CALL_END}")
}

fn failed(message: &str) -> ParserError {
    ParserError::ParsingFailed(message.to_string())
}

#[test]
fn deepseek_text_without_calls_is_given_back() {
    let parser = DeepSeek31Parser::new();
    assert!(!parser.has_tool_markers("no calls"));
    assert_eq!(parser.parse_complete("no calls").unwrap(), ("no calls".to_string(), vec![]));
}

#[test]
fn call_without_the_token_for_calls_is_text() {
    let parser = DeepSeek31Parser::new();
    let text = written("f", "{}");
    assert!(!parser.has_tool_markers(&text));
    assert_eq!(parser.parse_complete(&text).unwrap(), (text.clone(), vec![]));
}

#[test]
fn deepseek_calls_are_read_back_as_written() {
    let parser = DeepSeek31Parser::default();
    let text = format!(
        "Let me look. {TOOL_CALLS_BEGIN}{}{}{TOOL_CALLS_END}{EOS_TOKEN}",
        written("get_weather", r#"{"city": "Paris"}"#),
        written(" stop ", "\n{ }\n"),
    );
    assert!(parser.has_tool_markers(&text));
    let (normal, calls) = parser.parse_complete(&text).unwrap();
    assert_eq!(normal, "Let me look. ");
    assert_eq!(calls, vec![call("get_weather", r#"{"city":"Paris"}"#), call("stop", "{}")]);
}

#[test]
fn tokens_in_json_strings_are_kept() {
    let parser = DeepSeek31Parser::new();
    let arguments =
        format!(r#"{{"a":"x {TOOL_CALL_END} y","b":"\" {TOOL_CALL_BEGIN}{TOOL_SEP}"}}"#);
    let text = format!("{TOOL_CALLS_BEGIN}{}{}", written("f", &arguments), written("g", "{}"));
    let (_, calls) = parser.parse_complete(&text).unwrap();
    assert_eq!(calls, vec![call("f", &arguments), call("g", "{}")]);
}

#[test]
fn arguments_that_are_no_object_are_wrapped() {
    let parser = DeepSeek31Parser::new();
    let text = format!("{TOOL_CALLS_BEGIN}{}{}", written("f", "[1, 2]"), written("g", "\"x\""));
    let (_, calls) = parser.parse_complete(&text).unwrap();
    assert_eq!(calls, vec![call("f", r#"{"value":[1,2]}"#), call("g", r#"{"value":"x"}"#)]);
}

#[test]
fn broken_call_is_passed_over() {
    let parser = DeepSeek31Parser::new();
    let text = format!(
        "{TOOL_CALLS_BEGIN}{}{}{}",
        written("f", "{broken"),
        written("g", "{}"),
        written(" ", "{}"),
    );
    let (_, calls) = parser.parse_complete(&text).unwrap();
    assert_eq!(calls, vec![call("g", "{}")]);
    let only_broken = format!("a {TOOL_CALLS_BEGIN}{}", written("f", "{broken"));
    assert_eq!(parser.parse_complete(&only_broken).unwrap(), (only_broken.clone(), vec![]));
}

#[test]
fn errors_say_why_there_is_no_call() {
    let no_separator = format!("{TOOL_CALL_BEGIN}f");
    assert_eq!(
        DeepSeek31Parser::parse_tool_call_at(&no_separator, 0),
        Err(failed("Failed to match tool call pattern"))
    );
    let no_end = format!("{TOOL_CALL_BEGIN}f{TOOL_SEP}{{}}");
    assert_eq!(
        DeepSeek31Parser::parse_tool_call_at(&no_end, 0),
        Err(failed("Failed to match tool call pattern"))
    );
    assert_eq!(
        DeepSeek31Parser::parse_tool_call_at(&written("  ", "{}"), 0),
        Err(failed("Empty function name"))
    );
    let message = serde_json::from_str::<Value>("{broken").unwrap_err().to_string();
    assert_eq!(
        DeepSeek31Parser::parse_tool_call_at(&written("f", "{broken"), 0),
        Err(failed(&format!("Invalid JSON: {message}")))
    );
}

#[test]
fn call_is_parsed_at_its_offset() {
    let text = format!("é{} rest", written("f", "{\"a\": 1}"));
    assert_eq!(
        DeepSeek31Parser::parse_tool_call_at(&text, 2),
        Ok((call("f", r#"{"a":1}"#), text.len() - " rest".len()))
    );
}

#[test]
fn call_follows_from_what_was_read() {
    assert_eq!(tool_call_from("f", Ok(json("{\"a\": 1}"))), Ok(call("f", r#"{"a":1}"#)));
    assert_eq!(tool_call_from("f", Ok(json("7"))), Ok(call("f", r#"{"value":7}"#)));
    assert_eq!(tool_call_from("f", Err("why".to_string())), Err(failed("Invalid JSON: why")));
}

#[test]
fn tokens_are_found_outside_of_json_strings() {
    let find = DeepSeek31Parser::find_token_outside_json_strings;
    assert_eq!(find(r#""<x>" <x>"#, "<x>"), Some(6));
    assert_eq!(find(r#""é\"<x>" <x>"#, "<x>"), Some(10));
    assert_eq!(find(r#""\\"<x>"#, "<x>"), Some(4));
    assert_eq!(find(r#""<x>"#, "<x>"), None);
    assert_eq!(find(r#"\"<x>""#, "<x>"), None);
    assert_eq!(find("ab", "abc"), None);
    assert_eq!(find("\"\"", "\""), None);
    assert_eq!(find("ab", ""), Some(0));
    assert_eq!(find("\"a\"b", ""), Some(3));
    assert_eq!(find("\"a\\", ""), None);
}

#[test]
fn end_of_the_first_call_is_found() {
    let first = written("f", &format!(r#"{{"a":"{TOOL_CALL_END}"}}"#));
    let text = format!("x{first}y{}", written("g", "{}"));
    assert_eq!(
        DeepSeek31Parser::end_of_current_tool_call(&text),
        Some(1 + first.len())
    );
    assert_eq!(DeepSeek31Parser::end_of_current_tool_call("x"), None);
    assert_eq!(DeepSeek31Parser::end_of_current_tool_call(TOOL_CALL_BEGIN), None);
    let open = format!("{TOOL_CALL_BEGIN}f{TOOL_SEP}{{}}");
    assert_eq!(DeepSeek31Parser::end_of_current_tool_call(&open), None);
}

#[test]
fn plain_text_passes_without_end_tokens() {
    let mut parser = DeepSeek31Parser::new();
    let chunk = format!("a{TOOL_CALLS_END}b{TOOL_CALL_END}c{EOS_TOKEN}d");
    let result = parser.parse_incremental(&chunk, &[tool("f")]).unwrap();
    assert_eq!(result.normal_text, "abcd");
    assert!(result.calls.is_empty());
}

#[test]
fn name_is_sent_before_the_arguments() {
    let tools = vec![tool("f"), tool("g")];
    let mut parser = DeepSeek31Parser::new();
    let begin = format!("{TOOL_CALLS_BEGIN}{TOOL_CALL_BEGIN}f");
    let none = parser.parse_incremental(&begin, &tools).unwrap();
    assert_eq!(none.normal_text, "");
    assert!(none.calls.is_empty());

    let named = parser.parse_incremental(TOOL_SEP, &tools).unwrap();
    assert_eq!(named.calls.len(), 1);
    assert_eq!(named.calls[0].tool_index, 0);
    assert_eq!(named.calls[0].name.as_deref(), Some("f"));
    assert_eq!(named.calls[0].parameters, "");

    let part = parser.parse_incremental("{\"a\":", &tools).unwrap();
    assert_eq!(part.calls[0].name, None);
    assert_eq!(part.calls[0].parameters, "{\"a\":");

    let last = format!("1}}{TOOL_CALL_END}");
    let rest = parser.parse_incremental(&last, &tools).unwrap();
    assert_eq!(rest.calls[0].tool_index, 0);
    assert_eq!(rest.calls[0].parameters, "1}");
    assert!(parser.get_unstreamed_tool_args().is_none());

    let second = format!("{TOOL_CALL_BEGIN}g{TOOL_SEP}{{}}");
    let named = parser.parse_incremental(&second, &tools).unwrap();
    assert_eq!(named.calls[0].tool_index, 1);
    assert_eq!(named.calls[0].name.as_deref(), Some("g"));
    let end = format!("{TOOL_CALL_END}{TOOL_CALLS_END}{EOS_TOKEN}");
    let sent = parser.parse_incremental(&end, &tools).unwrap();
    assert_eq!(sent.calls[0].tool_index, 1);
    assert_eq!(sent.calls[0].parameters, "{}");
    let tail = parser.parse_incremental("bye", &tools).unwrap();
    assert_eq!(tail.normal_text, "bye");
}

#[test]
fn stacked_end_tokens_are_not_sent() {
    let tools = vec![tool("f")];
    let mut parser = DeepSeek31Parser::new();
    let begin = format!("{TOOL_CALL_BEGIN}f{TOOL_SEP}");
    parser.parse_incremental(&begin, &tools).unwrap();
    let chunk = format!(
        "{{\"a\": 1 {TOOL_CALL_END}{EOS_TOKEN} {TOOL_CALL_END}{TOOL_CALLS_END}{EOS_TOKEN}\n"
    );
    let sent = parser.parse_incremental(&chunk, &tools).unwrap();
    assert_eq!(sent.calls[0].parameters, "{\"a\": 1");
}

#[test]
fn call_of_an_unknown_tool_is_dropped() {
    let mut parser = DeepSeek31Parser::new();
    let chunk = format!("{TOOL_CALLS_BEGIN}{}", written("h", "{}"));
    let result = parser.parse_incremental(&chunk, &[tool("f")]).unwrap();
    assert_eq!(result.normal_text, "");
    assert!(result.calls.is_empty());
    let next = parser.parse_incremental("text", &[tool("f")]).unwrap();
    assert_eq!(next.normal_text, "text");
}

#[test]
fn name_reaches_to_the_last_separator() {
    let mut parser = DeepSeek31Parser::new();
    let chunk = format!("{TOOL_CALL_BEGIN}f{TOOL_SEP}g\nh{TOOL_SEP}{{");
    let name = format!("f{TOOL_SEP}g\nh");
    let result = parser.parse_incremental(&chunk, &[tool(&name)]).unwrap();
    assert_eq!(result.calls[0].name.as_deref(), Some(name.as_str()));
}

#[test]
fn unsent_arguments_are_offered_at_the_end() {
    let tools = vec![tool("f")];
    let mut parser = DeepSeek31Parser::new();
    let begin = format!("{TOOL_CALL_BEGIN}f{TOOL_SEP}");
    parser.parse_incremental(&begin, &tools).unwrap();
    let rest = parser.get_unstreamed_tool_args().unwrap();
    assert_eq!(rest.len(), 1);
    assert_eq!(rest[0].tool_index, 0);
    assert_eq!(rest[0].parameters, "{}");
    parser.finish(Ok(json("{\"a\": 1}")));
    assert_eq!(parser.get_unstreamed_tool_args().unwrap()[0].parameters, "{\"a\":1}");
}

#[test]
fn incomplete_arguments_do_not_finish_the_call() {
    let tools = vec![tool("f")];
    let mut parser = DeepSeek31Parser::new();
    let begin = format!("{TOOL_CALL_BEGIN}f{TOOL_SEP}");
    parser.parse_incremental(&begin, &tools).unwrap();
    parser.finish(Err("incomplete".to_string()));
    let sent = parser.parse_incremental("{", &tools).unwrap();
    assert_eq!(sent.calls[0].tool_index, 0);
    assert_eq!(sent.calls[0].parameters, "{");
}

#[test]
fn deepseek_reset_forgets_the_stream() {
    let tools = vec![tool("f")];
    let mut parser = DeepSeek31Parser::new();
    let begin = format!("{TOOL_CALL_BEGIN}f{TOOL_SEP}{{");
    parser.parse_incremental(&begin, &tools).unwrap();
    parser.reset();
    assert!(parser.get_unstreamed_tool_args().is_none());
    assert_eq!(parser.parse_incremental("text", &tools).unwrap().normal_text, "text");
    let again = parser.parse_incremental(&begin, &tools).unwrap();
    assert_eq!(again.calls[0].name.as_deref(), Some("f"));
    assert_eq!(again.calls[0].tool_index, 0);
}

#[test]
fn arguments_are_sent_as_written_however_they_are_cut() {
    let tools = vec![tool("f")];
    let arguments = r#"{"a": [1, "é }"],  "b" : {"c": null} }"#;
    let ends = format!("{TOOL_CALL_END}{TOOL_CALLS_END}");
    let begin = format!("{TOOL_CALLS_BEGIN}{TOOL_CALL_BEGIN}f{TOOL_SEP}");
    let last = arguments.len();
    for first in 0..last + 1 {
        for second in first..last + 1 {
            if !arguments.is_char_boundary(first) || !arguments.is_char_boundary(second) {
                continue;
            }
            for (with_last, alone) in [("", ends.as_str()), (TOOL_CALL_END, TOOL_CALLS_END)] {
                let mut parser = DeepSeek31Parser::new();
                let end = format!("{}{with_last}", &arguments[second..]);
                let mut items = vec![];
                for chunk in [
                    begin.as_str(),
                    &arguments[..first],
                    &arguments[first..second],
                    end.as_str(),
                    alone,
                ] {
                    let result = parser.parse_incremental(chunk, &tools).unwrap();
                    assert_eq!(result.normal_text, "");
                    items.extend(result.calls);
                }
                assert_eq!(items[0].name.as_deref(), Some("f"));
                assert!(items.iter().all(|item| item.tool_index == 0));
                assert!(items[1..].iter().all(|item| item.name.is_none()));
                let sent: String = items.iter().map(|item| item.parameters.as_str()).collect();
                assert_eq!(sent, arguments);
            }
        }
    }
}

#[test]
fn beginning_of_a_call_may_come_in_parts() {
    let tools = vec![tool("f")];
    let mut parser = DeepSeek31Parser::new();
    let mut items = vec![];
    let ends = format!("{{}}{TOOL_CALL_END}{TOOL_CALLS_END}");
    for chunk in ["", TOOL_CALLS_BEGIN, "", TOOL_CALL_BEGIN, "f", TOOL_SEP, ends.as_str(), ""] {
        let result = parser.parse_incremental(chunk, &tools).unwrap();
        assert_eq!(result.normal_text, "");
        items.extend(result.calls);
    }
    assert_eq!(items.len(), 2);
    assert_eq!(items[0].name.as_deref(), Some("f"));
    assert_eq!(items[1].parameters, "{}");
}
