use model_gateway::parsers::glm4_moe::{
    first_tool_call_spans, iter_tool_call_blocks, parse_arg_key_value_pairs, Glm4MoeParser,
};
use model_gateway::types::{Function, FunctionCall, Tool, ToolCall};
use serde_json::Value;

fn json(text: &str) -> Value {
    serde_json::from_str(text).unwrap()
}

fn tool(name: &str, properties: &str) -> Tool {
    let parameters = format!(r#"{{"type": "object", "properties": {properties}}}"#);
    Tool { function: Function { name: name.to_string(), parameters: json(&parameters) } }
}

fn call(name: &str, arguments: &str) -> ToolCall {
    ToolCall {
        function: FunctionCall { name: name.to_string(), arguments: arguments.to_string() },
    }
}

#[test]
fn test_schema_aware_coercion_keeps_strings() {
    let tools = vec![tool(
        "f",
        r#"{
            "limit": {"type": "string"},
            "flag": {"type": "string"},
            "coords": {"type": "string"},
            "count": {"type": "integer"}
        }"#,
    )];
    let text = "<tool_call>f\n\
        <arg_key>limit</arg_key>\n<arg_value>4</arg_value>\n\
        <arg_key>flag</arg_key>\n<arg_value>true</arg_value>\n\
        <arg_key>coords</arg_key>\n<arg_value>[60,30]</arg_value>\n\
        <arg_key>count</arg_key>\n<arg_value>5</arg_value>\n\
        </tool_call>";
    let (_, calls) = Glm4MoeParser::glm45().parse_complete_with_tools(text, &tools).unwrap();
    assert_eq!(calls.len(), 1);
    let args: Value = serde_json::from_str(&calls[0].function.arguments).unwrap();
    assert_eq!(args["limit"], Value::String("4".to_string()));
    assert_eq!(args["flag"], Value::String("true".to_string()));
    assert_eq!(args["coords"], Value::String("[60,30]".to_string()));
    assert_eq!(args["count"], Value::Number(5.into()));
}

#[test]
fn test_streaming_schema_aware_coercion() {
    let tools = vec![tool("f", r#"{"limit": {"type": "string"}, "count": {"type": "integer"}}"#)];
    let text = "<tool_call>f\n\
        <arg_key>limit</arg_key>\n<arg_value>4</arg_value>\n\
        <arg_key>count</arg_key>\n<arg_value>5</arg_value>\n\
        </tool_call>";
    let result = Glm4MoeParser::glm45().parse_incremental(text, &tools).unwrap();
    let args: Value = serde_json::from_str(&result.calls[0].parameters).unwrap();
    assert_eq!(args["limit"], Value::String("4".to_string()));
    assert_eq!(args["count"], Value::Number(5.into()));
}

#[test]
fn glm_text_without_calls_is_given_back() {
    let parser = Glm4MoeParser::glm45();
    assert!(!parser.has_tool_markers("no calls here"));
    assert_eq!(
        parser.parse_complete("no calls here").unwrap(),
        ("no calls here".to_string(), vec![])
    );
}

#[test]
fn text_with_a_broken_call_is_given_back() {
    let parser = Glm4MoeParser::glm45();
    let open = "before <tool_call>f\n<arg_key>a</arg_key>";
    assert!(parser.has_tool_markers(open));
    assert_eq!(parser.parse_complete(open).unwrap(), (open.to_string(), vec![]));
    let nameless = "before <tool_call>\n</tool_call>";
    assert_eq!(parser.parse_complete(nameless).unwrap(), (nameless.to_string(), vec![]));
    let one_line = "<tool_call>f</tool_call>";
    assert_eq!(parser.parse_complete(one_line).unwrap(), (one_line.to_string(), vec![]));
}

#[test]
fn glm_calls_are_read_back_as_written() {
    let text = "Some text. <tool_call>get_weather\n<arg_key>city</arg_key>\n\
        <arg_value>Paris</arg_value>\n<arg_key>days</arg_key>\n<arg_value>3</arg_value>\n\
        </tool_call>\n<tool_call>stop\n</tool_call> after";
    let (normal, calls) = Glm4MoeParser::glm45().parse_complete(text).unwrap();
    assert_eq!(normal, "Some text. ");
    assert_eq!(
        calls,
        vec![call("get_weather", r#"{"city":"Paris","days":3}"#), call("stop", "{}")]
    );
}

#[test]
fn calls_of_the_later_format_are_read_back() {
    let text = "<tool_call>get_weather<arg_key>city</arg_key><arg_value>Paris</arg_value>\
        </tool_call><tool_call>stop</tool_call>";
    let (normal, calls) = Glm4MoeParser::glm47().parse_complete(text).unwrap();
    assert_eq!(normal, "");
    assert_eq!(calls, vec![call("get_weather", r#"{"city":"Paris"}"#), call("stop", "{}")]);
}

#[test]
fn names_are_split_by_format() {
    let glm45 = Glm4MoeParser::glm45();
    let glm47 = Glm4MoeParser::glm47();
    let block = "<tool_call> f \n  <arg_key>a</arg_key></tool_call>";
    assert_eq!(
        glm45.split_tool_call_block(block),
        Some(("f".to_string(), "<arg_key>a</arg_key>"))
    );
    assert_eq!(
        glm47.split_tool_call_block(block),
        Some(("f".to_string(), "<arg_key>a</arg_key>"))
    );
    assert_eq!(glm45.split_tool_call_block("<tool_call>f</tool_call>"), None);
    assert_eq!(
        glm47.split_tool_call_block("<tool_call>f</tool_call>"),
        Some(("f".to_string(), ""))
    );
    assert_eq!(glm47.split_tool_call_block("<tool_call> \n </tool_call>"), None);
    assert_eq!(glm47.split_tool_call_block("<tool_call><arg_key>a</tool_call>"), None);
    assert_eq!(glm45.split_tool_call_block("f\n</tool_call>"), None);
    assert_eq!(glm45.split_tool_call_block("<tool_call>f\n"), None);
}

#[test]
fn argument_pairs_keep_literal_close_tags() {
    let pairs = parse_arg_key_value_pairs(
        "<arg_key>a</arg_key><arg_value>x </arg_value> y </tool_call></arg_value>\
        <arg_key> b </arg_key>\n<arg_value> 1 </arg_value>",
    );
    assert_eq!(
        pairs,
        vec![
            ("a".to_string(), "x </arg_value> y </tool_call>".to_string()),
            ("b".to_string(), "1".to_string()),
        ]
    );
}

#[test]
fn argument_pairs_end_with_an_incomplete_one() {
    let first = "<arg_key>a</arg_key><arg_value>1</arg_value>";
    let expected = vec![("a".to_string(), "1".to_string())];
    for rest in [
        "<arg_key>b",
        "<arg_key>b</arg_key>",
        "<arg_key>b</arg_key><arg_value>2",
    ] {
        assert_eq!(parse_arg_key_value_pairs(&format!("{first}{rest}")), expected);
    }
    assert_eq!(parse_arg_key_value_pairs(""), vec![]);
}

#[test]
fn literal_close_tag_of_a_call_is_part_of_the_value() {
    let text = "<tool_call>f\n<arg_key>a</arg_key>\n<arg_value>x</tool_call>y</arg_value>\n\
        </tool_call>";
    let (_, calls) = Glm4MoeParser::glm45().parse_complete(text).unwrap();
    assert_eq!(calls, vec![call("f", r#"{"a":"x</tool_call>y"}"#)]);
}

#[test]
fn spans_are_byte_offsets() {
    let text = "é<tool_call>a</tool_call>ü<tool_call>b</tool_call>x</tool_call>";
    assert_eq!(first_tool_call_spans(text), vec![(2, 26), (28, 65)]);
    assert_eq!(
        iter_tool_call_blocks(text),
        vec!["<tool_call>a</tool_call>", "<tool_call>b</tool_call>x</tool_call>"]
    );
    assert_eq!(first_tool_call_spans("<tool_call>a<tool_call>b</tool_call>"), vec![]);
}

#[test]
fn values_without_a_schema_are_told_by_what_they_look_like() {
    let value = |raw: &str| {
        let text = format!(
            "<tool_call>f<arg_key>a</arg_key><arg_value>{raw}</arg_value></tool_call>"
        );
        let (_, calls) = Glm4MoeParser::glm47().parse_complete(&text).unwrap();
        calls[0].function.arguments.clone()
    };
    assert_eq!(value("True"), r#"{"a":true}"#);
    assert_eq!(value("False"), r#"{"a":false}"#);
    assert_eq!(value("None"), r#"{"a":null}"#);
    assert_eq!(value("+5"), r#"{"a":5}"#);
    assert_eq!(value("-7"), r#"{"a":-7}"#);
    assert_eq!(value("2.5"), r#"{"a":2.5}"#);
    assert_eq!(value(".5"), r#"{"a":0.5}"#);
    assert_eq!(value("inf"), r#"{"a":"inf"}"#);
    assert_eq!(value("[1, {\"b\": 2}]"), r#"{"a":[1,{"b":2}]}"#);
    assert_eq!(value("plain text"), r#"{"a":"plain text"}"#);
    assert_eq!(value("\"quoted\""), r#"{"a":"quoted"}"#);
}

#[test]
fn later_argument_of_a_name_stays() {
    let text = "<tool_call>f<arg_key>a</arg_key><arg_value>1</arg_value>\
        <arg_key>a</arg_key><arg_value>2</arg_value></tool_call>";
    let (_, calls) = Glm4MoeParser::glm47().parse_complete(text).unwrap();
    assert_eq!(calls, vec![call("f", r#"{"a":2}"#)]);
}

#[test]
fn calls_are_sent_one_by_one_with_their_indexes() {
    let tools = vec![tool("f", "{}"), tool("g", "{}")];
    let mut parser = Glm4MoeParser::glm45();
    let first = parser.parse_incremental("Hi <tool_call>f\n<arg_key>a</arg", &tools).unwrap();
    assert_eq!(first.normal_text, "Hi ");
    assert!(first.calls.is_empty());
    let second = parser
        .parse_incremental(
            "_key>\n<arg_value>1</arg_value>\n</tool_call><tool_call>g\n</tool_call>",
            &tools,
        )
        .unwrap();
    assert_eq!(second.normal_text, "");
    assert_eq!(second.calls.len(), 1);
    assert_eq!(second.calls[0].tool_index, 0);
    assert_eq!(second.calls[0].name.as_deref(), Some("f"));
    assert_eq!(second.calls[0].parameters, r#"{"a":1}"#);
    let third = parser.parse_incremental("", &tools).unwrap();
    assert_eq!(third.calls[0].tool_index, 1);
    assert_eq!(third.calls[0].name.as_deref(), Some("g"));
    assert_eq!(third.calls[0].parameters, "{}");
    assert!(parser.get_unstreamed_tool_args().is_none());
    let last = parser.parse_incremental("the end", &tools).unwrap();
    assert_eq!(last.normal_text, "");
    parser.reset();
    let fresh = parser.parse_incremental("the end", &tools).unwrap();
    assert_eq!(fresh.normal_text, "the end");
}

#[test]
fn text_before_a_complete_block_is_trimmed() {
    let tools = vec![tool("f", "{}")];
    let mut parser = Glm4MoeParser::glm47();
    let result = parser.parse_incremental(" Hi <tool_call>f</tool_call>", &tools).unwrap();
    assert_eq!(result.normal_text, "Hi");
    assert_eq!(result.calls[0].name.as_deref(), Some("f"));
}

#[test]
fn call_of_an_unknown_tool_is_dropped_with_the_text() {
    let tools = vec![tool("f", "{}")];
    let mut parser = Glm4MoeParser::glm47();
    let result = parser
        .parse_incremental("Hi <tool_call>g</tool_call><tool_call>f</tool_call>", &tools)
        .unwrap();
    assert_eq!(result.normal_text, "");
    assert!(result.calls.is_empty());
    let next = parser.parse_incremental("<tool_call>f</tool_call>", &tools).unwrap();
    assert_eq!(next.calls[0].tool_index, 0);
}

#[test]
fn nameless_block_is_passed_over_in_a_stream() {
    let tools = vec![tool("f", "{}")];
    let mut parser = Glm4MoeParser::default();
    let result = parser
        .parse_incremental("a <tool_call>\n</tool_call><tool_call>f\n</tool_call>", &tools)
        .unwrap();
    assert_eq!(result.normal_text, "a");
    assert!(result.calls.is_empty());
    let next = parser.parse_incremental("", &tools).unwrap();
    assert_eq!(next.calls[0].name.as_deref(), Some("f"));
    assert_eq!(next.calls[0].tool_index, 0);
}

#[test]
fn arguments_that_were_read_are_kept_for_the_end_of_the_stream() {
    let tools = vec![tool("f", "{}")];
    let mut parser = Glm4MoeParser::glm47();
    parser.parse_incremental("<tool_call></tool_call>", &tools).unwrap();
    let sent = parser.send_call(call("f", ""), Ok(json(r#"{"a": 1}"#)), "text".to_string());
    assert_eq!(sent.normal_text, "text");
    assert_eq!(sent.calls[0].tool_index, 0);
    assert_eq!(sent.calls[0].parameters, "");
    let rest = parser.get_unstreamed_tool_args().unwrap();
    assert_eq!(rest.len(), 1);
    assert_eq!(rest[0].tool_index, 0);
    assert_eq!(rest[0].name, None);
    assert_eq!(rest[0].parameters, r#"{"a":1}"#);
}
