use model_gateway::parsers::helpers::{
    coerce_by_schema_type, coerce_from, declared_type, ends_with_partial_token, has_tool,
    infer_value, infer_value_from, param_types_for_function, parse_value, plain_value_from,
};
use model_gateway::parsers::spans::{find_blocks, find_spans};
use model_gateway::types::{Function, StreamingParseResult, Tool};
use serde_json::Value;

fn json(text: &str) -> Value {
    serde_json::from_str(text).unwrap()
}

fn tool(name: &str, parameters: &str) -> Tool {
    Tool { function: Function { name: name.to_string(), parameters: json(parameters) } }
}

#[test]
fn plain_values_are_literals_numbers_or_text() {
    assert_eq!(parse_value("true"), json("true"));
    assert_eq!(parse_value("True"), json("true"));
    assert_eq!(parse_value("false"), json("false"));
    assert_eq!(parse_value("False"), json("false"));
    assert_eq!(parse_value("null"), Value::Null);
    assert_eq!(parse_value("None"), Value::Null);
    assert_eq!(parse_value("-3"), json("-3"));
    assert_eq!(parse_value("2.5e3"), json("2500.0"));
    assert_eq!(parse_value("9223372036854775808"), json("9223372036854775808.0"));
    assert_eq!(parse_value("NaN"), json("\"NaN\""));
    assert_eq!(parse_value("[1]"), json("\"[1]\""));
    assert_eq!(parse_value(""), json("\"\""));
}

#[test]
fn plain_value_takes_the_number_that_it_is_given() {
    assert_eq!(plain_value_from("x", Some(json("1.5"))), json("1.5"));
    assert_eq!(plain_value_from("x", None), json("\"x\""));
    assert_eq!(plain_value_from("4", Some(json("1.5"))), json("4"));
}

#[test]
fn inferred_values_are_json_first() {
    assert_eq!(infer_value("[1]"), json("[1]"));
    assert_eq!(infer_value(" 1 "), json("1"));
    assert_eq!(infer_value("True"), json("true"));
    assert_eq!(infer_value("text"), json("\"text\""));
    assert_eq!(infer_value_from("text", Ok(json("7")), None), json("7"));
    assert_eq!(infer_value_from("8", Err("why".to_string()), None), json("8"));
}

#[test]
fn coercion_needs_a_value_of_the_declared_type() {
    assert_eq!(coerce_by_schema_type("4", Some("string")), Some(json("\"4\"")));
    assert_eq!(coerce_by_schema_type("4", Some("integer")), Some(json("4")));
    assert_eq!(coerce_by_schema_type("4.5", Some("integer")), None);
    assert_eq!(coerce_by_schema_type("4.5", Some("number")), Some(json("4.5")));
    assert_eq!(coerce_by_schema_type("4", Some("number")), Some(json("4")));
    assert_eq!(coerce_by_schema_type("true", Some("boolean")), Some(json("true")));
    assert_eq!(coerce_by_schema_type("null", Some("null")), Some(Value::Null));
    assert_eq!(coerce_by_schema_type("[1]", Some("array")), Some(json("[1]")));
    assert_eq!(coerce_by_schema_type("{}", Some("object")), Some(json("{}")));
    assert_eq!(coerce_by_schema_type("[1]", Some("object")), None);
    assert_eq!(coerce_by_schema_type("4", Some("unheard-of")), None);
    assert_eq!(coerce_by_schema_type("4", None), None);
    assert_eq!(coerce_from("x", Some("integer"), Ok(json("4"))), Some(json("4")));
    assert_eq!(coerce_from("x", Some("integer"), Err("why".to_string())), None);
    assert_eq!(coerce_from("x", Some("string"), Err("why".to_string())), Some(json("\"x\"")));
}

#[test]
fn types_are_declared_by_the_first_tool_of_the_name() {
    let tools = vec![
        tool("g", "{}"),
        tool("f", r#"{"properties": {"a": {"type": "string"}, "b": {"type": ["x"]}, "c": 1}}"#),
        tool("f", r#"{"properties": {"a": {"type": "integer"}}}"#),
    ];
    let properties = param_types_for_function(&tools, "f");
    assert_eq!(declared_type(properties, "a"), Some("string"));
    assert_eq!(declared_type(properties, "b"), None);
    assert_eq!(declared_type(properties, "c"), None);
    assert_eq!(declared_type(properties, "d"), None);
    assert_eq!(param_types_for_function(&tools, "g"), None);
    assert_eq!(param_types_for_function(&tools, "h"), None);
    assert_eq!(declared_type(None, "a"), None);
    assert!(has_tool(&tools, "g"));
    assert!(!has_tool(&tools, "h"));
}

#[test]
fn partial_tokens_are_found_at_the_end() {
    assert_eq!(ends_with_partial_token("text <to", "<tool>"), Some(3));
    assert_eq!(ends_with_partial_token("text <", "<tool>"), Some(1));
    assert_eq!(ends_with_partial_token("text <tool>", "<tool>"), None);
    assert_eq!(ends_with_partial_token("text", "<tool>"), None);
    assert_eq!(ends_with_partial_token("", "<tool>"), None);
    assert_eq!(ends_with_partial_token("aa", "aab"), Some(1));
    assert_eq!(ends_with_partial_token("x｜▁", "｜▁｜"), Some(6));
}

#[test]
fn blocks_reach_to_the_last_closing_token_before_the_next() {
    let text = "[a]b][c]d";
    assert_eq!(find_spans(text, "[", "]"), vec![(0, 5), (5, 8)]);
    assert_eq!(find_blocks(text, "[", "]"), vec![(0, "[a]b]"), (5, "[c]")]);
    assert_eq!(find_spans("[a[b]", "[", "]"), vec![]);
    assert_eq!(find_spans("none", "[", "]"), vec![]);
}

#[test]
fn default_result_is_empty() {
    let result = StreamingParseResult::default();
    assert_eq!(result.normal_text, "");
    assert!(result.calls.is_empty());
}
