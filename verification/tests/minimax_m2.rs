use model_gateway::parsers::minimax_m2::markup::{
    find_call_end, find_invoke_open_offset, find_last_invoke_end, find_named_open,
    find_parameter_open_offset, find_structural_close, find_structural_invoke_end,
    iter_invoke_blocks, iter_tool_call_blocks, parameters_fully_closed, parse_parameter_pairs,
    try_parse_invoke_open,
};
use model_gateway::parsers::minimax_m2::MinimaxM2Parser;
use model_gateway::types::{Function, FunctionCall, Tool, ToolCall, ToolCallItem};
use serde_json::Value;

fn json(text: &str) -> Value {
    serde_json::from_str(text).unwrap()
}

fn tool(name: &str, properties: &str) -> Tool {
    let parameters = format!(r#"{{"type": "object", "properties": {properties}}}"#);
    Tool { function: Function { name: name.to_string(), parameters: json(&parameters) } }
}

fn call(name: &str, arguments: &str) -> ToolCall {
    ToolCall {
        function: FunctionCall { name: name.to_string(), arguments: arguments.to_string() },
    }
}

fn named(tool_index: usize, name: &str) -> ToolCallItem {
    ToolCallItem { tool_index, name: Some(name.to_string()), parameters: String::new() }
}

fn argument(tool_index: usize, parameters: &str) -> ToolCallItem {
    ToolCallItem { tool_index, name: None, parameters: parameters.to_string() }
}

#[test]
fn parameter_pairs_keep_literal_close_tag() {
    let pairs = parse_parameter_pairs(
        r#"<parameter name="content">use </parameter> carefully</parameter>"#,
    );
    assert_eq!(pairs.len(), 1);
    assert_eq!(pairs[0].0, "content");
    assert_eq!(pairs[0].1, "use </parameter> carefully");
}

#[test]
fn invoke_keeps_literal_invoke_close_in_value() {
    let blocks = iter_invoke_blocks(
        r#"<invoke name="write"><parameter name="content">text with </invoke> inside</parameter></invoke>"#,
    );
    assert_eq!(blocks.len(), 1);
    assert_eq!(blocks[0].0, "write");
    let pairs = parse_parameter_pairs(blocks[0].1);
    assert_eq!(pairs[0].1, "text with </invoke> inside");
}

#[test]
fn minimax_text_without_calls_is_given_back() {
    let parser = MinimaxM2Parser::new();
    assert!(!parser.has_tool_markers("plain"));
    assert_eq!(parser.parse_complete("plain").unwrap(), ("plain".to_string(), vec![]));
}

#[test]
fn text_with_a_broken_group_is_given_back() {
    let parser = MinimaxM2Parser::default();
    for text in [
        "a <minimax:tool_call><invoke name=\"f\"></invoke>",
        "a <minimax:tool_call></minimax:tool_call>",
        "a <minimax:tool_call><invoke name=\"f\"></minimax:tool_call>",
    ] {
        assert!(parser.has_tool_markers(text));
        assert_eq!(parser.parse_complete(text).unwrap(), (text.to_string(), vec![]));
    }
}

#[test]
fn groups_are_read_back_as_written() {
    let text = "Hello <minimax:tool_call>\n<invoke name=\"f\">\n\
        <parameter name=\"a\">1</parameter>\n<parameter name=\"b\">x &lt; y</parameter>\n\
        </invoke>\n<invoke name=\"g\"></invoke>\n</minimax:tool_call> and \
        <minimax:tool_call><invoke name=\"h\"><parameter name=\"c\">True</parameter></invoke>\
        </minimax:tool_call> bye";
    let (normal, calls) = MinimaxM2Parser::new().parse_complete(text).unwrap();
    assert_eq!(normal, "Hello ");
    assert_eq!(
        calls,
        vec![call("f", r#"{"a":1,"b":"x < y"}"#), call("g", "{}"), call("h", r#"{"c":true}"#)]
    );
}

#[test]
fn normal_text_ends_at_the_first_group_with_a_call() {
    let text = "a<minimax:tool_call></minimax:tool_call>b<minimax:tool_call>\
        <invoke name=\"f\"></invoke></minimax:tool_call>";
    let (normal, calls) = MinimaxM2Parser::new().parse_complete(text).unwrap();
    assert_eq!(normal, "a<minimax:tool_call></minimax:tool_call>b");
    assert_eq!(calls, vec![call("f", "{}")]);
}

#[test]
fn schema_types_decide_over_looks() {
    let tools = vec![tool(
        "f",
        r#"{"s": {"type": "string"}, "n": {"type": "number"}, "i": {"type": "integer"},
            "b": {"type": "boolean"}, "l": {"type": "array"}, "o": {"type": "object"},
            "z": {"type": "null"}}"#,
    )];
    let text = "<minimax:tool_call><invoke name=\"f\">\
        <parameter name=\"s\">42</parameter><parameter name=\"n\">1.5</parameter>\
        <parameter name=\"i\">7</parameter><parameter name=\"b\">true</parameter>\
        <parameter name=\"l\">[1]</parameter><parameter name=\"o\">{\"k\": 1}</parameter>\
        <parameter name=\"z\">null</parameter><parameter name=\"u\">[1]</parameter>\
        </invoke></minimax:tool_call>";
    let (_, calls) = MinimaxM2Parser::new().parse_complete_with_tools(text, &tools).unwrap();
    assert_eq!(
        calls,
        vec![call(
            "f",
            r#"{"b":true,"i":7,"l":[1],"n":1.5,"o":{"k":1},"s":"42","u":"[1]","z":null}"#
        )]
    );
}

#[test]
fn value_of_another_type_than_declared_is_told_by_its_looks() {
    let tools = vec![tool("f", r#"{"i": {"type": "integer"}, "x": {"type": "boolean"}}"#)];
    let text = "<minimax:tool_call><invoke name=\"f\"><parameter name=\"i\">1.5</parameter>\
        <parameter name=\"x\">maybe</parameter></invoke></minimax:tool_call>";
    let (_, calls) = MinimaxM2Parser::new().parse_complete_with_tools(text, &tools).unwrap();
    assert_eq!(calls, vec![call("f", r#"{"i":1.5,"x":"maybe"}"#)]);
}

#[test]
fn entities_are_decoded_once() {
    let decode = MinimaxM2Parser::decode_xml_entities;
    assert_eq!(decode("&lt;a&gt; &amp; &quot;b&quot; &apos;c&apos;"), "<a> & \"b\" 'c'");
    assert_eq!(decode("&amp;lt; &amp;quot;"), "&lt; &quot;");
    assert_eq!(decode("&lt;a&gt; &amp;lt; &amp;quot;"), "<a> &lt; &quot;");
    assert_eq!(decode("&amp;amp;amp;"), "&amp;amp;");
    assert_eq!(decode("a & b &nbsp; &"), "a & b &nbsp; &");
    assert_eq!(decode(""), "");
    assert_eq!(decode("plain"), "plain");
}

#[test]
fn opening_tags_are_found_by_their_names() {
    assert_eq!(
        find_named_open("x<invoke id=\"1\" name=\"f\">y", "invoke"),
        Some(("f".to_string(), 25))
    );
    assert_eq!(
        find_named_open("é<invoked name=\"f\"><invoke name=\"g\">", "invoke"),
        Some(("g".to_string(), 37))
    );
    assert_eq!(find_named_open("<invoke name=\"f\"", "invoke"), None);
    assert_eq!(find_named_open("<invoke>", "invoke"), None);
    assert_eq!(find_named_open("<invoke name=\"f>", "invoke"), None);
    assert_eq!(find_named_open("<invoke", "invoke"), None);
    assert_eq!(try_parse_invoke_open("<invoke name=\"f\">"), Some(("f".to_string(), 17)));
    assert_eq!(find_invoke_open_offset("é<invoke name=\"f\">"), Some(2));
    assert_eq!(find_invoke_open_offset("<invoke name="), None);
    assert_eq!(find_parameter_open_offset("ab<parameter name=\"k\">"), Some(2));
    assert_eq!(find_parameter_open_offset("ab"), None);
}

#[test]
fn open_parameters_are_recognised() {
    assert!(parameters_fully_closed(""));
    assert!(parameters_fully_closed("<parameter name=\"a\">1</parameter> x"));
    assert!(!parameters_fully_closed("<parameter name=\"a\">1"));
    assert!(!parameters_fully_closed(
        "<parameter name=\"a\">1</parameter><parameter name=\"b\">2"
    ));
    assert_eq!(find_structural_invoke_end("<parameter name=\"a\"></invoke>"), None);
    assert_eq!(
        find_structural_invoke_end("<parameter name=\"a\"></invoke></parameter></invoke>"),
        Some(41)
    );
}

#[test]
fn blocks_carry_their_offsets() {
    let text = "é<minimax:tool_call>a</minimax:tool_call>b</minimax:tool_call>";
    assert_eq!(iter_tool_call_blocks(text), vec![(2, &text[2..])]);
}

#[test]
fn parameters_stream_as_a_json_object() {
    let mut parser = MinimaxM2Parser::new();
    let start = parser.parse_incremental("Hi <minimax:tool", &[]).unwrap();
    assert_eq!(start.normal_text, "Hi ");
    let begun = parser.parse_incremental("_call><invoke name=\"f\">", &[]).unwrap();
    assert_eq!(begun.normal_text, "");
    assert_eq!(begun.calls, vec![named(0, "f")]);
    let first = parser.parse_incremental("<parameter name=\"a\">1</parameter>", &[]).unwrap();
    assert_eq!(first.calls, vec![argument(0, "{\"a\": 1")]);
    let second = parser
        .parse_incremental("<parameter name=\"b\">[1,2]</parameter>", &[])
        .unwrap();
    assert_eq!(second.calls, vec![argument(0, ", \"b\": [1,2]")]);
    let closed = parser.parse_incremental("</invoke>", &[]).unwrap();
    assert_eq!(closed.calls, vec![argument(0, "}")]);
    let next = parser
        .parse_incremental("<invoke name=\"g\"></invoke></minimax:tool_call>end", &[])
        .unwrap();
    assert_eq!(next.calls, vec![named(1, "g")]);
    assert_eq!(next.normal_text, "end");
}

#[test]
fn streamed_values_follow_the_schema() {
    let tools = vec![tool("f", r#"{"limit": {"type": "string"}, "count": {"type": "integer"}}"#)];
    let mut parser = MinimaxM2Parser::new();
    let result = parser
        .parse_incremental(
            "<minimax:tool_call><invoke name=\"f\"><parameter name=\"limit\">4</parameter>\
             <parameter name=\"count\">5</parameter></invoke>",
            &tools,
        )
        .unwrap();
    assert_eq!(
        result.calls,
        vec![named(0, "f"), argument(0, "{\"limit\": \"4\", \"count\": 5"), argument(0, "}")]
    );
}

#[test]
fn streamed_values_that_look_like_json_are_read_as_json() {
    let mut parser = MinimaxM2Parser::new();
    let result = parser
        .parse_incremental(
            "<minimax:tool_call><invoke name=\"f\"><parameter name=\"a\">{\"k\": 1}</parameter>\
             <parameter name=\"b\">[broken</parameter>",
            &[],
        )
        .unwrap();
    assert_eq!(
        result.calls,
        vec![named(0, "f"), argument(0, "{\"a\": {\"k\":1}, \"b\": \"[broken\"")]
    );
}

#[test]
fn literal_close_tags_survive_in_a_stream() {
    let mut parser = MinimaxM2Parser::new();
    let result = parser
        .parse_incremental(
            "<minimax:tool_call><invoke name=\"f\"><parameter name=\"a\">x </invoke> y",
            &[],
        )
        .unwrap();
    assert_eq!(result.calls, vec![named(0, "f")]);
    let rest = parser.parse_incremental("</parameter></invoke>", &[]).unwrap();
    assert_eq!(rest.calls, vec![argument(0, "{\"a\": \"x </invoke> y\""), argument(0, "}")]);
}

#[test]
fn parameter_that_comes_again_is_not_sent_again() {
    let mut parser = MinimaxM2Parser::new();
    parser
        .parse_incremental(
            "<minimax:tool_call><invoke name=\"f\"><parameter name=\"a\">1</parameter>",
            &[],
        )
        .unwrap();
    let same = parser.parse_incremental(" ", &[]).unwrap();
    assert!(same.calls.is_empty());
    let changed = parser.parse_incremental("<parameter name=\"a\">2</parameter>", &[]).unwrap();
    assert!(changed.calls.is_empty());
    let added = parser.parse_incremental("<parameter name=\"b\">3</parameter>", &[]).unwrap();
    assert_eq!(added.calls, vec![argument(0, ", \"b\": 3")]);
}

#[test]
fn partial_tag_is_held_back() {
    let mut parser = MinimaxM2Parser::new();
    let result = parser.parse_incremental("a < b <mini", &[]).unwrap();
    assert_eq!(result.normal_text, "a < b ");
    let rest = parser.parse_incremental("mum", &[]).unwrap();
    assert_eq!(rest.normal_text, "<minimum");
    assert!(rest.calls.is_empty());
}

#[test]
fn unsent_arguments_are_those_that_the_sent_ones_begin() {
    let mut parser = MinimaxM2Parser::new();
    assert!(parser.get_unstreamed_tool_args().is_none());
    parser
        .parse_incremental(
            "<minimax:tool_call><invoke name=\"f\"><parameter name=\"a\">1</parameter>",
            &[],
        )
        .unwrap();
    assert!(parser.get_unstreamed_tool_args().is_none());
}

#[test]
fn minimax_reset_forgets_the_stream() {
    let mut parser = MinimaxM2Parser::new();
    let chunk = "<minimax:tool_call><invoke name=\"f\"><parameter name=\"a\">1</parameter>";
    parser.parse_incremental(chunk, &[]).unwrap();
    parser.reset();
    assert_eq!(parser.parse_incremental("text", &[]).unwrap().normal_text, "text");
    let again = parser.parse_incremental(chunk, &[]).unwrap();
    assert_eq!(again.calls, vec![named(0, "f"), argument(0, "{\"a\": 1")]);
}

#[test]
fn escaped_text_is_read_back() {
    let value = "if (a < b && c > \"d\") 'e' &lt; &amp;";
    let escaped = value
        .replace('&', "&amp;")
        .replace('<', "&lt;")
        .replace('>', "&gt;")
        .replace('"', "&quot;")
        .replace('\'', "&apos;");
    assert_eq!(MinimaxM2Parser::decode_xml_entities(&escaped), value);
}

#[test]
fn literal_close_tags_of_both_kinds_are_kept() {
    let text = "<invoke name=\"w\"><parameter name=\"c\">a</parameter></invoke>b</parameter></invoke>";
    let blocks = iter_invoke_blocks(text);
    assert_eq!(
        blocks,
        vec![("w".to_string(), "<parameter name=\"c\">a</parameter></invoke>b</parameter>")]
    );
    let pairs = parse_parameter_pairs(blocks[0].1);
    assert_eq!(pairs, vec![("c".to_string(), "a</parameter></invoke>b".to_string())]);

    let group = format!("<minimax:tool_call>{text}</minimax:tool_call>");
    let (_, calls) = MinimaxM2Parser::new().parse_complete(&group).unwrap();
    assert_eq!(calls, vec![call("w", r#"{"c":"a</parameter></invoke>b"}"#)]);

    let result = MinimaxM2Parser::new().parse_incremental(&group, &[]).unwrap();
    assert_eq!(
        result.calls,
        vec![
            named(0, "w"),
            argument(0, "{\"c\": \"a</parameter></invoke>b\""),
            argument(0, "}"),
        ]
    );
}

#[test]
fn literal_close_tags_do_not_reach_into_the_next_call() {
    let text = "<invoke name=\"f\"><parameter name=\"a\">x</parameter></invoke>y</parameter></invoke>\
        <invoke name=\"g\"><parameter name=\"b\">z</parameter></invoke>";
    let blocks = iter_invoke_blocks(text);
    assert_eq!(
        blocks,
        vec![
            ("f".to_string(), "<parameter name=\"a\">x</parameter></invoke>y</parameter>"),
            ("g".to_string(), "<parameter name=\"b\">z</parameter>"),
        ]
    );
}

#[test]
fn call_with_an_open_parameter_is_no_call() {
    assert!(iter_invoke_blocks("<invoke name=\"f\"><parameter name=\"a\">1</invoke>").is_empty());
    assert_eq!(find_last_invoke_end("<parameter name=\"a\">1</invoke>"), None);
}

#[test]
fn last_close_tag_of_a_call_is_found() {
    let first = "<parameter name=\"a\">é</parameter></invoke>b</parameter>";
    let text = format!("{first}</invoke>");
    assert_eq!(find_last_invoke_end(&text), Some(first.len()));
    assert_eq!(find_last_invoke_end("x</invoke>y"), Some(1));
    assert_eq!(find_last_invoke_end("x"), None);
    assert_eq!(find_call_end(&text), Some(first.len()));
    let two = format!("{text}<invoke name=\"g\"></invoke>");
    assert_eq!(find_call_end(&two), Some(first.len()));
    let group = format!("{text}</minimax:tool_call></invoke>");
    assert_eq!(find_call_end(&group), Some(first.len()));
    assert_eq!(find_call_end("<parameter name=\"a\">1</invoke>"), None);
}

#[test]
fn empty_close_tag_is_found_at_the_start() {
    assert_eq!(find_structural_close("abc", "", |_| true), Some(0));
    assert_eq!(find_structural_close("", "", parameters_fully_closed), Some(0));
    assert_eq!(find_structural_close("ab;cd;", ";", |prefix| prefix.len() > 2), Some(5));
    assert_eq!(find_structural_close("ab;cd;", ";", |_| false), None);
}

#[test]
fn calls_in_one_chunk_have_their_own_parameters() {
    let result = MinimaxM2Parser::new()
        .parse_incremental(
            "<minimax:tool_call><invoke name=\"f\"><parameter name=\"a\">1</parameter></invoke>\
             <invoke name=\"g\"><parameter name=\"b\">2</parameter></invoke></minimax:tool_call>",
            &[],
        )
        .unwrap();
    assert_eq!(
        result.calls,
        vec![
            named(0, "f"),
            argument(0, "{\"a\": 1"),
            argument(0, "}"),
            named(1, "g"),
            argument(1, "{\"b\": 2"),
            argument(1, "}"),
        ]
    );
    assert_eq!(result.normal_text, "");
}

#[test]
fn streamed_object_is_closed_whatever_its_last_value_ends_with() {
    for (value, sent) in [
        ("{\"k\": 1}", "{\"a\": {\"k\":1}"),
        ("x}", "{\"a\": \"x}\""),
        ("}", "{\"a\": \"}\""),
        ("[{}]", "{\"a\": [{}]"),
    ] {
        let chunk = format!(
            "<minimax:tool_call><invoke name=\"f\"><parameter name=\"a\">{value}</parameter>\
             </invoke></minimax:tool_call>"
        );
        let result = MinimaxM2Parser::new().parse_incremental(&chunk, &[]).unwrap();
        assert_eq!(result.calls, vec![named(0, "f"), argument(0, sent), argument(0, "}")]);
        let object: String = result.calls.iter().map(|item| item.parameters.as_str()).collect();
        assert!(serde_json::from_str::<Value>(&object).is_ok());
    }
}

#[test]
fn calls_are_streamed_whole_however_they_are_cut() {
    let text = "<minimax:tool_call>\n<invoke name=\"f\">\n<parameter name=\"a\">1</parameter>\n\
        <parameter name=\"b\">x </invoke> é</parameter></invoke> <invoke name=\"g\"></invoke>\
        <invoke name=\"h\"><parameter name=\"c\">[1,2]</parameter></invoke></minimax:tool_call>";
    let expected = ["{\"a\": 1, \"b\": \"x </invoke> é\"}", "", "{\"c\": [1,2]}"];
    let cuts: Vec<usize> = (0..text.len() + 1).filter(|&i| text.is_char_boundary(i)).collect();
    for &first in &cuts {
        for &second in cuts.iter().filter(|&&i| i >= first) {
            let mut parser = MinimaxM2Parser::new();
            let mut items = vec![];
            let mut normal = String::new();
            for chunk in [&text[..first], &text[first..second], &text[second..]] {
                let result = parser.parse_incremental(chunk, &[]).unwrap();
                normal.push_str(&result.normal_text);
                items.extend(result.calls);
            }
            assert_eq!(normal, "");
            for (index, name) in ["f", "g", "h"].iter().enumerate() {
                let of_call: Vec<_> = items.iter().filter(|i| i.tool_index == index).collect();
                assert_eq!(of_call[0].name.as_deref(), Some(*name));
                assert!(of_call[1..].iter().all(|item| item.name.is_none()));
                let sent: String = of_call.iter().map(|item| item.parameters.as_str()).collect();
                assert_eq!(sent, expected[index]);
            }
            assert!(items.iter().all(|item| item.tool_index < 3));
            assert!(items.windows(2).all(|pair| pair[0].tool_index <= pair[1].tool_index));
        }
    }
}

#[test]
fn calls_are_streamed_whole_one_character_at_a_time() {
    let text = "Hi <minimax:tool_call><invoke name=\"f\"><parameter name=\"a\">{\"k\": 1}</parameter>\
        <parameter name=\"b\">y</parameter></invoke></minimax:tool_call> bye";
    let mut parser = MinimaxM2Parser::new();
    let mut sent = String::new();
    let mut normal = String::new();
    for c in text.chars() {
        let result = parser.parse_incremental(&c.to_string(), &[]).unwrap();
        normal.push_str(&result.normal_text);
        for item in result.calls {
            assert_eq!(item.tool_index, 0);
            sent.push_str(&item.parameters);
        }
    }
    assert_eq!(sent, "{\"a\": {\"k\":1}, \"b\": \"y\"}");
    assert_eq!(normal, "Hi  bye");
}

#[test]
fn group_in_one_piece_leaves_no_markup_in_the_text() {
    let result = MinimaxM2Parser::new()
        .parse_incremental(
            "<minimax:tool_call><invoke name=\"f\"></invoke></minimax:tool_call> bye <min",
            &[],
        )
        .unwrap();
    assert_eq!(result.normal_text, " bye ");
    assert_eq!(result.calls, vec![named(0, "f")]);
}

#[test]
fn groups_are_streamed_whole_however_they_are_cut() {
    let text = "a<minimax:tool_call><invoke name=\"f\"><parameter name=\"k\">1</parameter></invoke>\
        </minimax:tool_call>b<minimax:tool_call><invoke name=\"g\"><parameter name=\"l\">2\
        </parameter></invoke></minimax:tool_call>c";
    for cut in 0..text.len() + 1 {
        let mut parser = MinimaxM2Parser::new();
        let mut items = vec![];
        let mut normal = String::new();
        for chunk in [&text[..cut], &text[cut..]] {
            let result = parser.parse_incremental(chunk, &[]).unwrap();
            normal.push_str(&result.normal_text);
            items.extend(result.calls);
        }
        for (index, name, object) in [(0, "f", "{\"k\": 1}"), (1, "g", "{\"l\": 2}")] {
            let of_call: Vec<_> = items.iter().filter(|i| i.tool_index == index).collect();
            assert_eq!(of_call[0].name.as_deref(), Some(name));
            let sent: String = of_call.iter().map(|item| item.parameters.as_str()).collect();
            assert_eq!(sent, object);
        }
        assert!(["c", "ac", "bc", "abc"].contains(&normal.as_str()));
    }
}
