use antml_fallback::markers::CLOSE_FUNCTION_CALLS;
use antml_fallback::markers::CLOSE_INVOKE;
use antml_fallback::markers::CLOSE_PARAM;
use antml_fallback::markers::OPEN_FUNCTION_CALLS;
use antml_fallback::markers::OPEN_INVOKE_PREFIX;
use antml_fallback::markers::OPEN_PARAM_PREFIX;
use antml_fallback::parse::coerce_parsed;
use antml_fallback::parse::coerce_value;
use antml_fallback::parse::extract_attr;
use antml_fallback::parse::parse_invokes;
use antml_fallback::parse::parse_params;
use antml_fallback::parse_function_calls;
use antml_fallback::search::find_any;
use antml_fallback::trim::is_white_space;
use antml_fallback::trim::trim;
use antml_fallback::AntmlToolCall;
use antml_fallback::Json;
use antml_fallback::ParsedAntml;

fn param(name: &str, value: &str) -> String {
    format!("{OPEN_PARAM_PREFIX} name=\"{name}\">{value}{CLOSE_PARAM}")
}

fn invoke(name: &str, params: &[(&str, &str)]) -> String {
    let body: String = params.iter().map(|(n, v)| param(n, v)).collect();
    format!("{OPEN_INVOKE_PREFIX} name=\"{name}\">{body}{CLOSE_INVOKE}")
}

fn wrap(prose: &str, invokes: &[String]) -> String {
    format!("{prose}{OPEN_FUNCTION_CALLS}{}{CLOSE_FUNCTION_CALLS}", invokes.concat())
}

fn bare_param(name: &str, value: &str) -> String {
    format!("<parameter name=\"{name}\">{value}</parameter>")
}

fn bare_invoke(name: &str, params: &[(&str, &str)]) -> String {
    let body: String = params.iter().map(|(n, v)| bare_param(n, v)).collect();
    format!("<invoke name=\"{name}\">{body}</invoke>")
}

fn text(content: &str) -> Json {
    Json::Text(content.to_string())
}

fn number(n: u64) -> Json {
    Json::Number(serde_json::Number::from(n))
}

fn object(fields: &[(&str, Json)]) -> Json {
    Json::Object(fields.iter().map(|(k, v)| (k.to_string(), v.clone())).collect())
}

#[test]
fn parses_bare_invoke_without_prefix_or_wrapper() {
    let leaked = bare_invoke("Bash", &[("command", "ls -la"), ("description", "list")]);
    let parsed = parse_function_calls(&leaked).expect("a bare invoke parses");
    assert_eq!(parsed.calls.len(), 1);
    assert_eq!(parsed.calls[0].name, "Bash");
    assert_eq!(parsed.calls[0].input.get("command"), Some(&text("ls -la")));
    assert_eq!(parsed.calls[0].input.get("description"), Some(&text("list")));
}

#[test]
fn parses_bare_invoke_with_prose() {
    let leaked = format!("我来看目录。\n{}", bare_invoke("Bash", &[("command", "ls")]));
    let parsed = parse_function_calls(&leaked).unwrap();
    assert_eq!(parsed.prose, "我来看目录。");
    assert_eq!(parsed.calls[0].input.get("command"), Some(&text("ls")));
}

#[test]
fn parses_multiple_bare_invokes() {
    let leaked = format!(
        "{}{}",
        bare_invoke("Read", &[("file_path", "/tmp/a")]),
        bare_invoke("Bash", &[("command", "echo hi")])
    );
    let parsed = parse_function_calls(&leaked).unwrap();
    assert_eq!(parsed.calls.len(), 2);
    assert_eq!(parsed.calls[0].name, "Read");
    assert_eq!(parsed.calls[1].name, "Bash");
}

#[test]
fn bare_multiline_command_preserved() {
    let cmd = "cd /tmp\nsed -n '1,5p' file\nhead -3 other";
    let leaked = bare_invoke("Bash", &[("command", cmd)]);
    let parsed = parse_function_calls(&leaked).unwrap();
    assert_eq!(parsed.calls[0].input.get("command"), Some(&text(cmd)));
}

#[test]
fn bare_invoke_word_without_tag_does_not_trigger() {
    let spoken = "你可以用 invoke 来调用 Bash 工具运行 ls。";
    assert!(parse_function_calls(spoken).is_none());
}

#[test]
fn parses_single_bash_invoke() {
    let leaked = wrap("", &[invoke("Bash", &[("command", "ls -la"), ("description", "list")])]);
    let parsed = parse_function_calls(&leaked).expect("should parse");
    assert_eq!(parsed.prose, "");
    assert_eq!(parsed.calls.len(), 1);
    assert_eq!(parsed.calls[0].name, "Bash");
    assert_eq!(parsed.calls[0].input.get("command"), Some(&text("ls -la")));
    assert_eq!(parsed.calls[0].input.get("description"), Some(&text("list")));
}

#[test]
fn keeps_prose_before_wrapper() {
    let leaked = wrap("我来看一下目录。\n", &[invoke("Bash", &[("command", "ls")])]);
    let parsed = parse_function_calls(&leaked).unwrap();
    assert_eq!(parsed.prose, "我来看一下目录。");
    assert_eq!(parsed.calls[0].input.get("command"), Some(&text("ls")));
}

#[test]
fn parses_multiple_invokes() {
    let leaked = wrap(
        "",
        &[
            invoke("Read", &[("file_path", "/tmp/a")]),
            invoke("Bash", &[("command", "echo hi")]),
        ],
    );
    let parsed = parse_function_calls(&leaked).unwrap();
    assert_eq!(parsed.calls.len(), 2);
    assert_eq!(parsed.calls[0].name, "Read");
    assert_eq!(parsed.calls[1].name, "Bash");
}

#[test]
fn multiline_command_preserved() {
    let cmd = "cd /tmp\nsed -n '1,5p' file\nhead -3 other";
    let leaked = wrap("", &[invoke("Bash", &[("command", cmd)])]);
    let parsed = parse_function_calls(&leaked).unwrap();
    assert_eq!(parsed.calls[0].input.get("command"), Some(&text(cmd)));
}

#[test]
fn coerces_json_object_param() {
    let leaked = wrap("", &[invoke("Tool", &[("payload", "{\"a\": 1, \"b\": [2,3]}")])]);
    let parsed = parse_function_calls(&leaked).unwrap();
    let expected = object(&[("a", number(1)), ("b", Json::Array(vec![number(2), number(3)]))]);
    assert_eq!(parsed.calls[0].input.get("payload"), Some(&expected));
}

#[test]
fn scalar_number_like_stays_string() {
    let leaked = wrap("", &[invoke("Bash", &[("command", "123")])]);
    let parsed = parse_function_calls(&leaked).unwrap();
    assert_eq!(parsed.calls[0].input.get("command"), Some(&text("123")));
}

#[test]
fn no_wrapper_returns_none() {
    let spoken = "你可以用 invoke 调用 Bash 工具来运行 ls。";
    assert!(parse_function_calls(spoken).is_none());
}

#[test]
fn wrapper_without_valid_invoke_returns_none() {
    let empty = format!("{OPEN_FUNCTION_CALLS}{CLOSE_FUNCTION_CALLS}");
    assert!(parse_function_calls(&empty).is_none());
}

#[test]
fn tolerates_truncated_close_tags() {
    let cut = format!(
        "{OPEN_FUNCTION_CALLS}{OPEN_INVOKE_PREFIX} name=\"Bash\">{OPEN_PARAM_PREFIX} name=\"command\">ls -la"
    );
    let parsed = parse_function_calls(&cut).unwrap();
    assert_eq!(parsed.calls[0].name, "Bash");
    assert_eq!(parsed.calls[0].input.get("command"), Some(&text("ls -la")));
}

#[test]
fn missing_invoke_close_keeps_finished_parameters() {
    let cut = format!(
        "{}<invoke name=\"Bash\">{}\n",
        bare_invoke("Read", &[("file_path", "/a")]),
        bare_param("command", "ls")
    );
    let parsed = parse_function_calls(&cut).unwrap();
    assert_eq!(parsed.calls.len(), 2);
    assert_eq!(parsed.calls[1].input, object(&[("command", text("ls"))]));
}

#[test]
fn opening_and_closing_tags_may_differ_in_form() {
    let mixed = format!(
        "<invoke name=\"Bash\">{OPEN_PARAM_PREFIX} name=\"command\">ls</parameter>{CLOSE_INVOKE} tail"
    );
    let parsed = parse_function_calls(&mixed).unwrap();
    assert_eq!(parsed.prose, "");
    assert_eq!(parsed.calls.len(), 1);
    assert_eq!(parsed.calls[0].input, object(&[("command", text("ls"))]));
}

#[test]
fn bare_wrapper_and_line_breaks_between_tags() {
    let leaked = format!(
        " look \n<function_calls>\n{}\n{}\n</function_calls>\nbye",
        "<invoke name=\"A\">\n<parameter name=\"x\">1</parameter>\n</invoke>",
        invoke("B", &[])
    );
    let expected = ParsedAntml {
        prose: "look".to_string(),
        calls: vec![
            AntmlToolCall { name: "A".to_string(), input: object(&[("x", text("1"))]) },
            AntmlToolCall { name: "B".to_string(), input: object(&[]) },
        ],
    };
    assert_eq!(parse_function_calls(&leaked), Some(expected));
}

#[test]
fn unfinished_or_nameless_invoke_is_left_out() {
    assert!(parse_function_calls("<invoke name=\"Bash\"").is_none());
    assert!(parse_function_calls("<invoke>x</invoke>").is_none());
    let leaked = format!("<invoke id=\"1\">x</invoke>{}", bare_invoke("Bash", &[]));
    let parsed = parse_function_calls(&leaked).unwrap();
    assert_eq!(parsed.calls.len(), 1);
    assert_eq!(parsed.calls[0].name, "Bash");
}

#[test]
fn nameless_parameter_is_left_out_and_the_later_of_two_counts() {
    let leaked = "<invoke name=\"T\"><parameter>x</parameter>\
        <parameter name=\"a\">1</parameter><parameter name=\"a\">2</parameter></invoke>";
    let parsed = parse_function_calls(leaked).unwrap();
    assert_eq!(parsed.calls[0].input, object(&[("a", text("2"))]));
}

#[test]
fn values_are_trimmed_and_broken_json_stays_text() {
    assert_eq!(coerce_value(" \u{3000}ls\n"), text("ls"));
    assert_eq!(coerce_value(" [1] "), Json::Array(vec![number(1)]));
    assert_eq!(coerce_value("{broken"), text("{broken"));
    assert_eq!(coerce_value("true"), text("true"));
    assert_eq!(coerce_value(""), text(""));
    assert_eq!(coerce_value("{\"a\":1,\"a\":2}"), object(&[("a", number(2))]));
}

#[test]
fn parsed_json_counts_only_where_the_text_looks_like_it() {
    assert_eq!(coerce_parsed("{}", Some(object(&[]))), object(&[]));
    assert_eq!(coerce_parsed("{}", None), text("{}"));
    assert_eq!(coerce_parsed("7", Some(number(7))), text("7"));
    assert_eq!(coerce_parsed("[0", Some(Json::Null)), Json::Null);
}

#[test]
fn order_of_parameters_makes_no_difference_to_equality() {
    let one = bare_invoke("T", &[("a", "1"), ("b", "2")]);
    let other = bare_invoke("T", &[("b", "2"), ("a", "1")]);
    assert_eq!(parse_function_calls(&one), parse_function_calls(&other));
    let third = bare_invoke("T", &[("b", "2"), ("a", "3")]);
    assert_ne!(parse_function_calls(&one), parse_function_calls(&third));
    let fewer = bare_invoke("T", &[("b", "2")]);
    assert_ne!(parse_function_calls(&one), parse_function_calls(&fewer));
    let renamed = bare_invoke("U", &[("a", "1"), ("b", "2")]);
    assert_ne!(parse_function_calls(&one), parse_function_calls(&renamed));
}

#[test]
fn clone_of_a_result_is_equal() {
    let leaked = wrap("p", &[invoke("T", &[("a", "{\"x\":[null,true,-1]}")])]);
    let parsed = parse_function_calls(&leaked).unwrap();
    assert_eq!(parsed.clone(), parsed);
    assert_eq!(parsed.calls[0].clone(), parsed.calls[0]);
}

#[test]
fn text_without_angle_bracket_holds_no_call() {
    assert!(parse_function_calls("").is_none());
    assert!(parse_function_calls("invoke name=\"Bash\">x/invoke>").is_none());
    assert!(parse_function_calls("a < b and function_calls").is_none());
}

#[test]
fn recovered_prose_has_no_white_space_at_its_ends() {
    let leaked = format!("\u{a0}\t a  b \u{2028}{}", bare_invoke("T", &[]));
    assert_eq!(parse_function_calls(&leaked).unwrap().prose, "a  b");
}

#[test]
fn white_space_is_that_of_unicode() {
    let mut code: u32 = 0;
    while code <= 0x10ffff {
        if let Some(c) = char::from_u32(code) {
            assert_eq!(is_white_space(c), c.is_whitespace(), "{code:x}");
        }
        code += 1;
    }
}

#[test]
fn trim_removes_what_std_removes() {
    let cases = ["", " ", "\u{3000}\u{85}", "a", " a b ", "\n我 \u{2009}", "\u{200b}x\u{200b}", "x\u{1680}"];
    for case in cases {
        assert_eq!(trim(case), case.trim());
    }
}

#[test]
fn one_call_is_read_before_any_rest() {
    let inner = "x<invoke name=\"no\"><parameter name=\"a\">1</parameter></parameter>";
    let rests = ["", "junk", "<invoke", "<invoke name=\"B\">{\"x\"", "</invoke><invoke name=\"C\"></invoke>"];
    for open in ["<invoke", OPEN_INVOKE_PREFIX] {
        for close in ["</invoke>", CLOSE_INVOKE] {
            for rest in rests {
                let calls = parse_invokes(&format!("{open} name=\"A\">{inner}{close}{rest}"));
                let mut expected =
                    vec![AntmlToolCall { name: "A".to_string(), input: parse_params(inner) }];
                expected.extend(parse_invokes(rest));
                assert_eq!(calls, expected);
            }
        }
        let unclosed = parse_invokes(&format!("{open} name=\"A\">{inner}"));
        assert_eq!(unclosed.len(), 1);
        assert_eq!(unclosed[0].input, object(&[("a", text("1"))]));
    }
}

#[test]
fn one_parameter_is_added_to_those_of_the_rest() {
    let value = " [1] <parameter ";
    for open in ["<parameter", OPEN_PARAM_PREFIX] {
        for close in ["</parameter>", CLOSE_PARAM] {
            let inner = format!("{open} name=\"k\">{value}{close}");
            assert_eq!(parse_params(&inner), object(&[("k", coerce_value(value))]));
            let other = format!("{inner}{}", bare_param("b", "2"));
            let expected = object(&[("b", text("2")), ("k", coerce_value(value))]);
            assert_eq!(parse_params(&other), expected);
            let again = format!("{inner}{}", bare_param("k", "2"));
            assert_eq!(parse_params(&again), object(&[("k", text("2"))]));
        }
        let unclosed = format!("{open} name=\"k\">{value}");
        assert_eq!(parse_params(&unclosed), object(&[("k", coerce_value(value))]));
    }
}

#[test]
fn values_are_texts_objects_or_arrays() {
    let texts = ["null", "true", "1", "-2.5", "\"q\"", "{}", "[]", "{null", "[true", " {\"a\": null}", "\n[0]\t"];
    for raw in texts {
        match coerce_value(raw) {
            Json::Text(kept) => assert_eq!(kept, raw.trim()),
            Json::Object(_) => assert!(raw.trim().starts_with('{')),
            Json::Array(_) => assert!(raw.trim().starts_with('[')),
            other => panic!("unexpected {other:?}"),
        }
    }
}

#[test]
fn attribute_values_end_at_the_next_quote() {
    assert_eq!(extract_attr("<invoke name=\"a b\" name=\"c\"", "name"), Some("a b".to_string()));
    assert_eq!(extract_attr("<invoke name=\"\"", "name"), Some(String::new()));
    assert_eq!(extract_attr("<invoke name=\"a", "name"), None);
    assert_eq!(extract_attr("<invoke name='a'", "name"), None);
    assert_eq!(extract_attr("<invoke id=\"我\"", "id"), Some("我".to_string()));
}

#[test]
fn earliest_needle_is_found_and_the_first_of_a_tie_counts() {
    assert_eq!(find_any("我abc", &["c", "ab"]), Some((3, 2)));
    assert_eq!(find_any("abc", &["a", "ab"]), Some((0, 1)));
    assert_eq!(find_any("abc", &["ab", "a"]), Some((0, 2)));
    assert_eq!(find_any("abc", &["x"]), None);
    assert_eq!(find_any("abc", &[]), None);
}
