use antml_fallback::markers::CLOSE_FUNCTION_CALLS;
use antml_fallback::markers::CLOSE_INVOKE;
use antml_fallback::markers::CLOSE_PARAM;
use antml_fallback::markers::OPEN_FUNCTION_CALLS;
use antml_fallback::markers::OPEN_INVOKE_PREFIX;
use antml_fallback::markers::OPEN_PARAM_PREFIX;
use antml_fallback::rewrite_anthropic_message;
use antml_fallback::rewrite_anthropic_value;
use antml_fallback::Json;

fn param(name: &str, value: &str) -> String {
    format!("{OPEN_PARAM_PREFIX} name=\"{name}\">{value}{CLOSE_PARAM}")
}

fn invoke(name: &str, params: &[(&str, &str)]) -> String {
    let body: String = params.iter().map(|(n, v)| param(n, v)).collect();
    format!("{OPEN_INVOKE_PREFIX} name=\"{name}\">{body}{CLOSE_INVOKE}")
}

fn wrap(prose: &str, invokes: &[String]) -> String {
    format!("{prose}{OPEN_FUNCTION_CALLS}{}{CLOSE_FUNCTION_CALLS}", invokes.concat())
}

fn bare_param(name: &str, value: &str) -> String {
    format!("<parameter name=\"{name}\">{value}</parameter>")
}

fn bare_invoke(name: &str, params: &[(&str, &str)]) -> String {
    let body: String = params.iter().map(|(n, v)| bare_param(n, v)).collect();
    format!("<invoke name=\"{name}\">{body}</invoke>")
}

fn text(content: &str) -> Json {
    Json::Text(content.to_string())
}

fn object(fields: &[(&str, Json)]) -> Json {
    Json::Object(fields.iter().map(|(k, v)| (k.to_string(), v.clone())).collect())
}

fn text_block(content: &str) -> Json {
    object(&[("type", text("text")), ("text", text(content))])
}

fn tool_block(id: &str, name: &str, input: Json) -> Json {
    object(&[("type", text("tool_use")), ("id", text(id)), ("name", text(name)), ("input", input)])
}

#[test]
fn bare_rewrite_message_replaces_leaked_text() {
    let leaked = format!("先看目录\n{}", bare_invoke("Bash", &[("command", "ls")]));
    let mut msg = object(&[
        ("content", Json::Array(vec![text_block(&leaked)])),
        ("stop_reason", text("end_turn")),
    ]);
    assert!(rewrite_anthropic_message(&mut msg));
    assert_eq!(msg.get("stop_reason"), Some(&text("tool_use")));
    let content = msg.get("content").unwrap().as_array().unwrap();
    assert_eq!(content[0], object(&[("type", text("text")), ("text", text("先看目录"))]));
    assert_eq!(content[1].get("type"), Some(&text("tool_use")));
    assert_eq!(content[1].get("name"), Some(&text("Bash")));
    assert_eq!(content[1].get("input").unwrap().get("command"), Some(&text("ls")));
}

#[test]
fn rewrite_message_replaces_leaked_text() {
    let leaked = wrap("先看目录\n", &[invoke("Bash", &[("command", "ls")])]);
    let mut msg = object(&[
        ("type", text("message")),
        ("role", text("assistant")),
        ("content", Json::Array(vec![text_block(&leaked)])),
        ("stop_reason", text("end_turn")),
    ]);
    assert!(rewrite_anthropic_message(&mut msg));
    assert_eq!(msg.get("stop_reason"), Some(&text("tool_use")));
    let content = msg.get("content").unwrap().as_array().unwrap();
    assert_eq!(content[0], object(&[("type", text("text")), ("text", text("先看目录"))]));
    assert_eq!(content[1].get("type"), Some(&text("tool_use")));
    assert_eq!(content[1].get("name"), Some(&text("Bash")));
    assert_eq!(content[1].get("input").unwrap().get("command"), Some(&text("ls")));
}

#[test]
fn rewrite_noop_without_wrapper() {
    let mut msg = object(&[
        ("content", Json::Array(vec![text_block("普通回答，没有工具调用")])),
        ("stop_reason", text("end_turn")),
    ]);
    assert!(!rewrite_anthropic_message(&mut msg));
    let content = msg.get("content").unwrap().as_array().unwrap();
    assert_eq!(content[0].get("text"), Some(&text("普通回答，没有工具调用")));
}

#[test]
fn rewrite_noop_when_native_tool_use_present() {
    let mut msg = object(&[
        ("content", Json::Array(vec![tool_block("x", "Bash", object(&[]))])),
        ("stop_reason", text("tool_use")),
    ]);
    assert!(!rewrite_anthropic_message(&mut msg));
}

#[test]
fn native_tool_use_block_keeps_a_leaking_message() {
    let leaked = bare_invoke("Bash", &[]);
    let mut msg = object(&[
        (
            "content",
            Json::Array(vec![text_block(&leaked), tool_block("x", "Bash", object(&[]))]),
        ),
        ("stop_reason", text("end_turn")),
    ]);
    let before = msg.clone();
    assert!(!rewrite_anthropic_message(&mut msg));
    assert_eq!(msg, before);
}

#[test]
fn other_stop_reason_keeps_a_leaking_message() {
    let leaked = bare_invoke("Bash", &[]);
    let mut msg = object(&[
        ("content", Json::Array(vec![text_block(&leaked)])),
        ("stop_reason", text("max_tokens")),
    ]);
    let before = msg.clone();
    assert!(!rewrite_anthropic_message(&mut msg));
    assert_eq!(msg, before);
}

#[test]
fn absent_or_null_stop_reason_counts_as_text() {
    let leaked = bare_invoke("Bash", &[]);
    let content = Json::Array(vec![text_block(&leaked)]);
    let mut absent = object(&[("content", content.clone())]);
    assert!(rewrite_anthropic_message(&mut absent));
    assert_eq!(absent.get("stop_reason"), Some(&text("tool_use")));
    let mut null = object(&[("stop_reason", Json::Null), ("content", content)]);
    assert!(rewrite_anthropic_message(&mut null));
    assert_eq!(null, absent);
}

#[test]
fn whole_message_after_rewriting() {
    let thinking = object(&[("type", text("thinking")), ("thinking", text("hm"))]);
    let leaked = format!(
        " look {}{}",
        bare_invoke("Read", &[("file_path", "/a")]),
        invoke("Bash", &[("args", "[true]")])
    );
    let (first, second) = leaked.split_at(12);
    let mut msg = object(&[
        ("id", text("m")),
        ("stop_reason", text("end_turn")),
        (
            "content",
            Json::Array(vec![
                text_block(first),
                thinking.clone(),
                Json::Null,
                object(&[("type", text("text"))]),
                text_block(second),
            ]),
        ),
    ]);
    let expected = object(&[
        ("id", text("m")),
        ("stop_reason", text("tool_use")),
        (
            "content",
            Json::Array(vec![
                thinking,
                Json::Null,
                text_block("look"),
                tool_block("toolu_antml_0", "Read", object(&[("file_path", text("/a"))])),
                tool_block(
                    "toolu_antml_1",
                    "Bash",
                    object(&[("args", Json::Array(vec![Json::Bool(true)]))]),
                ),
            ]),
        ),
    ]);
    assert!(rewrite_anthropic_message(&mut msg));
    assert_eq!(msg, expected);
    assert!(!rewrite_anthropic_message(&mut msg));
    assert_eq!(msg, expected);
}

#[test]
fn no_text_block_for_empty_prose() {
    let mut msg = object(&[("content", Json::Array(vec![text_block(&bare_invoke("T", &[]))]))]);
    assert!(rewrite_anthropic_message(&mut msg));
    let content = msg.get("content").unwrap().as_array().unwrap();
    assert_eq!(content, &vec![tool_block("toolu_antml_0", "T", object(&[]))]);
}

#[test]
fn values_that_are_no_messages_stay() {
    let leaked = bare_invoke("Bash", &[]);
    let others = [
        Json::Null,
        Json::Array(vec![text_block(&leaked)]),
        text(&leaked),
        object(&[]),
        object(&[("content", text(&leaked))]),
        object(&[("content", Json::Array(vec![]))]),
        object(&[("content", Json::Array(vec![object(&[("text", text(&leaked))])]))]),
    ];
    for other in others {
        let mut msg = other.clone();
        assert!(!rewrite_anthropic_message(&mut msg));
        assert_eq!(msg, other);
    }
}

#[test]
fn serde_values_are_rewritten_alike() {
    let leaked = format!("p {}", bare_invoke("Bash", &[("n", "{\"k\": 1.5}")]));
    let mut msg = object(&[
        ("content", Json::Array(vec![text_block(&leaked)])),
        ("stop_reason", text("end_turn")),
    ]);
    let mut value = msg.to_value();
    assert!(rewrite_anthropic_message(&mut msg));
    assert!(rewrite_anthropic_value(&mut value));
    assert_eq!(value, msg.to_value());
    assert_eq!(value["content"][0]["text"], "p");
    assert_eq!(value["content"][1]["id"], "toolu_antml_0");
    assert_eq!(value["content"][1]["input"]["n"]["k"], 1.5);
    assert_eq!(value["stop_reason"], "tool_use");
    let before = value.clone();
    assert!(!rewrite_anthropic_value(&mut value));
    assert_eq!(value, before);
}
