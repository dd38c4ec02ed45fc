use antml_fallback::events::block_delta_event;
use antml_fallback::events::block_start_event;
use antml_fallback::events::block_stop_event;
use antml_fallback::events::frame_event;
use antml_fallback::events::input_delta_json;
use antml_fallback::events::sse;
use antml_fallback::standalone_text_sse_events;
use antml_fallback::synthetic_tool_id;
use antml_fallback::tool_use_sse_events;
use antml_fallback::AntmlToolCall;
use antml_fallback::Json;

fn text(content: &str) -> Json {
    Json::Text(content.to_string())
}

fn number(n: u64) -> Json {
    Json::Number(serde_json::Number::from(n))
}

fn object(fields: &[(&str, Json)]) -> Json {
    Json::Object(fields.iter().map(|(k, v)| (k.to_string(), v.clone())).collect())
}

#[test]
fn synthetic_ids_unique_within_message() {
    assert_ne!(synthetic_tool_id(0), synthetic_tool_id(1));
}

#[test]
fn synthetic_ids_are_decimal() {
    assert_eq!(synthetic_tool_id(0), "toolu_antml_0");
    assert_eq!(synthetic_tool_id(9), "toolu_antml_9");
    assert_eq!(synthetic_tool_id(10), "toolu_antml_10");
    assert_eq!(synthetic_tool_id(1207), "toolu_antml_1207");
    assert_eq!(synthetic_tool_id(usize::MAX), format!("toolu_antml_{}", usize::MAX));
}

#[test]
fn tool_use_events_shape_and_index() {
    let calls = vec![
        AntmlToolCall { name: "Bash".into(), input: object(&[("command", text("ls"))]) },
        AntmlToolCall { name: "Read".into(), input: object(&[("file_path", text("/x"))]) },
    ];
    let (events, next) = tool_use_sse_events(&calls, 2);
    assert_eq!(events.len(), 6);
    assert_eq!(next, 4);
    assert!(events[0].contains("content_block_start"));
    assert!(events[0].contains("\"index\":2"));
    assert!(events[1].contains("input_json_delta"));
    assert!(events[3].contains("\"index\":3"));
}

#[test]
fn tool_use_events_word_for_word() {
    let calls = vec![
        AntmlToolCall {
            name: "Ba\"sh".into(),
            input: object(&[("b", number(2)), ("a", text("我\n"))]),
        },
        AntmlToolCall { name: "Read".into(), input: object(&[]) },
    ];
    let (events, next) = tool_use_sse_events(&calls, 0);
    let expected = [
        "event: content_block_start\ndata: {\"content_block\":{\"id\":\"toolu_antml_0\",\
            \"name\":\"Ba\\\"sh\",\"type\":\"tool_use\"},\"index\":0,\
            \"type\":\"content_block_start\"}\n\n",
        "event: content_block_delta\ndata: {\"delta\":{\"partial_json\":\
            \"{\\\"a\\\":\\\"我\\\\n\\\",\\\"b\\\":2}\",\"type\":\"input_json_delta\"},\"index\":0,\
            \"type\":\"content_block_delta\"}\n\n",
        "event: content_block_stop\ndata: {\"index\":0,\"type\":\"content_block_stop\"}\n\n",
        "event: content_block_start\ndata: {\"content_block\":{\"id\":\"toolu_antml_1\",\
            \"name\":\"Read\",\"type\":\"tool_use\"},\"index\":1,\
            \"type\":\"content_block_start\"}\n\n",
        "event: content_block_delta\ndata: {\"delta\":{\"partial_json\":\"{}\",\
            \"type\":\"input_json_delta\"},\"index\":1,\"type\":\"content_block_delta\"}\n\n",
        "event: content_block_stop\ndata: {\"index\":1,\"type\":\"content_block_stop\"}\n\n",
    ];
    assert_eq!(events, expected);
    assert_eq!(next, 2);
}

#[test]
fn no_calls_make_no_events() {
    let (events, next) = tool_use_sse_events(&[], u32::MAX);
    assert!(events.is_empty());
    assert_eq!(next, u32::MAX);
}

#[test]
fn last_content_index_can_be_used() {
    let calls = vec![AntmlToolCall { name: "T".into(), input: Json::Null }];
    let (events, next) = tool_use_sse_events(&calls, u32::MAX - 1);
    assert_eq!(next, u32::MAX);
    assert!(events[2].contains("\"index\":4294967294"));
    assert!(events[1].contains("\"partial_json\":\"null\""));
}

#[test]
fn standalone_text_events_word_for_word() {
    let (events, next) = standalone_text_sse_events("a <b>\t", 7);
    let expected = [
        "event: content_block_start\ndata: {\"content_block\":{\"text\":\"\",\"type\":\"text\"},\
            \"index\":7,\"type\":\"content_block_start\"}\n\n",
        "event: content_block_delta\ndata: {\"delta\":{\"text\":\"a <b>\\t\",\
            \"type\":\"text_delta\"},\"index\":7,\"type\":\"content_block_delta\"}\n\n",
        "event: content_block_stop\ndata: {\"index\":7,\"type\":\"content_block_stop\"}\n\n",
    ];
    assert_eq!(events, expected);
    assert_eq!(next, 8);
}

#[test]
fn events_without_data_are_empty() {
    assert_eq!(frame_event("x", None), "event: x\ndata: \n\n");
    assert_eq!(frame_event("x", Some("{}".to_string())), "event: x\ndata: {}\n\n");
}

#[test]
fn unwritten_input_is_an_empty_object() {
    let expected = object(&[("type", text("input_json_delta")), ("partial_json", text("{}"))]);
    assert_eq!(input_delta_json(None), expected);
    let expected = object(&[("type", text("input_json_delta")), ("partial_json", text("[1]"))]);
    assert_eq!(input_delta_json(Some("[1]".to_string())), expected);
}

#[test]
fn block_events_hold_their_index() {
    let start = object(&[
        ("type", text("content_block_start")),
        ("index", number(3)),
        ("content_block", Json::Null),
    ]);
    assert_eq!(block_start_event(3, Json::Null), start);
    let delta = object(&[
        ("type", text("content_block_delta")),
        ("index", number(3)),
        ("delta", Json::Bool(true)),
    ]);
    assert_eq!(block_delta_event(3, Json::Bool(true)), delta);
    let stop = object(&[("type", text("content_block_stop")), ("index", number(3))]);
    assert_eq!(block_stop_event(3), stop);
}

#[test]
fn event_data_is_json_text() {
    let data = object(&[("b", number(1)), ("a", Json::Null)]);
    assert_eq!(sse("ping", &data), "event: ping\ndata: {\"a\":null,\"b\":1}\n\n");
}
