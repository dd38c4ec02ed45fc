use antml_fallback::json::parse_json;
use antml_fallback::json::write_json;
use antml_fallback::Json;

fn text(content: &str) -> Json {
    Json::Text(content.to_string())
}

fn number(n: u64) -> Json {
    Json::Number(serde_json::Number::from(n))
}

fn object(fields: &[(&str, Json)]) -> Json {
    Json::Object(fields.iter().map(|(k, v)| (k.to_string(), v.clone())).collect())
}

#[test]
fn parsing_reads_every_kind_of_value() {
    let read = parse_json(" {\"b\": [null, true, 12, \"x\\n\"], \"a\": {}} ").unwrap();
    let expected = object(&[
        ("a", object(&[])),
        ("b", Json::Array(vec![Json::Null, Json::Bool(true), number(12), text("x\n")])),
    ]);
    assert_eq!(read, expected);
}

#[test]
fn parsing_reports_broken_text() {
    assert_eq!(parse_json(""), None);
    assert_eq!(parse_json("{"), None);
    assert_eq!(parse_json("[1] 2"), None);
}

#[test]
fn writing_sorts_the_keys() {
    let value = object(&[("b", number(1)), ("a", Json::Array(vec![Json::Null, Json::Bool(false)]))]);
    assert_eq!(write_json(&value), Some("{\"a\":[null,false],\"b\":1}".to_string()));
    assert_eq!(write_json(&text("\"我")), Some("\"\\\"我\"".to_string()));
}

#[test]
fn conversion_to_and_from_serde_json_keeps_the_value() {
    let written = "{\"a\":[1,-2,2.5,\"t\",null,true],\"b\":{\"c\":[]}}";
    let value: serde_json::Value = serde_json::from_str(written).unwrap();
    let json = Json::from_value(value.clone());
    assert_eq!(json.to_value(), value);
    assert_eq!(json.get("b").unwrap().get("c"), Some(&Json::Array(vec![])));
    assert_eq!(json.get("a").unwrap().as_array().unwrap().len(), 6);
    assert_eq!(write_json(&json), Some(written.to_string()));
}

#[test]
fn later_field_of_a_key_counts() {
    let twice = object(&[("k", number(1)), ("k", number(2))]);
    assert_eq!(twice.get("k"), Some(&number(2)));
    assert_eq!(twice, object(&[("k", number(2))]));
    assert_eq!(object(&[("k", number(2))]), twice);
    assert_ne!(twice, object(&[("k", number(1))]));
    assert_eq!(write_json(&twice), Some("{\"k\":2}".to_string()));
}

#[test]
fn accessors_look_only_at_their_own_kind() {
    assert_eq!(text("a").get("a"), None);
    assert_eq!(object(&[("a", Json::Null)]).get("b"), None);
    assert!(text("a").as_array().is_none());
    assert_eq!(text("a").as_str(), Some("a"));
    assert_eq!(Json::Null.as_str(), None);
}

#[test]
fn equality_is_that_of_serde_json() {
    let texts = [
        "null", "true", "false", "0", "1", "-1", "1.0", "0.0", "-0.0", "\"1\"", "[]", "[1]", "[1,2]",
        "[2,1]", "{}", "{\"a\":1}", "{\"a\":2}", "{\"b\":1}", "{\"a\":1,\"b\":1}", "{\"b\":1,\"a\":1}",
        "[{\"a\":[1]}]", "[{\"a\":[2]}]",
    ];
    for a in texts {
        for b in texts {
            let x: serde_json::Value = serde_json::from_str(a).unwrap();
            let y: serde_json::Value = serde_json::from_str(b).unwrap();
            let same = Json::from_value(x.clone()) == Json::from_value(y.clone());
            assert_eq!(same, x == y, "{a} {b}");
        }
    }
}

#[test]
fn clone_keeps_every_kind_of_value() {
    let value = object(&[("a", Json::Array(vec![Json::Null, Json::Bool(true), number(3), text("x")]))]);
    assert_eq!(value.clone(), value);
}
