use cohere_core::value::JsonValue;
use cohere_core::{json_with_source_map, parse_json, JsonError};

fn member<'a>(v: &'a JsonValue, key: &str) -> &'a JsonValue {
    v.get_member(&key.to_string()).expect("member")
}

fn element(v: &JsonValue, i: usize) -> &JsonValue {
    v.get_element(i).expect("element")
}

fn is_text(v: &JsonValue, t: &str) -> bool {
    matches!(v, JsonValue::Str(s) if s == t)
}

fn is_number(v: &JsonValue, t: &str) -> bool {
    matches!(v, JsonValue::Number(n) if n.text() == t)
}

#[test]
fn test_simple_json_source_map() {
    let json = r#"{"name": "alice", "age": 30}"#;
    let (value, source_map) = json_with_source_map(json).unwrap();

    assert!(is_text(member(&value, "name"), "alice"));
    assert!(is_number(member(&value, "age"), "30"));

    assert!(source_map.contains_key("name"));
    assert!(source_map.contains_key("age"));
}

#[test]
fn test_nested_json_source_map() {
    let json = r#"{
  "users": [
    {"name": "alice"},
    {"name": "bob"}
  ]
}"#;
    let (value, source_map) = json_with_source_map(json).unwrap();

    assert!(is_text(member(element(member(&value, "users"), 0), "name"), "alice"));
    assert!(is_text(member(element(member(&value, "users"), 1), "name"), "bob"));

    assert!(source_map.contains_key("users[0].name"));
    assert!(source_map.contains_key("users[1].name"));

    let span = source_map.get("users[0].name").unwrap();
    assert_eq!(span.line, 3);

    let span = source_map.get("users[1].name").unwrap();
    assert_eq!(span.line, 4);
}

#[test]
fn test_json_line_col() {
    let json = "{\n  \"name\": \"hello\",\n  \"age\": 42\n}";
    let (_, source_map) = json_with_source_map(json).unwrap();

    let name_span = source_map.get("name").unwrap();
    assert_eq!(name_span.line, 2);

    let age_span = source_map.get("age").unwrap();
    assert_eq!(age_span.line, 3);
}

#[test]
fn test_invalid_json() {
    let result = json_with_source_map("{invalid}");
    assert!(result.is_err());
}

#[test]
fn test_escaped_strings() {
    let json = r#"{"key": "hello \"world\""}"#;
    let (value, source_map) = json_with_source_map(json).unwrap();

    assert!(is_text(member(&value, "key"), "hello \"world\""));
    assert!(source_map.contains_key("key"));
}

#[test]
fn test_array_of_objects() {
    let json = r#"{
  "nodes": [{"id": "a"}, {"id": "b"}],
  "edges": [{"from": "a", "to": "b"}]
}"#;
    let (_, source_map) = json_with_source_map(json).unwrap();

    assert!(source_map.contains_key("nodes[0].id"));
    assert!(source_map.contains_key("nodes[1].id"));
    assert!(source_map.contains_key("edges[0].from"));
    assert!(source_map.contains_key("edges[0].to"));
}

#[test]
fn json_spans_cover_the_value_text() {
    let json = "{\"a\": [1, {\"b\": true}], \"c\": \"x\\ny\"}";
    let (_, map) = json_with_source_map(json).unwrap();
    let a = map.get("a").unwrap();
    assert_eq!(&json[a.start..a.end], "[1, {\"b\": true}]");
    assert_eq!((a.line, a.column), (1, 7));
    let b = map.get("a[1].b").unwrap();
    assert_eq!(&json[b.start..b.end], "true");
    let first = map.get("a[0]").unwrap();
    assert_eq!(&json[first.start..first.end], "1");
    let c = map.get("c").unwrap();
    assert_eq!(&json[c.start..c.end], "\"x\\ny\"");
    // the root has no path of its own
    assert!(!map.contains_key(""));
    assert_eq!(map.len(), 5);
}

#[test]
fn json_parse_error_message() {
    match parse_json("[1, 2") {
        Err(e) => {
            let JsonError::Parse(detail) = &e;
            assert!(!detail.is_empty());
            assert_eq!(e.message(), format!("JSON parse error: {}", detail));
        }
        Ok(_) => panic!("expected an error"),
    }
}

#[test]
fn json_numbers_keep_their_text() {
    let v = parse_json(r#"[0, -7, 1.5, 1e3, 12345678901234567890]"#).unwrap();
    assert!(is_number(element(&v, 0), "0"));
    assert!(is_number(element(&v, 1), "-7"));
    assert!(is_number(element(&v, 2), "1.5"));
    assert!(is_number(element(&v, 3), "1000.0"));
    assert!(is_number(element(&v, 4), "12345678901234567890"));
}

#[test]
fn json_source_map_non_ascii_keys() {
    let json = "{\"caf\u{e9}\": {\"\u{1F600}\": [1, \"\u{20AC}\"]}, \"k\\u00e9y\": 2, \"p\\ud83d\\ude00\": 3}";
    let (value, map) = json_with_source_map(json).unwrap();
    let inner = member(member(&value, "caf\u{e9}"), "\u{1F600}");
    assert!(is_text(element(inner, 1), "\u{20AC}"));
    assert!(map.contains_key("caf\u{e9}"));
    assert!(map.contains_key("caf\u{e9}.\u{1F600}"));
    let s = map.get("caf\u{e9}.\u{1F600}[1]").unwrap();
    assert_eq!(&json[s.start..s.end], "\"\u{20AC}\"");
    assert!(map.contains_key("k\u{e9}y"));
    assert!(map.contains_key("p\u{1F600}"));
    assert_eq!(map.len(), 6);
}

#[test]
fn json_source_map_records_every_value() {
    let (_, map) = json_with_source_map("{\"a\": {\"b\": [1, {\"c\": 2}]}, \"d\": null}").unwrap();
    for p in ["a", "a.b", "a.b[0]", "a.b[1]", "a.b[1].c", "d"] {
        assert!(map.contains_key(p), "{}", p);
    }
    assert_eq!(map.len(), 6);
    assert!(!map.contains_key(""));
    let span = map.get("a.b[1].c").unwrap();
    assert_eq!((span.start, span.end, span.line, span.column), (22, 23, 1, 23));
}
