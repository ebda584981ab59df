use cohere_core::jsonpath::{JsonPathError, Segment};
use cohere_core::value::JsonValue;
use cohere_core::{parse_json, JsonPath};

fn text_of(v: &JsonValue) -> Option<&str> {
    match v {
        JsonValue::Str(s) => Some(s.as_str()),
        _ => None,
    }
}

#[test]
fn test_parse_simple() {
    let path = JsonPath::parse("nodes").unwrap();
    assert_eq!(path.segments(), &vec![Segment::Field("nodes".into())]);
}

#[test]
fn test_parse_nested() {
    let path = JsonPath::parse("nodes[*].name").unwrap();
    assert_eq!(
        path.segments(),
        &vec![
            Segment::Field("nodes".into()),
            Segment::Wildcard,
            Segment::Field("name".into()),
        ]
    );
}

#[test]
fn test_evaluate_wildcard() {
    let path = JsonPath::parse("nodes[*].name").unwrap();
    let data = parse_json(r#"{"nodes": [{"name": "foo"}, {"name": "bar"}]}"#).unwrap();

    let matches = path.evaluate(&data);
    assert_eq!(matches.len(), 2);
    assert_eq!(text_of(matches[0].value), Some("foo"));
    assert_eq!(text_of(matches[1].value), Some("bar"));
}

#[test]
fn parse_index_and_leading_dot() {
    let path = JsonPath::parse(".items[2].id").unwrap();
    assert_eq!(
        path.segments(),
        &vec![Segment::Field("items".into()), Segment::Index(2), Segment::Field("id".into())]
    );
    let plus = JsonPath::parse("a[+7]").unwrap();
    assert_eq!(plus.segments(), &vec![Segment::Field("a".into()), Segment::Index(7)]);
    let empty = JsonPath::parse("").unwrap();
    assert_eq!(empty.segments(), &Vec::<Segment>::new());
}

#[test]
fn parse_errors_and_messages() {
    match JsonPath::parse("a..b") {
        Err(e) => {
            assert!(matches!(e, JsonPathError::EmptyField));
            assert_eq!(e.message(), "empty field name");
        }
        Ok(_) => panic!("expected an error"),
    }
    match JsonPath::parse("a[x]") {
        Err(e) => {
            assert!(matches!(&e, JsonPathError::InvalidBracket(c) if c == "x"));
            assert_eq!(e.message(), "invalid bracket content: x");
        }
        Ok(_) => panic!("expected an error"),
    }
    match JsonPath::parse("a[0]b") {
        Err(e) => {
            assert!(matches!(e, JsonPathError::UnexpectedChar('b')));
            assert_eq!(e.message(), "unexpected character: b");
        }
        Ok(_) => panic!("expected an error"),
    }
    // an index that does not fit in a usize is refused
    assert!(JsonPath::parse("a[99999999999999999999999]").is_err());
}

#[test]
fn evaluate_paths_of_matches() {
    let data = parse_json(r#"{"a": {"b": [10, 20, 30]}, "c": 1}"#).unwrap();
    let all = JsonPath::parse("a.b[*]").unwrap().evaluate(&data);
    let paths: Vec<&str> = all.iter().map(|m| m.path.as_str()).collect();
    assert_eq!(paths, vec!["a.b[0]", "a.b[1]", "a.b[2]"]);
    let one = JsonPath::parse("a.b[1]").unwrap().evaluate(&data);
    assert_eq!(one.len(), 1);
    assert_eq!(one[0].path, "a.b[1]");
    assert!(matches!(one[0].value, JsonValue::Number(n) if n.text() == "20"));
    assert!(JsonPath::parse("a.b[3]").unwrap().evaluate(&data).is_empty());
    assert!(JsonPath::parse("c[*]").unwrap().evaluate(&data).is_empty());
    assert!(JsonPath::parse("missing").unwrap().evaluate(&data).is_empty());
    let root = JsonPath::parse("").unwrap().evaluate(&data);
    assert_eq!(root.len(), 1);
    assert_eq!(root[0].path, "");
}

#[test]
fn match_paths_read_back() {
    let data = parse_json(r#"{"nodes": [{"id": 1, "tags": ["x", "y"]}, {"id": 2, "tags": []}]}"#).unwrap();
    let all = JsonPath::parse("nodes[*].tags[*]").unwrap().evaluate(&data);
    assert_eq!(all.len(), 2);
    for m in &all {
        let again = JsonPath::parse(&m.path).unwrap().evaluate(&data);
        assert_eq!(again.len(), 1);
        assert_eq!(again[0].path, m.path);
        assert!(std::ptr::eq(again[0].value, m.value));
    }
    let ids = JsonPath::parse("nodes[*].id").unwrap().evaluate(&data);
    let paths: Vec<&str> = ids.iter().map(|m| m.path.as_str()).collect();
    assert_eq!(paths, vec!["nodes[0].id", "nodes[1].id"]);
    for m in &ids {
        let again = JsonPath::parse(&m.path).unwrap().evaluate(&data);
        assert_eq!(again.len(), 1);
        assert!(std::ptr::eq(again[0].value, m.value));
    }
}
