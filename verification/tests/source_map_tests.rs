use cohere_core::source_map::{build_line_offsets, make_span, offset_to_line_col};
use cohere_core::value::values_equal;
use cohere_core::{parse_json, validate, Schema, SourceMap, SourceSpan};

#[test]
fn line_offsets_of_text() {
    assert_eq!(build_line_offsets(""), vec![0]);
    assert_eq!(build_line_offsets("ab\ncd\n\ne"), vec![0, 3, 6, 7]);
}

#[test]
fn line_starts_are_column_one() {
    let offsets = build_line_offsets("ab\ncd\n\ne");
    for (k, &start) in offsets.iter().enumerate() {
        assert_eq!(offset_to_line_col(start, &offsets), (k + 1, 1));
    }
    assert_eq!(offset_to_line_col(1, &offsets), (1, 2));
    assert_eq!(offset_to_line_col(4, &offsets), (2, 2));
    assert_eq!(offset_to_line_col(8, &offsets), (4, 2));
    let span = make_span(4, 5, &offsets);
    assert_eq!((span.start, span.end, span.line, span.column), (4, 5, 2, 2));
}

#[test]
fn source_map_insert_then_get() {
    let mut map = SourceMap::new();
    let a = SourceSpan { start: 0, end: 1, line: 1, column: 1 };
    let b = SourceSpan { start: 5, end: 9, line: 2, column: 3 };
    map.insert("x".to_string(), a);
    map.insert("y".to_string(), b);
    assert_eq!(map.get("x"), Some(a));
    map.insert("x".to_string(), b);
    assert_eq!(map.get("x"), Some(b));
    assert_eq!(map.get("y"), Some(b));
    assert_eq!(map.get("z"), None);
    assert_eq!(map.len(), 2);
    assert!(map.contains_key("y"));
    assert!(!map.contains_key("z"));
}

#[test]
fn value_equality_is_an_equivalence() {
    let a = parse_json(r#"{"k": [0.0, "s", null]}"#).unwrap();
    let b = parse_json(r#"{"k": [-0.0, "s", null]}"#).unwrap();
    let c = parse_json(r#"{"k": [0.0, "s", null]}"#).unwrap();
    let d = parse_json(r#"{"k": [0, "s", null]}"#).unwrap();
    assert!(values_equal(&a, &a));
    assert!(values_equal(&a, &b) && values_equal(&b, &a));
    assert!(values_equal(&b, &c) && values_equal(&a, &c));
    assert!(!values_equal(&a, &d));
}

#[test]
fn a_path_references_itself() {
    let schema = Schema::parse(
        parse_json(r#"{"x-references": [{"from": "items[*].id", "to": "items[*].id"}]}"#).unwrap(),
    )
    .unwrap();
    let data = parse_json(r#"{"items": [{"id": 1}, {"id": [1, {"a": null}]}, {"id": "x"}]}"#).unwrap();
    assert!(validate(&schema, &data).is_ok());
}
