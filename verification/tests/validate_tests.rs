use cohere_core::schema::SchemaError;
use cohere_core::validate::{index_of_path, interpolate_message, jsonpointer_to_jsonpath};
use cohere_core::value::JsonValue;
use cohere_core::{
    enrich_errors, parse_json, validate, validate_json, validate_toml, JsonPath, Schema, SourceMap,
    SourceSpan, ValidationError, ValidationRule,
};

fn json(text: &str) -> JsonValue {
    parse_json(text).unwrap()
}

fn schema(text: &str) -> Schema {
    Schema::parse(json(text)).unwrap()
}

fn schema_error(text: &str) -> SchemaError {
    match Schema::parse(json(text)) {
        Err(e) => e,
        Ok(_) => panic!("expected the schema to be refused"),
    }
}

#[test]
fn test_jsonpointer_to_jsonpath() {
    assert_eq!(jsonpointer_to_jsonpath(""), "");
    assert_eq!(jsonpointer_to_jsonpath("/"), "");
    assert_eq!(jsonpointer_to_jsonpath("/nodes"), "nodes");
    assert_eq!(jsonpointer_to_jsonpath("/nodes/0"), "nodes[0]");
    assert_eq!(jsonpointer_to_jsonpath("/nodes/0/name"), "nodes[0].name");
    assert_eq!(
        jsonpointer_to_jsonpath("/users/0/addresses/1/city"),
        "users[0].addresses[1].city"
    );
}

#[test]
fn test_standard_json_schema_valid() {
    let schema = schema(
        r#"{
            "type": "object",
            "properties": {
                "name": { "type": "string" }
            },
            "required": ["name"]
        }"#,
    );

    let valid = json(r#"{ "name": "Alice" }"#);
    assert!(validate(&schema, &valid).is_ok());
}

#[test]
fn test_standard_json_schema_invalid_type() {
    let schema = schema(
        r#"{
            "type": "object",
            "properties": {
                "age": { "type": "number" }
            }
        }"#,
    );

    let invalid = json(r#"{ "age": "not-a-number" }"#);
    let result = validate(&schema, &invalid);
    assert!(result.is_err());

    let errors = result.unwrap_err();
    assert_eq!(errors.len(), 1);
    assert_eq!(errors[0].path, Some("age".to_string()));
}

#[test]
fn test_standard_json_schema_required_missing() {
    let schema = schema(
        r#"{
            "type": "object",
            "properties": {
                "name": { "type": "string" }
            },
            "required": ["name"]
        }"#,
    );

    let invalid = json("{}");
    let result = validate(&schema, &invalid);
    assert!(result.is_err());
}

const NODES_SCHEMA: &str = r#"{
    "type": "object",
    "properties": {
        "nodes": {
            "type": "array",
            "items": {
                "type": "object",
                "properties": {
                    "name": { "type": "string" }
                },
                "required": ["name"]
            }
        }
    },
    "x-uniqueAcross": [
        { "paths": ["nodes[*].name"] }
    ]
}"#;

#[test]
fn test_combined_validation_both_pass() {
    let schema = schema(NODES_SCHEMA);

    let valid = json(
        r#"{
            "nodes": [
                { "name": "a" },
                { "name": "b" }
            ]
        }"#,
    );

    assert!(validate(&schema, &valid).is_ok());
}

#[test]
fn test_combined_validation_both_fail() {
    let schema = schema(NODES_SCHEMA);

    let invalid = json(
        r#"{
            "nodes": [
                { "name": "a" },
                { "name": "a" },
                { "age": 30 }
            ]
        }"#,
    );

    let result = validate(&schema, &invalid);
    assert!(result.is_err());

    let errors = result.unwrap_err();
    assert!(errors.len() >= 2); // At least one from each validator
}

#[test]
fn test_x_keywords_only_schema() {
    // Schema with ONLY x- keywords should work
    let schema = schema(
        r#"{
            "x-uniqueAcross": [
                { "paths": ["items[*].id"] }
            ]
        }"#,
    );

    assert!(schema.json_schema.is_none());

    let valid = json(r#"{ "items": [{ "id": "a" }, { "id": "b" }] }"#);
    assert!(validate(&schema, &valid).is_ok());
}

#[test]
fn test_empty_schema() {
    // Empty schema should always be valid
    let schema = schema("{}");
    assert!(schema.json_schema.is_none());

    let data = json(r#"{ "anything": "goes" }"#);
    assert!(validate(&schema, &data).is_ok());
}

#[test]
fn test_validate_unique_across() {
    let schema = schema(
        r#"{
            "x-uniqueAcross": [
                { "paths": ["nodes[*].name", "edges[*].name"] }
            ]
        }"#,
    );

    // Valid: unique names
    let valid = json(
        r#"{
            "nodes": [{"name": "a"}, {"name": "b"}],
            "edges": [{"name": "c"}]
        }"#,
    );
    assert!(validate(&schema, &valid).is_ok());

    // Invalid: duplicate names
    let invalid = json(
        r#"{
            "nodes": [{"name": "a"}, {"name": "b"}],
            "edges": [{"name": "a"}]
        }"#,
    );
    assert!(validate(&schema, &invalid).is_err());
}

#[test]
fn test_validate_references() {
    let schema = schema(
        r#"{
            "x-references": [
                { "from": "edges[*].from", "to": ["nodes[*].name"] }
            ]
        }"#,
    );

    // Valid: reference exists
    let valid = json(
        r#"{
            "nodes": [{"name": "a"}],
            "edges": [{"from": "a"}]
        }"#,
    );
    assert!(validate(&schema, &valid).is_ok());

    // Invalid: reference doesn't exist
    let invalid = json(
        r#"{
            "nodes": [{"name": "a"}],
            "edges": [{"from": "b"}]
        }"#,
    );
    assert!(validate(&schema, &invalid).is_err());
}

#[test]
fn test_validate_referenced_by() {
    let schema = schema(
        r#"{
            "x-referencedBy": [
                { "target": "nodes[*].name", "from": ["edges[*].from", "edges[*].to"], "min": 1 }
            ]
        }"#,
    );

    // Valid: node is referenced
    let valid = json(
        r#"{
            "nodes": [{"name": "a"}],
            "edges": [{"from": "a", "to": "a"}]
        }"#,
    );
    assert!(validate(&schema, &valid).is_ok());

    // Invalid: node is not referenced
    let invalid = json(
        r#"{
            "nodes": [{"name": "a"}, {"name": "b"}],
            "edges": [{"from": "a", "to": "a"}]
        }"#,
    );
    assert!(validate(&schema, &invalid).is_err());
}

// ---------------------------------------------------------------------------
// Messages and error fields
// ---------------------------------------------------------------------------

#[test]
fn duplicate_error_names_first_occurrence() {
    let schema = schema(r#"{"x-uniqueAcross": [{"paths": ["nodes[*].name", "edges[*].name"]}]}"#);
    let data = json(r#"{"nodes": [{"name": "a"}, {"name": "b"}], "edges": [{"name": "a"}, {"name": "a"}]}"#);
    let errors = validate(&schema, &data).unwrap_err();
    assert_eq!(errors.len(), 2);
    assert_eq!(
        errors[0].message,
        "Duplicate value 'a' at 'edges[0].name' (first seen at 'nodes[0].name')"
    );
    assert_eq!(errors[0].path.as_deref(), Some("edges[0].name"));
    assert_eq!(errors[0].value.as_deref(), Some("a"));
    assert_eq!(errors[0].line, None);
    assert_eq!(errors[0].column, None);
    assert_eq!(
        errors[1].to_string(),
        "Duplicate value 'a' at 'edges[1].name' (first seen at 'nodes[0].name')"
    );
}

#[test]
fn unique_across_compares_values_not_text() {
    let schema = schema(r#"{"x-uniqueAcross": [{"paths": ["xs[*]"]}]}"#);
    // 1 and "1" differ; 0.0 and -0.0 are equal numbers; equal objects are duplicates
    let data = json(r#"{"xs": [1, "1", 0.0, -0.0, {"k": [true]}, {"k": [true]}, null]}"#);
    let errors = validate(&schema, &data).unwrap_err();
    assert_eq!(errors.len(), 2);
    assert_eq!(errors[0].path.as_deref(), Some("xs[3]"));
    assert_eq!(errors[0].value.as_deref(), Some("-0.0"));
    assert_eq!(errors[0].message, "Duplicate value '-0.0' at 'xs[3]' (first seen at 'xs[2]')");
    assert_eq!(errors[1].path.as_deref(), Some("xs[5]"));
    assert_eq!(errors[1].value.as_deref(), Some("{\"k\":[true]}"));
}

#[test]
fn custom_messages_are_interpolated() {
    let schema = schema(
        r#"{"x-references": [{"from": "edges[*].to", "to": "nodes[*].id",
             "message": "{{path}} points at unknown node {{value}} ({{index}})"}]}"#,
    );
    let data = json(r#"{"nodes": [{"id": "a"}], "edges": [{"to": "a"}, {"to": "zz"}]}"#);
    let errors = validate(&schema, &data).unwrap_err();
    assert_eq!(errors.len(), 1);
    assert_eq!(errors[0].message, "edges[1].to points at unknown node zz (1)");
    assert_eq!(errors[0].path.as_deref(), Some("edges[1].to"));
}

#[test]
fn index_placeholder_is_the_array_index() {
    let schema = schema(
        r#"{"x-references": [{"from": "organisations[*].members[*]", "to": ["users[*].name"],
             "message": "'{{value}}' at {{path}}, index {{index}}"}],
            "x-uniqueAcross": [{"paths": ["tags"], "message": "{{index}}"}]}"#,
    );
    let data = json(
        r#"{"users": [{"name": "alice"}], "tags": 1, "organisations": [{"name": "acme", "members": ["alice", "charlie"]}]}"#,
    );
    let errors = validate(&schema, &data).unwrap_err();
    assert_eq!(errors.len(), 1);
    assert_eq!(errors[0].message, "'charlie' at organisations[0].members[1], index 1");
    assert_eq!(index_of_path("users[12].name"), Some(12));
    assert_eq!(index_of_path("a.b"), None);
    assert_eq!(index_of_path("a[x]"), None);
    assert_eq!(index_of_path("a[3].b[x]"), Some(3));
}

#[test]
fn interpolate_message_fills_placeholders() {
    let v = json("42");
    assert_eq!(
        interpolate_message("{{value}}@{{path}}#{{index}}", &v, "a.b", Some(3)),
        "42@a.b#3"
    );
    assert_eq!(interpolate_message("{{value}}{{value}}", &v, "p", None), "4242");
    assert_eq!(interpolate_message("no placeholders", &v, "p", None), "no placeholders");
}

#[test]
fn invalid_reference_message() {
    let schema = schema(r#"{"x-references": [{"from": "refs[*]", "to": ["ids[*]", "alt[*]"]}]}"#);
    let data = json(r#"{"ids": [1], "alt": [2], "refs": [2, 3, 1]}"#);
    let errors = validate(&schema, &data).unwrap_err();
    assert_eq!(errors.len(), 1);
    assert_eq!(errors[0].message, "Invalid reference '3' at 'refs[1]'");
    assert_eq!(errors[0].value.as_deref(), Some("3"));
}

#[test]
fn referenced_by_min_and_max() {
    let schema = schema(
        r#"{"x-referencedBy": [{"target": "nodes[*]", "from": "uses[*]", "min": 2, "max": 3,
             "message": "custom {{value}}"}]}"#,
    );
    let data = json(r#"{"nodes": ["a", "b", "c"], "uses": ["a", "a", "c", "c", "c", "c"]}"#);
    let errors = validate(&schema, &data).unwrap_err();
    assert_eq!(errors.len(), 2);
    // below the minimum: the custom message
    assert_eq!(errors[0].message, "custom b");
    assert_eq!(errors[0].path.as_deref(), Some("nodes[1]"));
    // above the maximum: always the standard message
    assert_eq!(
        errors[1].message,
        "Value 'c' at 'nodes[2]' is referenced 4 time(s), maximum is 3"
    );
}

#[test]
fn referenced_by_default_minimum_is_one() {
    let schema = schema(r#"{"x-referencedBy": [{"target": "nodes[*]", "from": ["uses[*]"]}]}"#);
    let rule = &schema.referenced_by[0];
    assert_eq!(rule.min, 1);
    assert_eq!(rule.max, None);
    let data = json(r#"{"nodes": ["a", "b"], "uses": ["a"]}"#);
    let errors = validate(&schema, &data).unwrap_err();
    assert_eq!(errors.len(), 1);
    assert_eq!(
        errors[0].message,
        "Value 'b' at 'nodes[1]' is referenced 0 time(s), minimum is 1"
    );
}

#[test]
fn json_schema_errors_come_first() {
    let schema = schema(
        r#"{"type": "object", "properties": {"n": {"type": "string"}},
            "x-uniqueAcross": [{"paths": ["xs[*]"]}]}"#,
    );
    let data = json(r#"{"n": 5, "xs": [1, 1]}"#);
    let errors = validate(&schema, &data).unwrap_err();
    assert_eq!(errors.len(), 2);
    assert_eq!(errors[0].path.as_deref(), Some("n"));
    assert_eq!(errors[0].value.as_deref(), Some("5"));
    assert!(errors[1].message.starts_with("Duplicate value '1'"));
}

#[test]
fn root_json_schema_error_has_no_path() {
    let schema = schema(r#"{"type": "array"}"#);
    let errors = validate(&schema, &json(r#"{"a": 1}"#)).unwrap_err();
    assert_eq!(errors.len(), 1);
    assert_eq!(errors[0].path, None);
    assert_eq!(errors[0].value.as_deref(), Some("{\"a\":1}"));
}

// ---------------------------------------------------------------------------
// Schema parsing
// ---------------------------------------------------------------------------

#[test]
fn schema_rules_are_read_in_order() {
    let schema = schema(
        r#"{"x-uniqueAcross": [{"paths": ["a[*]"]}, {"paths": ["b", "c"], "message": "m"}],
            "x-references": [{"from": "r[*]", "to": "a[*]"}],
            "x-referencedBy": [{"target": "a[*]", "from": ["r[*]"], "max": null}]}"#,
    );
    assert_eq!(schema.unique_across.len(), 2);
    assert_eq!(schema.unique_across[1].paths.len(), 2);
    assert_eq!(schema.unique_across[1].message.as_deref(), Some("m"));
    assert_eq!(schema.references[0].to.len(), 1);
    let rules = schema.rules();
    assert_eq!(rules.len(), 4);
    assert!(matches!(rules[0], ValidationRule::UniqueAcross(_)));
    assert!(matches!(rules[1], ValidationRule::UniqueAcross(_)));
    assert!(matches!(rules[2], ValidationRule::References(_)));
    assert!(matches!(rules[3], ValidationRule::ReferencedBy(_)));
}

#[test]
fn schema_invalid_path_error() {
    let e = schema_error(r#"{"x-uniqueAcross": [{"paths": ["ok", "bad[x]"]}]}"#);
    assert!(matches!(&e, SchemaError::InvalidPath(p, _) if p == "bad[x]"));
    assert_eq!(e.message(), "invalid path 'bad[x]': invalid bracket content: x");
    let e = schema_error(r#"{"x-references": [{"from": "a..b", "to": []}]}"#);
    assert_eq!(e.message(), "invalid path 'a..b': empty field name");
}

#[test]
fn schema_invalid_rule_errors() {
    let e = schema_error(r#"{"x-uniqueAcross": {"paths": []}}"#);
    assert_eq!(e.message(), "invalid x-uniqueAcross rule: invalid type: map, expected a sequence");
    let e = schema_error(r#"{"x-uniqueAcross": null}"#);
    assert_eq!(e.message(), "invalid x-uniqueAcross rule: invalid type: null, expected a sequence");
    let e = schema_error(r#"{"x-referencedBy": [{"target": "a", "from": "b", "min": null}]}"#);
    assert_eq!(e.message(), "invalid x-referencedBy rule: invalid type: null, expected usize");
    let e = schema_error(r#"{"x-references": [{"from": "a", "to": "b", "message": true}]}"#);
    assert_eq!(
        e.message(),
        "invalid x-references rule: invalid type: boolean `true`, expected a string"
    );
    let e = schema_error(r#"{"x-uniqueAcross": [{"message": "m"}]}"#);
    assert_eq!(e.message(), "invalid x-uniqueAcross rule: missing field `paths`");
    let e = schema_error(r#"{"x-uniqueAcross": [{"paths": [1]}]}"#);
    assert_eq!(
        e.message(),
        "invalid x-uniqueAcross rule: invalid type: integer `1`, expected a string"
    );
    let e = schema_error(r#"{"x-references": [{"from": "a", "to": 3}]}"#);
    assert_eq!(
        e.message(),
        "invalid x-references rule: data did not match any variant of untagged enum StringOrVec"
    );
    let e = schema_error(r#"{"x-referencedBy": [{"target": "a", "from": "b", "min": -1}]}"#);
    assert_eq!(
        e.message(),
        "invalid x-referencedBy rule: invalid value: integer `-1`, expected usize"
    );
    let e = schema_error(r#"{"x-referencedBy": [{"target": "a", "from": "b", "max": 1.5}]}"#);
    assert_eq!(
        e.message(),
        "invalid x-referencedBy rule: invalid type: floating point `1.5`, expected usize"
    );
    let e = schema_error(r#"{"x-references": ["edges"]}"#);
    assert_eq!(
        e.message(),
        "invalid x-references rule: invalid type: string \"edges\", expected struct ReferencesRaw"
    );
    assert!(matches!(e, SchemaError::InvalidRule("x-references", _)));
}

#[test]
fn schema_error_escapes_strings() {
    let e = schema_error(r#"{"x-uniqueAcross": [{"paths": "a\"b\n\u0001"}]}"#);
    let text = format!("{:?}", "a\"b\n\u{1}");
    assert_eq!(
        e.message(),
        format!("invalid x-uniqueAcross rule: invalid type: string {}, expected a sequence", text)
    );
    assert_eq!(
        e.message(),
        "invalid x-uniqueAcross rule: invalid type: string \"a\\\"b\\n\\u{1}\", expected a sequence"
    );
}

#[test]
fn schema_rules_given_as_lists() {
    let schema = schema(r#"{"x-uniqueAcross": [[["a[*]"], null]], "x-referencedBy": [["t", "f", 2, null, "m"]]}"#);
    assert_eq!(schema.unique_across.len(), 1);
    assert_eq!(schema.unique_across[0].paths.len(), 1);
    assert_eq!(schema.referenced_by[0].min, 2);
    assert_eq!(schema.referenced_by[0].message.as_deref(), Some("m"));
    let e = schema_error(r#"{"x-uniqueAcross": [[["a[*]"]]]}"#);
    assert_eq!(
        e.message(),
        "invalid x-uniqueAcross rule: invalid length 1, expected struct UniqueAcrossRaw with 2 elements"
    );
    let e = schema_error(r#"{"x-referencedBy": [["t", "f"]]}"#);
    assert_eq!(
        e.message(),
        "invalid x-referencedBy rule: invalid length 3, expected struct ReferencedByRaw with 5 elements"
    );
    let e = schema_error(r#"{"x-references": [["a", "b", null, 1]]}"#);
    assert_eq!(
        e.message(),
        "invalid x-references rule: invalid length 4, expected fewer elements in array"
    );
}

#[test]
fn schema_compilation_error() {
    let e = schema_error(r#"{"type": 12}"#);
    assert!(matches!(e, SchemaError::JsonSchemaCompilation(_)));
    assert!(e.message().starts_with("JSON Schema compilation failed: "));
}

#[test]
fn schema_keeps_raw_value() {
    let schema = schema(r#"{"type": "object", "x-references": []}"#);
    assert!(schema.json_schema.is_some());
    assert!(matches!(&schema.raw, JsonValue::Object(ms) if ms.len() == 2));
}

// ---------------------------------------------------------------------------
// Locating errors
// ---------------------------------------------------------------------------

#[test]
fn enrich_errors_uses_source_map() {
    let mut map = SourceMap::new();
    map.insert("a".to_string(), SourceSpan { start: 4, end: 6, line: 2, column: 3 });
    let errors = vec![
        ValidationError { message: "x".into(), path: Some("a".into()), value: None, line: None, column: None },
        ValidationError { message: "y".into(), path: Some("b".into()), value: None, line: None, column: None },
        ValidationError { message: "z".into(), path: None, value: None, line: None, column: None },
    ];
    let out = enrich_errors(errors, &map);
    assert_eq!(out.len(), 3);
    assert_eq!((out[0].line, out[0].column), (Some(2), Some(3)));
    assert_eq!((out[1].line, out[1].column), (None, None));
    assert_eq!((out[2].line, out[2].column), (None, None));
    assert_eq!(out[1].message, "y");
}

#[test]
fn validate_json_locates_errors() {
    let schema = schema(r#"{"x-references": [{"from": "edges[*].to", "to": ["nodes[*]"]}]}"#);
    let src = "{\n  \"nodes\": [\"a\"],\n  \"edges\": [{\"to\": \"b\"}]\n}";
    let errors = validate_json(&schema, src).unwrap().unwrap_err();
    assert_eq!(errors.len(), 1);
    assert_eq!(errors[0].path.as_deref(), Some("edges[0].to"));
    assert_eq!(errors[0].line, Some(3));
    assert_eq!(errors[0].column, Some(20));
    assert!(validate_json(&schema, "{not json").is_err());
    assert!(validate_json(&schema, r#"{"nodes": ["b"], "edges": [{"to": "b"}]}"#).unwrap().is_ok());
}

#[test]
fn validate_toml_locates_errors() {
    let schema = schema(r#"{"x-uniqueAcross": [{"paths": ["users[*].name"]}]}"#);
    let src = "[[users]]\nname = \"a\"\n\n[[users]]\nname = \"a\"\n";
    let errors = validate_toml(&schema, src).unwrap().unwrap_err();
    assert_eq!(errors.len(), 1);
    assert_eq!(errors[0].path.as_deref(), Some("users[1].name"));
    assert_eq!(errors[0].line, Some(5));
    assert_eq!(errors[0].column, Some(9));
    assert!(validate_toml(&schema, "= bad").is_err());
}

#[test]
fn pointer_paths_read_back() {
    let data = parse_json(r#"{"users": [{"addresses": [{"city": "A"}, {"city": "B"}]}]}"#).unwrap();
    let path = jsonpointer_to_jsonpath("/users/0/addresses/1/city");
    assert_eq!(path, "users[0].addresses[1].city");
    let found = JsonPath::parse(&path).unwrap().evaluate(&data);
    assert_eq!(found.len(), 1);
    assert_eq!(found[0].path, path);
    assert!(matches!(found[0].value, JsonValue::Str(s) if s == "B"));
}

#[test]
fn rule_errors_come_rule_by_rule() {
    let schema = schema(
        r#"{
            "x-uniqueAcross": [{"paths": ["nodes[*].name"]}, {"paths": ["edges[*].id"]}],
            "x-references": [{"from": "edges[*].from", "to": ["nodes[*].name"]}],
            "x-referencedBy": [{"target": "nodes[*].name", "from": ["edges[*].from"], "min": 1}]
        }"#,
    );
    let data = json(
        r#"{
            "nodes": [{"name": "a"}, {"name": "a"}, {"name": "c"}],
            "edges": [{"id": 1, "from": "a"}, {"id": 1, "from": "z"}]
        }"#,
    );
    let mut expected: Vec<(String, Option<String>)> = Vec::new();
    for rule in &schema.unique_across {
        for e in cohere_core::validate::validate_unique_across(rule, &data) {
            expected.push((e.message, e.path));
        }
    }
    for rule in &schema.references {
        for e in cohere_core::validate::validate_references(rule, &data) {
            expected.push((e.message, e.path));
        }
    }
    for rule in &schema.referenced_by {
        for e in cohere_core::validate::validate_referenced_by(rule, &data) {
            expected.push((e.message, e.path));
        }
    }
    assert_eq!(expected.len(), 4);
    let errors = validate(&schema, &data).unwrap_err();
    let got: Vec<(String, Option<String>)> = errors.into_iter().map(|e| (e.message, e.path)).collect();
    assert_eq!(got, expected);
}
