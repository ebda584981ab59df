use cohere_core::value::JsonValue;
use cohere_core::{toml_to_json, JsonPath, TomlError};

fn member<'a>(v: &'a JsonValue, key: &str) -> &'a JsonValue {
    v.get_member(&key.to_string()).expect("member")
}

fn element(v: &JsonValue, i: usize) -> &JsonValue {
    v.get_element(i).expect("element")
}

fn is_text(v: &JsonValue, t: &str) -> bool {
    matches!(v, JsonValue::Str(s) if s == t)
}

#[test]
fn test_simple_toml_to_json() {
    let toml = r#"
name = "alice"
age = 30
"#;
    let (json, source_map) = toml_to_json(toml).unwrap();
    assert!(is_text(member(&json, "name"), "alice"));
    assert!(matches!(member(&json, "age"), JsonValue::Number(n) if n.text() == "30"));

    assert!(source_map.contains_key("name"));
    assert!(source_map.contains_key("age"));
}

#[test]
fn test_nested_toml_to_json() {
    let toml = r#"
[[users]]
name = "alice"

[[users]]
name = "bob"

[[organisations]]
name = "acme"
members = ["alice"]
"#;
    let (json, source_map) = toml_to_json(toml).unwrap();

    assert!(is_text(member(element(member(&json, "users"), 0), "name"), "alice"));
    assert!(is_text(member(element(member(&json, "users"), 1), "name"), "bob"));
    assert!(is_text(
        element(member(element(member(&json, "organisations"), 0), "members"), 0),
        "alice"
    ));

    assert!(source_map.contains_key("users[0].name"));
    assert!(source_map.contains_key("users[1].name"));
    assert!(source_map.contains_key("organisations[0].members[0]"));

    // Verify line numbers make sense
    let span = source_map.get("users[0].name").unwrap();
    assert!(span.line > 1); // not on the first (empty) line
}

#[test]
fn test_source_span_line_col() {
    let toml = "name = \"hello\"\nage = 42\n";
    let (_, source_map) = toml_to_json(toml).unwrap();

    let name_span = source_map.get("name").unwrap();
    assert_eq!(name_span.line, 1);

    let age_span = source_map.get("age").unwrap();
    assert_eq!(age_span.line, 2);
}

#[test]
fn test_invalid_toml() {
    let result = toml_to_json("= invalid");
    assert!(result.is_err());
}

#[test]
fn toml_scalars_and_error_message() {
    let (json, map) = toml_to_json("flag = true\nratio = 0.5\nlist = [1, 2]\n").unwrap();
    assert!(matches!(member(&json, "flag"), JsonValue::Bool(true)));
    assert!(matches!(member(&json, "ratio"), JsonValue::Number(n) if n.text() == "0.5"));
    assert!(matches!(element(member(&json, "list"), 1), JsonValue::Number(n) if n.text() == "2"));
    let item = map.get("list[1]").unwrap();
    assert_eq!((item.line, item.column), (3, 12));
    match toml_to_json("= invalid") {
        Err(e) => {
            let TomlError::Parse(detail) = &e;
            assert_eq!(e.message(), format!("TOML parse error: {}", detail));
        }
        Ok(_) => panic!("expected an error"),
    }
}

#[test]
fn toml_paths_found_are_recorded() {
    let src = "[[users]]\nname = \"a\"\ntags = [\"x\", \"y\"]\n\n[[users]]\nname = \"b\"\ntags = []\n";
    let (json, map) = toml_to_json(src).unwrap();
    for p in ["users", "users[*]", "users[*].name", "users[*].tags[*]", "users[1].tags"] {
        let path = JsonPath::parse(p).unwrap();
        for m in path.evaluate(&json) {
            assert!(map.contains_key(&m.path), "{} not recorded", m.path);
        }
    }
    assert_eq!(map.get("users[0].tags[1]").unwrap().line, 3);
}
