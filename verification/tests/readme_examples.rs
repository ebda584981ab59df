use cohere_core::{parse_json, validate, Schema};

const USERS_SCHEMA: &str = r#"{
  "x-uniqueAcross": [
    {
      "paths": ["users[*].name", "organisations[*].name"],
      "message": "Names must be unique. Duplicate: '{{value}}'"
    }
  ],
  "x-references": [
    {
      "from": "organisations[*].members[*]",
      "to": ["users[*].name"],
      "message": "Unknown member '{{value}}'"
    }
  ],
  "x-referencedBy": [
    {
      "target": "users[*].name",
      "from": ["organisations[*].members[*]"],
      "min": 1,
      "message": "User '{{value}}' is not in any organisation"
    }
  ]
}"#;

#[test]
fn users_and_organisations_valid() {
    let schema = Schema::parse(parse_json(USERS_SCHEMA).unwrap()).unwrap();
    let data = parse_json(
        r#"{
  "users": [
    { "name": "alice", "age": 32 },
    { "name": "bob", "age": 28 }
  ],
  "organisations": [
    { "name": "acme", "members": ["alice", "bob"] }
  ]
}"#,
    )
    .unwrap();
    assert!(validate(&schema, &data).is_ok());
}

#[test]
fn users_and_organisations_unknown_member() {
    let schema = Schema::parse(parse_json(USERS_SCHEMA).unwrap()).unwrap();
    let data = parse_json(
        r#"{
  "users": [
    { "name": "alice", "age": 32 }
  ],
  "organisations": [
    { "name": "acme", "members": ["alice", "charlie"] }
  ]
}"#,
    )
    .unwrap();
    let errors = validate(&schema, &data).unwrap_err();
    assert_eq!(errors.len(), 1);
    assert_eq!(errors[0].message, "Unknown member 'charlie'");
    assert_eq!(errors[0].path.as_deref(), Some("organisations[0].members[1]"));
}

#[test]
fn users_and_organisations_duplicate_and_unreferenced() {
    let schema = Schema::parse(parse_json(USERS_SCHEMA).unwrap()).unwrap();
    let data = parse_json(
        r#"{
  "users": [
    { "name": "acme" },
    { "name": "dana" }
  ],
  "organisations": [
    { "name": "acme", "members": ["acme"] }
  ]
}"#,
    )
    .unwrap();
    let errors = validate(&schema, &data).unwrap_err();
    let messages: Vec<&str> = errors.iter().map(|e| e.message.as_str()).collect();
    assert_eq!(
        messages,
        vec!["Names must be unique. Duplicate: 'acme'", "User 'dana' is not in any organisation"]
    );
}

#[test]
fn graph_example_valid() {
    let schema = Schema::parse(
        parse_json(
            r#"{
  "x-uniqueAcross": [
    { "paths": ["nodes[*].name", "edges[*].name"] }
  ],
  "x-references": [
    { "from": "edges[*].from", "to": ["nodes[*].name"] },
    { "from": "edges[*].to", "to": ["nodes[*].name"] }
  ],
  "x-referencedBy": [
    { "target": "nodes[*].name", "from": ["edges[*].from", "edges[*].to"], "min": 1 }
  ]
}"#,
        )
        .unwrap(),
    )
    .unwrap();
    let data = parse_json(
        r#"{
  "nodes": [
    { "name": "start" },
    { "name": "end" }
  ],
  "edges": [
    { "name": "connection", "from": "start", "to": "end" }
  ]
}"#,
    )
    .unwrap();
    assert!(validate(&schema, &data).is_ok());
}
