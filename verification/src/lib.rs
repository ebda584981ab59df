//! Relational validation of JSON and TOML documents: standard JSON Schema checks
//! plus the `x-uniqueAcross`, `x-references` and `x-referencedBy` rules, with each
//! error located in the source document.
pub mod text;
pub mod source_map;
pub mod value;
pub mod json;
pub mod walk;
pub mod toml;
pub mod jsonpath;
pub mod schema;
pub mod validate;

pub use json::{json_with_source_map, parse_json, JsonError};
pub use jsonpath::JsonPath;
pub use schema::{Schema, ValidationRule};
pub use source_map::{SourceMap, SourceSpan};
pub use toml::{toml_to_json, TomlError};
pub use validate::{
    enrich_errors, validate, validate_json, validate_toml, ValidationError, ValidationResult,
};
pub use value::JsonValue;
