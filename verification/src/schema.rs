//! Schemas: the `x-uniqueAcross`, `x-references` and `x-referencedBy` rules, and
//! the standard JSON Schema part, which jsonschema checks.
use vstd::prelude::*;

use crate::jsonpath::{
    all_digits, digits_value, is_digit, lemma_decimal_digits, parse_path, parse_usize,
    path_error_text, unsigned_part, JsonPath, SegmentView,
};
use crate::text::{chars_of, decimal, push_decimal};
use crate::text::string_of;
use crate::value::{
    element, lemma_array_view, lemma_object_view, member, to_serde, JsonValue, JsonView, Member,
};

verus! {

// ----------------------------------------------------------------------------
// Rules
// ----------------------------------------------------------------------------
/// Values found at any of `paths` must all differ.
#[derive(Debug)]
pub struct UniqueAcrossRule {
    pub paths: Vec<JsonPath>,
    pub message: Option<String>,
}

/// Every value found at `from` must equal some value found at one of `to`.
#[derive(Debug)]
pub struct ReferencesRule {
    pub from: JsonPath,
    pub to: Vec<JsonPath>,
    pub message: Option<String>,
}

/// Every value found at `target` must be referenced (equal a value found at one of
/// `from`) at least `min` and, when given, at most `max` times.
#[derive(Debug)]
pub struct ReferencedByRule {
    pub target: JsonPath,
    pub from: Vec<JsonPath>,
    pub min: usize,
    pub max: Option<usize>,
    pub message: Option<String>,
}

/// The view of an optional string.
pub open spec fn opt_view(o: Option<String>) -> Option<Seq<char>> {
    match o {
        Some(s) => Some(s@),
        None => None,
    }
}

/// The views of a list of paths.
pub open spec fn paths_view(ps: Seq<JsonPath>) -> Seq<Seq<SegmentView>> {
    ps.map_values(|p: JsonPath| p@)
}

/// The view of an `x-uniqueAcross` rule.
#[verifier::ext_equal]
pub struct UniqueAcrossView {
    pub paths: Seq<Seq<SegmentView>>,
    pub message: Option<Seq<char>>,
}

/// The view of an `x-references` rule.
#[verifier::ext_equal]
pub struct ReferencesView {
    pub from: Seq<SegmentView>,
    pub to: Seq<Seq<SegmentView>>,
    pub message: Option<Seq<char>>,
}

/// The view of an `x-referencedBy` rule.
#[verifier::ext_equal]
pub struct ReferencedByView {
    pub target: Seq<SegmentView>,
    pub from: Seq<Seq<SegmentView>>,
    pub min: nat,
    pub max: Option<nat>,
    pub message: Option<Seq<char>>,
}

impl View for UniqueAcrossRule {
    type V = UniqueAcrossView;

    open spec fn view(&self) -> UniqueAcrossView {
        UniqueAcrossView { paths: paths_view(self.paths@), message: opt_view(self.message) }
    }
}

impl View for ReferencesRule {
    type V = ReferencesView;

    open spec fn view(&self) -> ReferencesView {
        ReferencesView { from: self.from@, to: paths_view(self.to@), message: opt_view(self.message) }
    }
}

impl View for ReferencedByRule {
    type V = ReferencedByView;

    open spec fn view(&self) -> ReferencedByView {
        ReferencedByView {
            target: self.target@,
            from: paths_view(self.from@),
            min: self.min as nat,
            max: match self.max {
                Some(m) => Some(m as nat),
                None => None,
            },
            message: opt_view(self.message),
        }
    }
}

/// Why a schema is refused.
#[derive(Debug)]
pub enum SchemaError {
    InvalidRule(&'static str, String),
    InvalidPath(String, String),
    JsonSchemaCompilation(String),
}

/// The view of a schema error.
pub enum SchemaErrorView {
    InvalidRule(Seq<char>, Seq<char>),
    InvalidPath(Seq<char>, Seq<char>),
    JsonSchemaCompilation(Seq<char>),
}

impl View for SchemaError {
    type V = SchemaErrorView;

    open spec fn view(&self) -> SchemaErrorView {
        match self {
            SchemaError::InvalidRule(k, m) => SchemaErrorView::InvalidRule(k@, m@),
            SchemaError::InvalidPath(p, m) => SchemaErrorView::InvalidPath(p@, m@),
            SchemaError::JsonSchemaCompilation(m) => SchemaErrorView::JsonSchemaCompilation(m@),
        }
    }
}

/// The message of a schema error.
pub open spec fn schema_error_text(e: SchemaErrorView) -> Seq<char> {
    match e {
        SchemaErrorView::InvalidRule(k, m) => "invalid "@ + k + " rule: "@ + m,
        SchemaErrorView::InvalidPath(p, m) => "invalid path '"@ + p + "': "@ + m,
        SchemaErrorView::JsonSchemaCompilation(m) => "JSON Schema compilation failed: "@ + m,
    }
}

impl SchemaError {
    /// The error's message.
    pub fn message(&self) -> (m: String)
        ensures
            m@ == schema_error_text(self@),
    {
        match self {
            SchemaError::InvalidRule(k, detail) => {
                let mut m = string_of("invalid ");
                m.append(k);
                m.append(" rule: ");
                m.append(detail.as_str());
                m
            },
            SchemaError::InvalidPath(p, detail) => {
                let mut m = string_of("invalid path '");
                m.append(p.as_str());
                m.append("': ");
                m.append(detail.as_str());
                m
            },
            SchemaError::JsonSchemaCompilation(detail) => {
                let mut m = string_of("JSON Schema compilation failed: ");
                m.append(detail.as_str());
                m
            },
        }
    }
}

// ----------------------------------------------------------------------------
// Reading rule objects
// ----------------------------------------------------------------------------
/// What a rule field holds.
#[derive(Clone, Copy)]
pub enum FieldKind {
    /// A string.
    Str,
    /// A list of strings.
    StrList,
    /// A string, or a list of strings.
    StrOrList,
    /// A string, or null or absent.
    OptStr,
    /// A count (a non-negative integer).
    Count,
    /// A count, or null or absent.
    OptCount,
}

/// Is `t` the text of an integer (digits, perhaps after a minus)?
pub open spec fn is_integer_text(t: Seq<char>) -> bool {
    forall|k: int| 0 <= k < t.len() ==> is_digit(#[trigger] t[k]) || t[k] == '-'
}

/// The lowercase hexadecimal digit for a value below sixteen.
pub open spec fn hex_digit(d: nat) -> char {
    if d < 10 {
        ((48 + d) as u8) as char
    } else {
        ((87 + d) as u8) as char
    }
}

/// How Rust's `Debug` writes an ASCII character inside a string: `\0`, `\t`, `\r`,
/// `\n`, `\"` and `\\` escaped, other control characters as `\u{..}`; every other
/// character as itself.
pub open spec fn debug_char(c: char) -> Seq<char> {
    if c == '\0' {
        seq!['\\', '0']
    } else if c == '\t' {
        seq!['\\', 't']
    } else if c == '\r' {
        seq!['\\', 'r']
    } else if c == '\n' {
        seq!['\\', 'n']
    } else if c == '"' {
        seq!['\\', '"']
    } else if c == '\\' {
        seq!['\\', '\\']
    } else if (c as u32) < 0x20 || c as u32 == 0x7f {
        let n = c as u32 as nat;
        if n < 16 {
            seq!['\\', 'u', '{', hex_digit(n), '}']
        } else {
            seq!['\\', 'u', '{', hex_digit(n / 16), hex_digit(n % 16), '}']
        }
    } else {
        seq![c]
    }
}

/// A string as Rust's `Debug` writes its ASCII characters (between the quotes).
pub open spec fn debug_text(s: Seq<char>) -> Seq<char>
    decreases s.len(),
{
    if s.len() == 0 {
        seq![]
    } else {
        debug_text(s.drop_last()) + debug_char(s.last())
    }
}

/// The lowercase hexadecimal digit for a value below sixteen.
fn hex_digit_char(d: u32) -> (c: char)
    requires
        d < 16,
    ensures
        c == hex_digit(d as nat),
{
    if d < 10 {
        ((48 + d) as u8) as char
    } else {
        ((87 + d) as u8) as char
    }
}

/// Appends one character as `debug_char` writes it.
fn push_debug_char(out: &mut String, c: char)
    ensures
        final(out)@ == old(out)@ + debug_char(c),
{
    let ghost before = out@;
    if c == '\0' {
        out.push('\\');
        out.push('0');
    } else if c == '\t' {
        out.push('\\');
        out.push('t');
    } else if c == '\r' {
        out.push('\\');
        out.push('r');
    } else if c == '\n' {
        out.push('\\');
        out.push('n');
    } else if c == '"' {
        out.push('\\');
        out.push('"');
    } else if c == '\\' {
        out.push('\\');
        out.push('\\');
    } else if (c as u32) < 0x20 || c as u32 == 0x7f {
        let n = c as u32;
        out.push('\\');
        out.push('u');
        out.push('{');
        if n < 16 {
            out.push(hex_digit_char(n));
        } else {
            out.push(hex_digit_char(n / 16));
            out.push(hex_digit_char(n % 16));
        }
        out.push('}');
    } else {
        out.push(c);
    }
    assert(out@ =~= before + debug_char(c));
}

/// Appends a string as `debug_text` writes it.
fn push_debug_text(out: &mut String, s: &str)
    ensures
        final(out)@ == old(out)@ + debug_text(s@),
{
    let cs = chars_of(s);
    let ghost start = out@;
    let mut i: usize = 0;
    assert(cs@.take(0) =~= Seq::<char>::empty());
    while i < cs.len()
        invariant
            cs@ == s@,
            i <= cs.len(),
            out@ == start + debug_text(cs@.take(i as int)),
        decreases cs.len() - i,
    {
        push_debug_char(out, cs[i]);
        assert(cs@.take(i + 1).drop_last() =~= cs@.take(i as int));
        assert(cs@.take(i + 1).last() == cs@[i as int]);
        assert(out@ =~= start + debug_text(cs@.take(i + 1)));
        i += 1;
    }
    assert(cs@.take(i as int) =~= cs@);
}

/// How a value is described when it has the wrong type.
pub open spec fn describe(v: JsonView) -> Seq<char> {
    match v {
        JsonView::Null => "null"@,
        JsonView::Bool(b) => if b {
            "boolean `true`"@
        } else {
            "boolean `false`"@
        },
        JsonView::Number(t) => if is_integer_text(t) {
            "integer `"@ + t + "`"@
        } else {
            "floating point `"@ + t + "`"@
        },
        JsonView::Str(s) => "string \""@ + debug_text(s) + "\""@,
        JsonView::Array(_) => "sequence"@,
        JsonView::Object(_) => "map"@,
    }
}

/// The message for a value of the wrong type.
pub open spec fn invalid_type(v: JsonView, expected: Seq<char>) -> Seq<char> {
    "invalid type: "@ + describe(v) + ", expected "@ + expected
}

/// The first element of `xs` from `i` on that is not a string.
pub open spec fn first_non_string(xs: Seq<JsonView>, i: int) -> int
    decreases xs.len() - i,
{
    if i < 0 || i >= xs.len() {
        -1
    } else if !(xs[i] is Str) {
        i
    } else {
        first_non_string(xs, i + 1)
    }
}

/// The count a number's text denotes, when it is a count that fits in a `usize`.
pub open spec fn count_of(t: Seq<char>) -> Option<nat> {
    if t.len() > 0 && all_digits(t) && digits_value(t) <= usize::MAX {
        Some(digits_value(t))
    } else {
        None
    }
}

/// What is wrong with `v` as a field of kind `kind`, if anything.
pub open spec fn field_error(kind: FieldKind, v: JsonView) -> Option<Seq<char>> {
    match kind {
        FieldKind::Str => if v is Str {
            None
        } else {
            Some(invalid_type(v, "a string"@))
        },
        FieldKind::StrList => match v {
            JsonView::Array(xs) => {
                let k = first_non_string(xs, 0);
                if k >= 0 {
                    Some(invalid_type(xs[k], "a string"@))
                } else {
                    None
                }
            },
            _ => Some(invalid_type(v, "a sequence"@)),
        },
        FieldKind::StrOrList => match v {
            JsonView::Str(_) => None,
            JsonView::Array(xs) => if first_non_string(xs, 0) < 0 {
                None
            } else {
                Some("data did not match any variant of untagged enum StringOrVec"@)
            },
            _ => Some("data did not match any variant of untagged enum StringOrVec"@),
        },
        FieldKind::OptStr => match v {
            JsonView::Null => None,
            JsonView::Str(_) => None,
            _ => Some(invalid_type(v, "a string"@)),
        },
        FieldKind::Count => count_error(v),
        FieldKind::OptCount => if v is Null {
            None
        } else {
            count_error(v)
        },
    }
}

/// What is wrong with `v` as a count, if anything.
pub open spec fn count_error(v: JsonView) -> Option<Seq<char>> {
    match v {
        JsonView::Number(t) => if count_of(t) is Some {
            None
        } else if is_integer_text(t) {
            Some("invalid value: integer `"@ + t + "`, expected usize"@)
        } else {
            Some(invalid_type(v, "usize"@))
        },
        _ => Some(invalid_type(v, "usize"@)),
    }
}

/// Is a field of this kind required?
pub open spec fn required(kind: FieldKind) -> bool {
    kind is Str || kind is StrList || kind is StrOrList
}

/// The index of field `key` among the field names, or -1.
pub open spec fn field_index(names: Seq<Seq<char>>, key: Seq<char>) -> int
    decreases names.len(),
{
    if names.len() == 0 {
        -1
    } else if names.last() == key {
        names.len() - 1
    } else {
        field_index(names.drop_last(), key)
    }
}

/// Reads the members of a rule object from `i` on, in order, with the fields in
/// `seen` already read: the first problem, if any. Members that are not fields are
/// ignored; a field given twice, a field of the wrong type, and then a missing
/// required field (in the order of `names`) are problems.
pub open spec fn fields_error(
    es: Seq<(Seq<char>, JsonView)>,
    i: int,
    names: Seq<Seq<char>>,
    kinds: Seq<FieldKind>,
    seen: Set<int>,
) -> Option<Seq<char>>
    decreases es.len() - i,
{
    if i < 0 || i >= es.len() {
        missing_error(names, kinds, seen, 0)
    } else {
        let f = field_index(names, es[i].0);
        if f < 0 {
            fields_error(es, i + 1, names, kinds, seen)
        } else if seen.contains(f) {
            Some("duplicate field `"@ + names[f] + "`"@)
        } else {
            match field_error(kinds[f], es[i].1) {
                Some(e) => Some(e),
                None => fields_error(es, i + 1, names, kinds, seen.insert(f)),
            }
        }
    }
}

/// The first required field from `j` on that was not read.
pub open spec fn missing_error(
    names: Seq<Seq<char>>,
    kinds: Seq<FieldKind>,
    seen: Set<int>,
    j: int,
) -> Option<Seq<char>>
    decreases names.len() - j,
{
    if j < 0 || j >= names.len() {
        None
    } else if required(kinds[j]) && !seen.contains(j) {
        Some("missing field `"@ + names[j] + "`"@)
    } else {
        missing_error(names, kinds, seen, j + 1)
    }
}

/// What is wrong with `v` as a rule object with the given fields, if anything.
pub open spec fn rule_error(
    v: JsonView,
    struct_name: Seq<char>,
    names: Seq<Seq<char>>,
    kinds: Seq<FieldKind>,
) -> Option<Seq<char>> {
    match v {
        JsonView::Object(es) => fields_error(es, 0, names, kinds, Set::empty()),
        JsonView::Array(xs) => elements_error(xs, 0, struct_name, kinds),
        _ => Some(invalid_type(v, "struct "@ + struct_name)),
    }
}

/// Does a field of this kind have a default when it is left out (the `min` count)?
pub open spec fn has_default(kind: FieldKind) -> bool {
    kind is Count
}

/// The message for a list that is too short or too long.
pub open spec fn invalid_length(len: nat, expected: Seq<char>) -> Seq<char> {
    "invalid length "@ + decimal(len) + ", expected "@ + expected
}

/// What a rule given as a list of its field values must hold.
pub open spec fn elements_expected(struct_name: Seq<char>, n: nat) -> Seq<char> {
    if n == 1 {
        "struct "@ + struct_name + " with 1 element"@
    } else {
        "struct "@ + struct_name + " with "@ + decimal(n) + " elements"@
    }
}

/// Reads a rule object given as the list `xs` of its field values, in field order,
/// from field `k` on: the first problem, if any. A value of the wrong type, a
/// missing value without a default, and then values left over are problems.
pub open spec fn elements_error(
    xs: Seq<JsonView>,
    k: int,
    struct_name: Seq<char>,
    kinds: Seq<FieldKind>,
) -> Option<Seq<char>>
    decreases kinds.len() - k,
{
    if k < 0 || k >= kinds.len() {
        if xs.len() > kinds.len() {
            Some(invalid_length(xs.len(), "fewer elements in array"@))
        } else {
            None
        }
    } else if k < xs.len() {
        match field_error(kinds[k], xs[k]) {
            Some(e) => Some(e),
            None => elements_error(xs, k + 1, struct_name, kinds),
        }
    } else if has_default(kinds[k]) {
        elements_error(xs, k + 1, struct_name, kinds)
    } else {
        Some(invalid_length(k as nat, elements_expected(struct_name, kinds.len())))
    }
}

/// What is wrong with `v` as a list of rule objects, if anything: the first problem.
#[verifier::opaque]
pub open spec fn rules_error(
    v: JsonView,
    struct_name: Seq<char>,
    names: Seq<Seq<char>>,
    kinds: Seq<FieldKind>,
) -> Option<Seq<char>> {
    match v {
        JsonView::Array(xs) => rules_error_from(xs, 0, struct_name, names, kinds),
        _ => Some(invalid_type(v, "a sequence"@)),
    }
}

pub open spec fn rules_error_from(
    xs: Seq<JsonView>,
    i: int,
    struct_name: Seq<char>,
    names: Seq<Seq<char>>,
    kinds: Seq<FieldKind>,
) -> Option<Seq<char>>
    decreases xs.len() - i,
{
    if i < 0 || i >= xs.len() {
        None
    } else {
        match rule_error(xs[i], struct_name, names, kinds) {
            Some(e) => Some(e),
            None => rules_error_from(xs, i + 1, struct_name, names, kinds),
        }
    }
}

/// Is `t` the text of an integer?
fn integer_text(t: &str) -> (r: bool)
    ensures
        r == is_integer_text(t@),
{
    let cs = chars_of(t);
    let mut k: usize = 0;
    while k < cs.len()
        invariant
            cs@ == t@,
            k <= cs.len(),
            forall|m: int| 0 <= m < k ==> is_digit(#[trigger] cs@[m]) || cs@[m] == '-',
        decreases cs.len() - k,
    {
        if !(('0' <= cs[k] && cs[k] <= '9') || cs[k] == '-') {
            return false;
        }
        k += 1;
    }
    true
}

/// How a value is described when it has the wrong type.
fn describe_value(v: &JsonValue) -> (r: String)
    ensures
        r@ == describe(v@),
{
    match v {
        JsonValue::Null => string_of("null"),
        JsonValue::Bool(b) => if *b {
            string_of("boolean `true`")
        } else {
            string_of("boolean `false`")
        },
        JsonValue::Number(n) => {
            let mut r = if integer_text(n.text()) {
                string_of("integer `")
            } else {
                string_of("floating point `")
            };
            r.append(n.text());
            r.append("`");
            r
        },
        JsonValue::Str(s) => {
            let mut r = string_of("string \"");
            push_debug_text(&mut r, s.as_str());
            r.append("\"");
            r
        },
        JsonValue::Array(_) => string_of("sequence"),
        JsonValue::Object(_) => string_of("map"),
    }
}

/// The message for a value of the wrong type.
fn invalid_type_message(v: &JsonValue, expected: &str) -> (r: String)
    ensures
        r@ == invalid_type(v@, expected@),
{
    let mut r = string_of("invalid type: ");
    let d = describe_value(v);
    r.append(d.as_str());
    r.append(", expected ");
    r.append(expected);
    r
}

/// The first element that is not a string.
fn first_non_string_index(xs: &Vec<JsonValue>) -> (r: Option<usize>)
    ensures
        match r {
            Some(k) => k < xs.len() && first_non_string(xs@.map_values(|x: JsonValue| x@), 0) == k,
            None => first_non_string(xs@.map_values(|x: JsonValue| x@), 0) == -1,
        },
{
    let ghost vs = xs@.map_values(|x: JsonValue| x@);
    let mut k: usize = 0;
    while k < xs.len()
        invariant
            vs == xs@.map_values(|x: JsonValue| x@),
            k <= xs.len(),
            first_non_string(vs, k as int) == first_non_string(vs, 0),
        decreases xs.len() - k,
    {
        if !matches!(xs[k], JsonValue::Str(_)) {
            assert(!(vs[k as int] is Str));
            return Some(k);
        }
        assert(vs[k as int] is Str);
        k += 1;
    }
    None
}

/// The views of the elements of an array value.
proof fn lemma_elements(v: &JsonValue)
    requires
        v is Array,
    ensures
        v@->Array_0 == v->Array_0@.map_values(|x: JsonValue| x@),
{
    lemma_array_view(v);
    assert(v@->Array_0 =~= v->Array_0@.map_values(|x: JsonValue| x@));
}

/// The count a number's text denotes.
fn count_value(t: &str) -> (r: Option<usize>)
    ensures
        match r {
            Some(n) => count_of(t@) == Some(n as nat),
            None => count_of(t@) is None,
        },
{
    let cs = chars_of(t);
    if cs.len() == 0 || cs[0] == '+' {
        proof {
            if cs.len() > 0 {
                assert(!is_digit(t@[0]));
            }
        }
        return None;
    }
    proof {
        assert(unsigned_part(t@) == t@);
        assert(cs@.subrange(0, cs@.len() as int) == cs@);
    }
    parse_usize(&cs, 0, cs.len())
}

/// What is wrong with `v` as a count, if anything.
fn count_problem(v: &JsonValue) -> (r: Option<String>)
    ensures
        opt_view(r) == count_error(v@),
{
    match v {
        JsonValue::Number(n) => {
            if count_value(n.text()).is_some() {
                None
            } else if integer_text(n.text()) {
                let mut m = string_of("invalid value: integer `");
                m.append(n.text());
                m.append("`, expected usize");
                Some(m)
            } else {
                Some(invalid_type_message(v, "usize"))
            }
        },
        _ => Some(invalid_type_message(v, "usize")),
    }
}

/// What is wrong with `v` as a field of kind `kind`, if anything.
fn field_problem(kind: FieldKind, v: &JsonValue) -> (r: Option<String>)
    ensures
        opt_view(r) == field_error(kind, v@),
{
    match kind {
        FieldKind::Str => if matches!(v, JsonValue::Str(_)) {
            None
        } else {
            Some(invalid_type_message(v, "a string"))
        },
        FieldKind::StrList => match v {
            JsonValue::Array(xs) => {
                proof {
                    lemma_elements(v);
                }
                match first_non_string_index(xs) {
                    Some(k) => Some(invalid_type_message(&xs[k], "a string")),
                    None => None,
                }
            },
            _ => Some(invalid_type_message(v, "a sequence")),
        },
        FieldKind::StrOrList => match v {
            JsonValue::Str(_) => None,
            JsonValue::Array(xs) => {
                proof {
                    lemma_elements(v);
                }
                match first_non_string_index(xs) {
                    Some(_) => Some(
                        string_of("data did not match any variant of untagged enum StringOrVec"),
                    ),
                    None => None,
                }
            },
            _ => Some(string_of("data did not match any variant of untagged enum StringOrVec")),
        },
        FieldKind::OptStr => match v {
            JsonValue::Null => None,
            JsonValue::Str(_) => None,
            _ => Some(invalid_type_message(v, "a string")),
        },
        FieldKind::Count => count_problem(v),
        FieldKind::OptCount => if matches!(v, JsonValue::Null) {
            None
        } else {
            count_problem(v)
        },
    }
}

/// The views of an object's members.
pub open spec fn members_view(es: Seq<Member>) -> Seq<(Seq<char>, JsonView)> {
    es.map_values(|m: Member| (m.key@, m.value@))
}

proof fn lemma_members(v: &JsonValue)
    requires
        v is Object,
    ensures
        v@->Object_0 == members_view(v->Object_0@),
{
    lemma_object_view(v);
    assert(v@->Object_0 =~= members_view(v->Object_0@));
}

/// The views of a list of names.
pub open spec fn names_view(names: Seq<String>) -> Seq<Seq<char>> {
    names.map_values(|n: String| n@)
}

/// The position of field `key` among the names.
fn find_field(names: &Vec<String>, key: &String) -> (r: Option<usize>)
    ensures
        match r {
            Some(f) => f < names.len() && field_index(names_view(names@), key@) == f,
            None => field_index(names_view(names@), key@) == -1,
        },
{
    let ghost ns = names_view(names@);
    let mut k = names.len();
    assert(ns.take(k as int) == ns);
    while k > 0
        invariant
            ns == names_view(names@),
            k <= names.len(),
            field_index(ns.take(k as int), key@) == field_index(ns, key@),
        decreases k,
    {
        let ghost t = ns.take(k as int);
        assert(t.drop_last() == ns.take(k - 1));
        assert(t.last() == names@[k - 1]@);
        if names[k - 1] == *key {
            return Some(k - 1);
        }
        k -= 1;
    }
    assert(ns.take(0).len() == 0);
    None
}

/// The set of field positions marked in `seen`.
pub open spec fn seen_set(seen: Seq<bool>) -> Set<int> {
    Set::new(|f: int| 0 <= f < seen.len() && seen[f])
}

/// The first problem with the members of a rule object.
fn fields_problem(es: &Vec<Member>, names: &Vec<String>, kinds: &Vec<FieldKind>) -> (r: Option<String>)
    requires
        names.len() == kinds.len(),
    ensures
        opt_view(r) == fields_error(
            members_view(es@),
            0,
            names_view(names@),
            kinds@,
            Set::empty(),
        ),
{
    let ghost mv = members_view(es@);
    let ghost ns = names_view(names@);
    let mut seen: Vec<bool> = Vec::new();
    while seen.len() < names.len()
        invariant
            seen.len() <= names.len(),
            forall|f: int| 0 <= f < seen.len() ==> !seen@[f],
        decreases names.len() - seen.len(),
    {
        seen.push(false);
    }
    assert(seen_set(seen@) =~= Set::<int>::empty());
    let mut i: usize = 0;
    while i < es.len()
        invariant
            mv == members_view(es@),
            ns == names_view(names@),
            names.len() == kinds.len() == seen.len(),
            i <= es.len(),
            fields_error(mv, i as int, ns, kinds@, seen_set(seen@)) == fields_error(
                mv,
                0,
                ns,
                kinds@,
                Set::empty(),
            ),
        decreases es.len() - i,
    {
        match find_field(names, &es[i].key) {
            None => {},
            Some(f) => {
                if seen[f] {
                    let mut m = string_of("duplicate field `");
                    m.append(names[f].as_str());
                    m.append("`");
                    assert(seen_set(seen@).contains(f as int));
                    return Some(m);
                }
                match field_problem(kinds[f], &es[i].value) {
                    Some(e) => {
                        return Some(e);
                    },
                    None => {},
                }
                let ghost before = seen_set(seen@);
                seen.set(f, true);
                assert(seen_set(seen@) =~= before.insert(f as int));
            },
        }
        i += 1;
    }
    let mut j: usize = 0;
    while j < names.len()
        invariant
            ns == names_view(names@),
            names.len() == kinds.len() == seen.len(),
            j <= names.len(),
            i == es.len(),
            mv == members_view(es@),
            missing_error(ns, kinds@, seen_set(seen@), j as int) == fields_error(
                mv,
                0,
                ns,
                kinds@,
                Set::empty(),
            ),
        decreases names.len() - j,
    {
        let req = match kinds[j] {
            FieldKind::Str | FieldKind::StrList | FieldKind::StrOrList => true,
            _ => false,
        };
        if req && !seen[j] {
            let mut m = string_of("missing field `");
            m.append(names[j].as_str());
            m.append("`");
            return Some(m);
        }
        j += 1;
    }
    None
}

/// The message for a list that is too short or too long.
fn invalid_length_message(len: usize, expected: &str) -> (r: String)
    ensures
        r@ == invalid_length(len as nat, expected@),
{
    let mut m = string_of("invalid length ");
    push_decimal(&mut m, len);
    m.append(", expected ");
    m.append(expected);
    m
}

/// What a rule given as a list of its field values must hold.
fn elements_expected_text(struct_name: &str, n: usize) -> (r: String)
    ensures
        r@ == elements_expected(struct_name@, n as nat),
{
    let mut m = string_of("struct ");
    m.append(struct_name);
    if n == 1 {
        m.append(" with 1 element");
    } else {
        m.append(" with ");
        push_decimal(&mut m, n);
        m.append(" elements");
    }
    m
}

/// The first problem with a rule object given as the list of its field values.
fn elements_problem(xs: &Vec<JsonValue>, struct_name: &str, kinds: &Vec<FieldKind>) -> (r: Option<String>)
    ensures
        opt_view(r) == elements_error(xs@.map_values(|x: JsonValue| x@), 0, struct_name@, kinds@),
{
    let ghost vs = xs@.map_values(|x: JsonValue| x@);
    let mut k: usize = 0;
    while k < kinds.len()
        invariant
            vs == xs@.map_values(|x: JsonValue| x@),
            k <= kinds.len(),
            elements_error(vs, k as int, struct_name@, kinds@) == elements_error(
                vs,
                0,
                struct_name@,
                kinds@,
            ),
        decreases kinds.len() - k,
    {
        if k < xs.len() {
            match field_problem(kinds[k], &xs[k]) {
                Some(e) => {
                    return Some(e);
                },
                None => {},
            }
        } else if !matches!(kinds[k], FieldKind::Count) {
            let expected = elements_expected_text(struct_name, kinds.len());
            return Some(invalid_length_message(k, expected.as_str()));
        }
        k += 1;
    }
    if xs.len() > kinds.len() {
        Some(invalid_length_message(xs.len(), "fewer elements in array"))
    } else {
        None
    }
}

/// What is wrong with `v` as a rule object, if anything.
fn rule_problem(v: &JsonValue, struct_name: &str, names: &Vec<String>, kinds: &Vec<FieldKind>) -> (r: Option<String>)
    requires
        names.len() == kinds.len(),
    ensures
        opt_view(r) == rule_error(v@, struct_name@, names_view(names@), kinds@),
{
    match v {
        JsonValue::Object(es) => {
            proof {
                lemma_members(v);
            }
            fields_problem(es, names, kinds)
        },
        JsonValue::Array(xs) => {
            proof {
                lemma_elements(v);
            }
            elements_problem(xs, struct_name, kinds)
        },
        _ => {
            let mut expected = string_of("struct ");
            expected.append(struct_name);
            Some(invalid_type_message(v, expected.as_str()))
        },
    }
}

/// What is wrong with `v` as a list of rule objects, if anything.
fn rules_problem(v: &JsonValue, struct_name: &str, names: &Vec<String>, kinds: &Vec<FieldKind>) -> (r: Option<String>)
    requires
        names.len() == kinds.len(),
    ensures
        opt_view(r) == rules_error(v@, struct_name@, names_view(names@), kinds@),
{
    reveal(rules_error);
    match v {
        JsonValue::Array(xs) => {
            proof {
                lemma_elements(v);
            }
            let ghost vs = v@->Array_0;
            let mut i: usize = 0;
            while i < xs.len()
                invariant
                    vs == xs@.map_values(|x: JsonValue| x@),
                    v@ is Array,
                    vs == v@->Array_0,
                    names.len() == kinds.len(),
                    i <= xs.len(),
                    rules_error_from(vs, i as int, struct_name@, names_view(names@), kinds@)
                        == rules_error_from(vs, 0, struct_name@, names_view(names@), kinds@),
                decreases xs.len() - i,
            {
                assert(vs[i as int] == xs@[i as int]@);
                match rule_problem(&xs[i], struct_name, names, kinds) {
                    Some(e) => {
                        proof {
                            reveal(rules_error);
                        }
                        return Some(e);
                    },
                    None => {},
                }
                i += 1;
            }
            None
        },
        _ => Some(invalid_type_message(v, "a sequence")),
    }
}


// ----------------------------------------------------------------------------
// The rules that a schema states
// ----------------------------------------------------------------------------
/// The fields of an `x-uniqueAcross` rule object.
pub open spec fn unique_names() -> Seq<Seq<char>> {
    seq!["paths"@, "message"@]
}

pub open spec fn unique_kinds() -> Seq<FieldKind> {
    seq![FieldKind::StrList, FieldKind::OptStr]
}

/// The fields of an `x-references` rule object.
pub open spec fn references_names() -> Seq<Seq<char>> {
    seq!["from"@, "to"@, "message"@]
}

pub open spec fn references_kinds() -> Seq<FieldKind> {
    seq![FieldKind::Str, FieldKind::StrOrList, FieldKind::OptStr]
}

/// The fields of an `x-referencedBy` rule object.
pub open spec fn referenced_by_names() -> Seq<Seq<char>> {
    seq!["target"@, "from"@, "min"@, "max"@, "message"@]
}

pub open spec fn referenced_by_kinds() -> Seq<FieldKind> {
    seq![FieldKind::Str, FieldKind::StrOrList, FieldKind::Count, FieldKind::OptCount, FieldKind::OptStr]
}

/// The value of a rule's field: the member `name` of a rule object, or the value
/// at position `pos` of a rule given as the list of its field values.
pub open spec fn rule_field(obj: JsonView, name: Seq<char>, pos: int) -> Option<JsonView> {
    match obj {
        JsonView::Object(_) => member(obj, name),
        JsonView::Array(_) => element(obj, pos),
        _ => None,
    }
}

/// The string held by a rule's field.
pub open spec fn str_field(obj: JsonView, name: Seq<char>, pos: int) -> Seq<char> {
    match rule_field(obj, name, pos) {
        Some(JsonView::Str(s)) => s,
        _ => Seq::empty(),
    }
}

/// The strings of a list of values.
pub open spec fn strings_of(xs: Seq<JsonView>) -> Seq<Seq<char>> {
    xs.map_values(
        |x: JsonView|
            match x {
                JsonView::Str(s) => s,
                _ => Seq::empty(),
            },
    )
}

/// The strings held by field `name`: the one string, or each string of the list.
pub open spec fn str_list_field(obj: JsonView, name: Seq<char>, pos: int) -> Seq<Seq<char>> {
    match rule_field(obj, name, pos) {
        Some(JsonView::Str(s)) => seq![s],
        Some(JsonView::Array(xs)) => strings_of(xs),
        _ => seq![],
    }
}

/// The string held by an optional field, when there is one.
pub open spec fn opt_str_field(obj: JsonView, name: Seq<char>, pos: int) -> Option<Seq<char>> {
    match rule_field(obj, name, pos) {
        Some(JsonView::Str(s)) => Some(s),
        _ => None,
    }
}

/// The count that a number denotes.
pub open spec fn count_in(v: JsonView) -> nat {
    match v {
        JsonView::Number(t) => match count_of(t) {
            Some(n) => n,
            None => 0,
        },
        _ => 0,
    }
}

/// The `min` of a referencedBy rule object: 1 when absent.
pub open spec fn min_field(obj: JsonView) -> nat {
    match rule_field(obj, "min"@, 2) {
        Some(v) => count_in(v),
        None => 1,
    }
}

/// The `max` of a referencedBy rule object: none when absent or null.
pub open spec fn max_field(obj: JsonView) -> Option<nat> {
    match rule_field(obj, "max"@, 3) {
        Some(JsonView::Number(t)) => count_of(t),
        _ => None,
    }
}

/// The result of parsing one path of a rule.
pub open spec fn rule_path(p: Seq<char>) -> Result<Seq<SegmentView>, SchemaErrorView> {
    match parse_path(p) {
        Ok(segs) => Ok(segs),
        Err(e) => Err(SchemaErrorView::InvalidPath(p, path_error_text(e))),
    }
}

/// Parses the paths `ps` from `i` on, after the parsed paths `acc`: all of them, or
/// the error of the first that does not parse.
pub open spec fn rule_paths_from(
    ps: Seq<Seq<char>>,
    i: int,
    acc: Seq<Seq<SegmentView>>,
) -> Result<Seq<Seq<SegmentView>>, SchemaErrorView>
    decreases ps.len() - i,
{
    if i < 0 || i >= ps.len() {
        Ok(acc)
    } else {
        match rule_path(ps[i]) {
            Ok(p) => rule_paths_from(ps, i + 1, acc.push(p)),
            Err(e) => Err(e),
        }
    }
}

/// Parses a list of paths.
pub open spec fn rule_paths(ps: Seq<Seq<char>>) -> Result<Seq<Seq<SegmentView>>, SchemaErrorView> {
    rule_paths_from(ps, 0, seq![])
}

/// The `x-uniqueAcross` rule that a (well-formed) rule object states.
#[verifier::opaque]
pub open spec fn unique_rule(obj: JsonView) -> Result<UniqueAcrossView, SchemaErrorView> {
    match rule_paths(str_list_field(obj, "paths"@, 0)) {
        Ok(ps) => Ok(UniqueAcrossView { paths: ps, message: opt_str_field(obj, "message"@, 1) }),
        Err(e) => Err(e),
    }
}

/// The `x-references` rule that a (well-formed) rule object states.
#[verifier::opaque]
pub open spec fn references_rule(obj: JsonView) -> Result<ReferencesView, SchemaErrorView> {
    match rule_path(str_field(obj, "from"@, 0)) {
        Err(e) => Err(e),
        Ok(from) => match rule_paths(str_list_field(obj, "to"@, 1)) {
            Ok(to) => Ok(ReferencesView { from, to, message: opt_str_field(obj, "message"@, 2) }),
            Err(e) => Err(e),
        },
    }
}

/// The `x-referencedBy` rule that a (well-formed) rule object states.
#[verifier::opaque]
pub open spec fn referenced_by_rule(obj: JsonView) -> Result<ReferencedByView, SchemaErrorView> {
    match rule_path(str_field(obj, "target"@, 0)) {
        Err(e) => Err(e),
        Ok(target) => match rule_paths(str_list_field(obj, "from"@, 1)) {
            Ok(from) => Ok(
                ReferencedByView {
                    target,
                    from,
                    min: min_field(obj),
                    max: max_field(obj),
                    message: opt_str_field(obj, "message"@, 4),
                },
            ),
            Err(e) => Err(e),
        },
    }
}

/// The `x-uniqueAcross` rules of the objects `xs` from `i` on, after `acc`.
pub open spec fn unique_rules_from(xs: Seq<JsonView>, i: int, acc: Seq<UniqueAcrossView>) -> Result<
    Seq<UniqueAcrossView>,
    SchemaErrorView,
>
    decreases xs.len() - i,
{
    if i < 0 || i >= xs.len() {
        Ok(acc)
    } else {
        match unique_rule(xs[i]) {
            Ok(r) => unique_rules_from(xs, i + 1, acc.push(r)),
            Err(e) => Err(e),
        }
    }
}

/// The `x-references` rules of the objects `xs` from `i` on, after `acc`.
pub open spec fn references_rules_from(xs: Seq<JsonView>, i: int, acc: Seq<ReferencesView>) -> Result<
    Seq<ReferencesView>,
    SchemaErrorView,
>
    decreases xs.len() - i,
{
    if i < 0 || i >= xs.len() {
        Ok(acc)
    } else {
        match references_rule(xs[i]) {
            Ok(r) => references_rules_from(xs, i + 1, acc.push(r)),
            Err(e) => Err(e),
        }
    }
}

/// The `x-referencedBy` rules of the objects `xs` from `i` on, after `acc`.
pub open spec fn referenced_by_rules_from(
    xs: Seq<JsonView>,
    i: int,
    acc: Seq<ReferencedByView>,
) -> Result<Seq<ReferencedByView>, SchemaErrorView>
    decreases xs.len() - i,
{
    if i < 0 || i >= xs.len() {
        Ok(acc)
    } else {
        match referenced_by_rule(xs[i]) {
            Ok(r) => referenced_by_rules_from(xs, i + 1, acc.push(r)),
            Err(e) => Err(e),
        }
    }
}

/// The `x-uniqueAcross` rules that the keyword's value `raw` states: an invalid-rule error
/// when `raw` is not a list of well-formed rule objects; else each rule in order, or
/// the error of the first path that does not parse.
pub open spec fn unique_across_of(raw: JsonView) -> Result<Seq<UniqueAcrossView>, SchemaErrorView> {
    match rules_error(raw, "UniqueAcrossRaw"@, unique_names(), unique_kinds()) {
        Some(m) => Err(SchemaErrorView::InvalidRule("x-uniqueAcross"@, m)),
        None => unique_rules_from(raw->Array_0, 0, seq![]),
    }
}

/// The `x-uniqueAcross` rules of a schema: none without the keyword.
pub open spec fn unique_across_rules(schema: JsonView) -> Result<Seq<UniqueAcrossView>, SchemaErrorView> {
    match member(schema, "x-uniqueAcross"@) {
        None => Ok(seq![]),
        Some(raw) => unique_across_of(raw),
    }
}

/// The `x-references` rules that the keyword's value `raw` states: an invalid-rule error
/// when `raw` is not a list of well-formed rule objects; else each rule in order, or
/// the error of the first path that does not parse.
pub open spec fn references_of(raw: JsonView) -> Result<Seq<ReferencesView>, SchemaErrorView> {
    match rules_error(raw, "ReferencesRaw"@, references_names(), references_kinds()) {
        Some(m) => Err(SchemaErrorView::InvalidRule("x-references"@, m)),
        None => references_rules_from(raw->Array_0, 0, seq![]),
    }
}

/// The `x-references` rules of a schema: none without the keyword.
pub open spec fn references_rules(schema: JsonView) -> Result<Seq<ReferencesView>, SchemaErrorView> {
    match member(schema, "x-references"@) {
        None => Ok(seq![]),
        Some(raw) => references_of(raw),
    }
}

/// The `x-referencedBy` rules that the keyword's value `raw` states: an invalid-rule error
/// when `raw` is not a list of well-formed rule objects; else each rule in order, or
/// the error of the first path that does not parse.
pub open spec fn referenced_by_of(raw: JsonView) -> Result<Seq<ReferencedByView>, SchemaErrorView> {
    match rules_error(raw, "ReferencedByRaw"@, referenced_by_names(), referenced_by_kinds()) {
        Some(m) => Err(SchemaErrorView::InvalidRule("x-referencedBy"@, m)),
        None => referenced_by_rules_from(raw->Array_0, 0, seq![]),
    }
}

/// The `x-referencedBy` rules of a schema: none without the keyword.
pub open spec fn referenced_by_rules(schema: JsonView) -> Result<Seq<ReferencedByView>, SchemaErrorView> {
    match member(schema, "x-referencedBy"@) {
        None => Ok(seq![]),
        Some(raw) => referenced_by_of(raw),
    }
}

/// The rules of a schema, of the three keywords.
#[verifier::ext_equal]
pub struct RulesView {
    pub unique_across: Seq<UniqueAcrossView>,
    pub references: Seq<ReferencesView>,
    pub referenced_by: Seq<ReferencedByView>,
}

/// The rules of a schema: the keywords are read in the order `x-uniqueAcross`,
/// `x-references`, `x-referencedBy`, and the first error is the result.
pub open spec fn schema_rules(schema: JsonView) -> Result<RulesView, SchemaErrorView> {
    match unique_across_rules(schema) {
        Err(e) => Err(e),
        Ok(u) => match references_rules(schema) {
            Err(e) => Err(e),
            Ok(r) => match referenced_by_rules(schema) {
                Err(e) => Err(e),
                Ok(b) => Ok(RulesView { unique_across: u, references: r, referenced_by: b }),
            },
        },
    }
}

/// Is `k` the name of an extension keyword (it starts with `x-`)?
pub open spec fn is_extension_key(k: Seq<char>) -> bool {
    k.len() >= 2 && k[0] == 'x' && k[1] == '-'
}

/// Does the schema have a standard JSON Schema keyword: is it an object with a key
/// that does not start with `x-`?
pub open spec fn has_standard_keywords(schema: JsonView) -> bool {
    match schema {
        JsonView::Object(es) => exists|i: int| 0 <= i < es.len() && !is_extension_key(#[trigger] es[i].0),
        _ => false,
    }
}

// ----------------------------------------------------------------------------
// Reading the rules
// ----------------------------------------------------------------------------
/// The value of a member of an object.
fn field<'a>(obj: &'a JsonValue, name: &str) -> (r: Option<&'a JsonValue>)
    ensures
        match r {
            Some(v) => member(obj@, name@) == Some(v@),
            None => member(obj@, name@) is None,
        },
{
    obj.get_member(&string_of(name))
}

/// The value of a rule's field: by name in a rule object, by position in a list.
fn rule_value<'a>(obj: &'a JsonValue, name: &str, pos: usize) -> (r: Option<&'a JsonValue>)
    ensures
        match r {
            Some(v) => rule_field(obj@, name@, pos as int) == Some(v@),
            None => rule_field(obj@, name@, pos as int) is None,
        },
{
    match obj {
        JsonValue::Object(_) => field(obj, name),
        JsonValue::Array(_) => obj.get_element(pos),
        _ => None,
    }
}

/// The string held by a field.
fn read_str(obj: &JsonValue, name: &str, pos: usize) -> (r: String)
    ensures
        r@ == str_field(obj@, name@, pos as int),
{
    match rule_value(obj, name, pos) {
        Some(JsonValue::Str(s)) => s.clone(),
        _ => String::new(),
    }
}

/// The strings held by a field: the one string, or each string of the list.
fn read_str_list(obj: &JsonValue, name: &str, pos: usize) -> (r: Vec<String>)
    ensures
        names_view(r@) == str_list_field(obj@, name@, pos as int),
{
    match rule_value(obj, name, pos) {
        Some(v) => match v {
            JsonValue::Str(s) => {
                let r = vec![s.clone()];
                assert(names_view(r@) =~= seq![s@]);
                r
            },
            JsonValue::Array(xs) => {
                proof {
                    lemma_elements(v);
                }
                let ghost vs = v@->Array_0;
                let mut r: Vec<String> = Vec::new();
                let mut i: usize = 0;
                while i < xs.len()
                    invariant
                        vs == xs@.map_values(|x: JsonValue| x@),
                        i <= xs.len(),
                        names_view(r@) == strings_of(vs.take(i as int)),
                    decreases xs.len() - i,
                {
                    let ghost before = r@;
                    let s = match &xs[i] {
                        JsonValue::Str(s) => s.clone(),
                        _ => String::new(),
                    };
                    r.push(s);
                    assert(vs.take(i + 1) == vs.take(i as int).push(vs[i as int]));
                    assert(names_view(r@) =~= names_view(before).push(s@));
                    assert(strings_of(vs.take(i + 1)) =~= strings_of(vs.take(i as int)).push(
                        s@,
                    ));
                    i += 1;
                }
                assert(vs.take(i as int) == vs);
                r
            },
            _ => Vec::new(),
        },
        None => Vec::new(),
    }
}

/// The string held by an optional field.
fn read_opt_str(obj: &JsonValue, name: &str, pos: usize) -> (r: Option<String>)
    ensures
        opt_view(r) == opt_str_field(obj@, name@, pos as int),
{
    match rule_value(obj, name, pos) {
        Some(JsonValue::Str(s)) => Some(s.clone()),
        _ => None,
    }
}

/// The count held by a number.
fn read_count(v: &JsonValue) -> (r: usize)
    ensures
        r as nat == count_in(v@),
{
    match v {
        JsonValue::Number(n) => match count_value(n.text()) {
            Some(c) => c,
            None => 0,
        },
        _ => 0,
    }
}

/// The `min` of a referencedBy rule when it is left out.
fn default_min() -> (r: usize)
    ensures
        r == 1,
{
    1
}

/// A field that holds one string or a list of them.
enum StringOrVec {
    Single(String),
    Multiple(Vec<String>),
}

impl StringOrVec {
    /// The strings held.
    spec fn strings(self) -> Seq<Seq<char>> {
        match self {
            StringOrVec::Single(s) => seq![s@],
            StringOrVec::Multiple(v) => names_view(v@),
        }
    }

    /// The strings held, as a list.
    fn into_vec(self) -> (r: Vec<String>)
        ensures
            names_view(r@) == self.strings(),
    {
        match self {
            StringOrVec::Single(s) => {
                let r = vec![s];
                assert(names_view(r@) =~= self.strings());
                r
            },
            StringOrVec::Multiple(v) => v,
        }
    }
}

/// The strings held by a field that holds one string or a list of them.
fn read_string_or_vec(obj: &JsonValue, name: &str, pos: usize) -> (r: StringOrVec)
    ensures
        r.strings() == str_list_field(obj@, name@, pos as int),
{
    match rule_value(obj, name, pos) {
        Some(JsonValue::Str(s)) => StringOrVec::Single(s.clone()),
        _ => StringOrVec::Multiple(read_str_list(obj, name, pos)),
    }
}

/// The `min` of a referencedBy rule object.
fn read_min(obj: &JsonValue) -> (r: usize)
    ensures
        r as nat == min_field(obj@),
{
    match rule_value(obj, "min", 2) {
        Some(v) => read_count(v),
        None => default_min(),
    }
}

/// The `max` of a referencedBy rule object.
fn read_max(obj: &JsonValue) -> (r: Option<usize>)
    ensures
        match r {
            Some(n) => max_field(obj@) == Some(n as nat),
            None => max_field(obj@) is None,
        },
{
    match rule_value(obj, "max", 3) {
        Some(JsonValue::Number(n)) => count_value(n.text()),
        _ => None,
    }
}

/// Parses one path of a rule.
fn parse_rule_path(p: &String) -> (r: Result<JsonPath, SchemaError>)
    ensures
        match r {
            Ok(path) => rule_path(p@) == Ok::<Seq<SegmentView>, SchemaErrorView>(path@),
            Err(e) => rule_path(p@) == Err::<Seq<SegmentView>, SchemaErrorView>(e@),
        },
{
    match JsonPath::parse(p.as_str()) {
        Ok(path) => Ok(path),
        Err(e) => Err(SchemaError::InvalidPath(p.clone(), e.message())),
    }
}

/// Parses the paths of a rule, in order, stopping at the first that does not parse.
fn parse_rule_paths(ps: &Vec<String>) -> (r: Result<Vec<JsonPath>, SchemaError>)
    ensures
        match r {
            Ok(v) => rule_paths(names_view(ps@)) == Ok::<Seq<Seq<SegmentView>>, SchemaErrorView>(
                paths_view(v@),
            ),
            Err(e) => rule_paths(names_view(ps@)) == Err::<Seq<Seq<SegmentView>>, SchemaErrorView>(
                e@,
            ),
        },
{
    let ghost ns = names_view(ps@);
    let mut out: Vec<JsonPath> = Vec::new();
    let mut i: usize = 0;
    assert(paths_view(out@) =~= seq![]);
    while i < ps.len()
        invariant
            ns == names_view(ps@),
            i <= ps.len(),
            rule_paths_from(ns, i as int, paths_view(out@)) == rule_paths(ns),
        decreases ps.len() - i,
    {
        assert(ns[i as int] == ps@[i as int]@);
        match parse_rule_path(&ps[i]) {
            Ok(p) => {
                let ghost before = out@;
                out.push(p);
                assert(paths_view(out@) =~= paths_view(before).push(p@));
            },
            Err(e) => {
                return Err(e);
            },
        }
        i += 1;
    }
    Ok(out)
}

/// The `x-uniqueAcross` rule that a well-formed rule object states.
fn read_unique_rule(obj: &JsonValue) -> (r: Result<UniqueAcrossRule, SchemaError>)
    ensures
        match r {
            Ok(rule) => unique_rule(obj@) == Ok::<UniqueAcrossView, SchemaErrorView>(rule@),
            Err(e) => unique_rule(obj@) == Err::<UniqueAcrossView, SchemaErrorView>(e@),
        },
{
    reveal(unique_rule);
    let texts = read_str_list(obj, "paths", 0);
    match parse_rule_paths(&texts) {
        Ok(paths) => Ok(UniqueAcrossRule { paths, message: read_opt_str(obj, "message", 1) }),
        Err(e) => Err(e),
    }
}

/// The `x-references` rule that a well-formed rule object states.
fn read_references_rule(obj: &JsonValue) -> (r: Result<ReferencesRule, SchemaError>)
    ensures
        match r {
            Ok(rule) => references_rule(obj@) == Ok::<ReferencesView, SchemaErrorView>(rule@),
            Err(e) => references_rule(obj@) == Err::<ReferencesView, SchemaErrorView>(e@),
        },
{
    reveal(references_rule);
    let from_text = read_str(obj, "from", 0);
    let from = match parse_rule_path(&from_text) {
        Ok(p) => p,
        Err(e) => {
            return Err(e);
        },
    };
    let texts = read_string_or_vec(obj, "to", 1).into_vec();
    match parse_rule_paths(&texts) {
        Ok(to) => Ok(ReferencesRule { from, to, message: read_opt_str(obj, "message", 2) }),
        Err(e) => Err(e),
    }
}

/// The `x-referencedBy` rule that a well-formed rule object states.
fn read_referenced_by_rule(obj: &JsonValue) -> (r: Result<ReferencedByRule, SchemaError>)
    ensures
        match r {
            Ok(rule) => referenced_by_rule(obj@) == Ok::<ReferencedByView, SchemaErrorView>(rule@),
            Err(e) => referenced_by_rule(obj@) == Err::<ReferencedByView, SchemaErrorView>(e@),
        },
{
    reveal(referenced_by_rule);
    let target_text = read_str(obj, "target", 0);
    let target = match parse_rule_path(&target_text) {
        Ok(p) => p,
        Err(e) => {
            return Err(e);
        },
    };
    let texts = read_string_or_vec(obj, "from", 1).into_vec();
    match parse_rule_paths(&texts) {
        Ok(from) => {
            let max = read_max(obj);
            let r = ReferencedByRule {
                target,
                from,
                min: read_min(obj),
                max,
                message: read_opt_str(obj, "message", 4),
            };
            assert(r@.max == max_field(obj@));
            Ok(r)
        },
        Err(e) => Err(e),
    }
}

/// A list of rule objects without problems is a list.
proof fn lemma_rules_list(v: JsonView, struct_name: Seq<char>, names: Seq<Seq<char>>, kinds: Seq<FieldKind>)
    requires
        rules_error(v, struct_name, names, kinds) is None,
    ensures
        v is Array,
{
    reveal(rules_error);
}

/// The views of a list of `x-uniqueAcross` rules.
pub open spec fn unique_views(rs: Seq<UniqueAcrossRule>) -> Seq<UniqueAcrossView> {
    rs.map_values(|r: UniqueAcrossRule| r@)
}

/// The views of a list of `x-references` rules.
pub open spec fn references_views(rs: Seq<ReferencesRule>) -> Seq<ReferencesView> {
    rs.map_values(|r: ReferencesRule| r@)
}

/// The views of a list of `x-referencedBy` rules.
pub open spec fn referenced_by_views(rs: Seq<ReferencedByRule>) -> Seq<ReferencedByView> {
    rs.map_values(|r: ReferencedByRule| r@)
}

/// The `x-uniqueAcross` rules of a list of well-formed rule objects.
fn read_unique_rules(xs: &Vec<JsonValue>) -> (r: Result<Vec<UniqueAcrossRule>, SchemaError>)
    ensures
        match r {
            Ok(v) => unique_rules_from(xs@.map_values(|x: JsonValue| x@), 0, seq![]) == Ok::<
                Seq<UniqueAcrossView>,
                SchemaErrorView,
            >(unique_views(v@)),
            Err(e) => unique_rules_from(xs@.map_values(|x: JsonValue| x@), 0, seq![]) == Err::<
                Seq<UniqueAcrossView>,
                SchemaErrorView,
            >(e@),
        },
{
    let ghost vs = xs@.map_values(|x: JsonValue| x@);
    let mut out: Vec<UniqueAcrossRule> = Vec::new();
    let mut i: usize = 0;
    assert(unique_views(out@) =~= seq![]);
    while i < xs.len()
        invariant
            vs == xs@.map_values(|x: JsonValue| x@),
            i <= xs.len(),
            unique_rules_from(vs, i as int, unique_views(out@)) == unique_rules_from(vs, 0, seq![]),
        decreases xs.len() - i,
    {
        match read_unique_rule(&xs[i]) {
            Ok(rule) => {
                let ghost before = out@;
                out.push(rule);
                assert(unique_views(out@) =~= unique_views(before).push(rule@));
            },
            Err(e) => {
                return Err(e);
            },
        }
        i += 1;
    }
    Ok(out)
}

/// The `x-references` rules of a list of well-formed rule objects.
fn read_references_rules(xs: &Vec<JsonValue>) -> (r: Result<Vec<ReferencesRule>, SchemaError>)
    ensures
        match r {
            Ok(v) => references_rules_from(xs@.map_values(|x: JsonValue| x@), 0, seq![]) == Ok::<
                Seq<ReferencesView>,
                SchemaErrorView,
            >(references_views(v@)),
            Err(e) => references_rules_from(xs@.map_values(|x: JsonValue| x@), 0, seq![]) == Err::<
                Seq<ReferencesView>,
                SchemaErrorView,
            >(e@),
        },
{
    let ghost vs = xs@.map_values(|x: JsonValue| x@);
    let mut out: Vec<ReferencesRule> = Vec::new();
    let mut i: usize = 0;
    assert(references_views(out@) =~= seq![]);
    while i < xs.len()
        invariant
            vs == xs@.map_values(|x: JsonValue| x@),
            i <= xs.len(),
            references_rules_from(vs, i as int, references_views(out@)) == references_rules_from(
                vs,
                0,
                seq![],
            ),
        decreases xs.len() - i,
    {
        match read_references_rule(&xs[i]) {
            Ok(rule) => {
                let ghost before = out@;
                out.push(rule);
                assert(references_views(out@) =~= references_views(before).push(rule@));
            },
            Err(e) => {
                return Err(e);
            },
        }
        i += 1;
    }
    Ok(out)
}

/// The `x-referencedBy` rules of a list of well-formed rule objects.
fn read_referenced_by_rules(xs: &Vec<JsonValue>) -> (r: Result<Vec<ReferencedByRule>, SchemaError>)
    ensures
        match r {
            Ok(v) => referenced_by_rules_from(xs@.map_values(|x: JsonValue| x@), 0, seq![]) == Ok::<
                Seq<ReferencedByView>,
                SchemaErrorView,
            >(referenced_by_views(v@)),
            Err(e) => referenced_by_rules_from(xs@.map_values(|x: JsonValue| x@), 0, seq![])
                == Err::<Seq<ReferencedByView>, SchemaErrorView>(e@),
        },
{
    let ghost vs = xs@.map_values(|x: JsonValue| x@);
    let mut out: Vec<ReferencedByRule> = Vec::new();
    let mut i: usize = 0;
    assert(referenced_by_views(out@) =~= seq![]);
    while i < xs.len()
        invariant
            vs == xs@.map_values(|x: JsonValue| x@),
            i <= xs.len(),
            referenced_by_rules_from(vs, i as int, referenced_by_views(out@))
                == referenced_by_rules_from(vs, 0, seq![]),
        decreases xs.len() - i,
    {
        match read_referenced_by_rule(&xs[i]) {
            Ok(rule) => {
                let ghost before = out@;
                out.push(rule);
                assert(referenced_by_views(out@) =~= referenced_by_views(before).push(rule@));
            },
            Err(e) => {
                return Err(e);
            },
        }
        i += 1;
    }
    Ok(out)
}

// ----------------------------------------------------------------------------
// Schemas
// ----------------------------------------------------------------------------
/// A standard JSON Schema that jsonschema compiled, kept as the schema it was
/// compiled from; its view is that schema.
#[derive(Debug)]
pub struct JsonSchemaValidator {
    schema: JsonValue,
}

impl View for JsonSchemaValidator {
    type V = JsonView;

    closed spec fn view(&self) -> JsonView {
        self.schema@
    }
}

impl JsonSchemaValidator {
    /// The schema that was compiled.
    pub fn schema(&self) -> (r: &JsonValue)
        ensures
            r@ == self@,
    {
        &self.schema
    }
}

/// What compiling a JSON Schema with `jsonschema::validator_for` gives: `None` when
/// it compiles, else the `Display` text of jsonschema's error.
pub uninterp spec fn jsonschema_compile(schema: JsonView) -> Option<Seq<char>>;

/// `jsonschema::validator_for`: compiles a JSON Schema, detecting its draft. The
/// result is the name `jsonschema_compile` of the schema: `None` when it compiles,
/// and the `Display` text of jsonschema's error when it does not (remote references
/// are never fetched, so it depends on the schema alone). Which schemas compile, and
/// the text of the error, are not stated, nor that no schema makes it panic.
#[verifier::external_body]
fn jsonschema_compile_error(schema: &JsonValue) -> (r: Option<String>)
    ensures
        opt_view(r) == jsonschema_compile(schema@),
{
    match jsonschema::validator_for(&to_serde(schema)) {
        Ok(_) => None,
        Err(e) => Some(e.to_string()),
    }
}

/// A parsed schema with custom validation rules
#[derive(Debug)]
pub struct Schema {
    /// The raw JSON Schema
    pub raw: JsonValue,
    /// The standard JSON Schema part, compiled (none if the schema has no standard keywords)
    pub json_schema: Option<JsonSchemaValidator>,
    /// Parsed x-uniqueAcross rules
    pub unique_across: Vec<UniqueAcrossRule>,
    /// Parsed x-references rules
    pub references: Vec<ReferencesRule>,
    /// Parsed x-referencedBy rules
    pub referenced_by: Vec<ReferencedByRule>,
}

/// The rules that a schema holds.
pub open spec fn rules_of(s: &Schema) -> RulesView {
    RulesView {
        unique_across: unique_views(s.unique_across@),
        references: references_views(s.references@),
        referenced_by: referenced_by_views(s.referenced_by@),
    }
}

/// Is `k` the name of an extension keyword?
fn is_extension_name(k: &String) -> (r: bool)
    ensures
        r == is_extension_key(k@),
{
    let cs = chars_of(k.as_str());
    cs.len() >= 2 && cs[0] == 'x' && cs[1] == '-'
}

/// The fields of an `x-referencedBy` rule object, with their kinds.
fn referenced_by_fields() -> (r: (Vec<String>, Vec<FieldKind>))
    ensures
        r.0.len() == r.1.len(),
        names_view(r.0@) == referenced_by_names(),
        r.1@ == referenced_by_kinds(),
{
    let names = vec![
        string_of("target"),
        string_of("from"),
        string_of("min"),
        string_of("max"),
        string_of("message"),
    ];
    let kinds = vec![
        FieldKind::Str,
        FieldKind::StrOrList,
        FieldKind::Count,
        FieldKind::OptCount,
        FieldKind::OptStr,
    ];
    assert(names_view(names@) =~= referenced_by_names());
    assert(kinds@ =~= referenced_by_kinds());
    (names, kinds)
}

/// The fields of an `x-uniqueAcross` rule object, with their kinds.
fn unique_fields() -> (r: (Vec<String>, Vec<FieldKind>))
    ensures
        r.0.len() == r.1.len(),
        names_view(r.0@) == unique_names(),
        r.1@ == unique_kinds(),
{
    let names = vec![string_of("paths"), string_of("message")];
    let kinds = vec![FieldKind::StrList, FieldKind::OptStr];
    assert(names_view(names@) =~= unique_names());
    assert(kinds@ =~= unique_kinds());
    (names, kinds)
}

/// The fields of an `x-references` rule object, with their kinds.
fn references_fields() -> (r: (Vec<String>, Vec<FieldKind>))
    ensures
        r.0.len() == r.1.len(),
        names_view(r.0@) == references_names(),
        r.1@ == references_kinds(),
{
    let names = vec![string_of("from"), string_of("to"), string_of("message")];
    let kinds = vec![FieldKind::Str, FieldKind::StrOrList, FieldKind::OptStr];
    assert(names_view(names@) =~= references_names());
    assert(kinds@ =~= references_kinds());
    (names, kinds)
}

/// The `x-uniqueAcross` rules that the keyword's value states.
fn read_unique_across(raw: &JsonValue) -> (r: Result<Vec<UniqueAcrossRule>, SchemaError>)
    ensures
        match r {
            Ok(v) => unique_across_of(raw@) == Ok::<Seq<UniqueAcrossView>, SchemaErrorView>(unique_views(v@)),
            Err(e) => unique_across_of(raw@) == Err::<Seq<UniqueAcrossView>, SchemaErrorView>(e@),
        },
{
    let (names, kinds) = unique_fields();
    let problem = rules_problem(raw, "UniqueAcrossRaw", &names, &kinds);
    proof {
        if problem is None {
            lemma_rules_list(raw@, "UniqueAcrossRaw"@, unique_names(), unique_kinds());
        }
    }
    match problem {
        Some(m) => Err(SchemaError::InvalidRule("x-uniqueAcross", m)),
        None => match raw {
            JsonValue::Array(xs) => {
                proof {
                    lemma_elements(raw);
                }
                read_unique_rules(xs)
            },
            _ => Ok(Vec::new()),
        },
    }
}

/// The `x-references` rules that the keyword's value states.
fn read_references(raw: &JsonValue) -> (r: Result<Vec<ReferencesRule>, SchemaError>)
    ensures
        match r {
            Ok(v) => references_of(raw@) == Ok::<Seq<ReferencesView>, SchemaErrorView>(references_views(v@)),
            Err(e) => references_of(raw@) == Err::<Seq<ReferencesView>, SchemaErrorView>(e@),
        },
{
    let (names, kinds) = references_fields();
    let problem = rules_problem(raw, "ReferencesRaw", &names, &kinds);
    proof {
        if problem is None {
            lemma_rules_list(raw@, "ReferencesRaw"@, references_names(), references_kinds());
        }
    }
    match problem {
        Some(m) => Err(SchemaError::InvalidRule("x-references", m)),
        None => match raw {
            JsonValue::Array(xs) => {
                proof {
                    lemma_elements(raw);
                }
                read_references_rules(xs)
            },
            _ => Ok(Vec::new()),
        },
    }
}

/// The `x-referencedBy` rules that the keyword's value states.
fn read_referenced_by(raw: &JsonValue) -> (r: Result<Vec<ReferencedByRule>, SchemaError>)
    ensures
        match r {
            Ok(v) => referenced_by_of(raw@) == Ok::<Seq<ReferencedByView>, SchemaErrorView>(referenced_by_views(v@)),
            Err(e) => referenced_by_of(raw@) == Err::<Seq<ReferencedByView>, SchemaErrorView>(e@),
        },
{
    let (names, kinds) = referenced_by_fields();
    let problem = rules_problem(raw, "ReferencedByRaw", &names, &kinds);
    proof {
        if problem is None {
            lemma_rules_list(raw@, "ReferencedByRaw"@, referenced_by_names(), referenced_by_kinds());
        }
    }
    match problem {
        Some(m) => Err(SchemaError::InvalidRule("x-referencedBy", m)),
        None => match raw {
            JsonValue::Array(xs) => {
                proof {
                    lemma_elements(raw);
                }
                read_referenced_by_rules(xs)
            },
            _ => Ok(Vec::new()),
        },
    }
}

impl Schema {
    /// Parse a JSON Schema with custom x- keywords
    pub fn parse(value: JsonValue) -> (r: Result<Self, SchemaError>)
        ensures
            match schema_rules(value@) {
                Err(e) => r matches Err(err) && err@ == e,
                Ok(rules) => if has_standard_keywords(value@) && jsonschema_compile(value@) is Some {
                    r matches Err(SchemaError::JsonSchemaCompilation(m)) && jsonschema_compile(value@)
                        == Some(m@)
                } else {
                    r matches Ok(s) && {
                        &&& s.raw@ == value@
                        &&& rules_of(&s) == rules
                        &&& (s.json_schema is Some <==> has_standard_keywords(value@))
                        &&& (s.json_schema matches Some(v) ==> v@ == value@)
                    }
                },
            },
    {
        let unique_across = match Self::parse_unique_across(&value) {
            Ok(v) => v,
            Err(e) => {
                return Err(e);
            },
        };
        let references = match Self::parse_references(&value) {
            Ok(v) => v,
            Err(e) => {
                return Err(e);
            },
        };
        let referenced_by = match Self::parse_referenced_by(&value) {
            Ok(v) => v,
            Err(e) => {
                return Err(e);
            },
        };
        let json_schema = match Self::compile_json_schema(&value) {
            Ok(v) => v,
            Err(e) => {
                return Err(e);
            },
        };
        let s = Schema { raw: value, json_schema, unique_across, references, referenced_by };
        assert(rules_of(&s) =~= schema_rules(value@)->Ok_0);
        Ok(s)
    }

    fn parse_unique_across(value: &JsonValue) -> (r: Result<Vec<UniqueAcrossRule>, SchemaError>)
        ensures
            match r {
                Ok(v) => unique_across_rules(value@) == Ok::<Seq<UniqueAcrossView>, SchemaErrorView>(unique_views(v@)),
                Err(e) => unique_across_rules(value@) == Err::<Seq<UniqueAcrossView>, SchemaErrorView>(e@),
            },
    {
        match field(value, "x-uniqueAcross") {
            None => {
                let v: Vec<UniqueAcrossRule> = Vec::new();
                assert(unique_views(v@) =~= seq![]);
                Ok(v)
            },
            Some(raw) => read_unique_across(raw),
        }
    }

    fn parse_references(value: &JsonValue) -> (r: Result<Vec<ReferencesRule>, SchemaError>)
        ensures
            match r {
                Ok(v) => references_rules(value@) == Ok::<Seq<ReferencesView>, SchemaErrorView>(references_views(v@)),
                Err(e) => references_rules(value@) == Err::<Seq<ReferencesView>, SchemaErrorView>(e@),
            },
    {
        match field(value, "x-references") {
            None => {
                let v: Vec<ReferencesRule> = Vec::new();
                assert(references_views(v@) =~= seq![]);
                Ok(v)
            },
            Some(raw) => read_references(raw),
        }
    }

    fn parse_referenced_by(value: &JsonValue) -> (r: Result<Vec<ReferencedByRule>, SchemaError>)
        ensures
            match r {
                Ok(v) => referenced_by_rules(value@) == Ok::<Seq<ReferencedByView>, SchemaErrorView>(referenced_by_views(v@)),
                Err(e) => referenced_by_rules(value@) == Err::<Seq<ReferencedByView>, SchemaErrorView>(e@),
            },
    {
        match field(value, "x-referencedBy") {
            None => {
                let v: Vec<ReferencedByRule> = Vec::new();
                assert(referenced_by_views(v@) =~= seq![]);
                Ok(v)
            },
            Some(raw) => read_referenced_by(raw),
        }
    }

    /// Compile the standard JSON Schema part, when the schema has standard keywords.
    fn compile_json_schema(value: &JsonValue) -> (r: Result<Option<JsonSchemaValidator>, SchemaError>)
        ensures
            !has_standard_keywords(value@) ==> r matches Ok(None),
            has_standard_keywords(value@) ==> match jsonschema_compile(value@) {
                Some(m) => r matches Err(SchemaError::JsonSchemaCompilation(e)) && e@ == m,
                None => r matches Ok(Some(v)) && v@ == value@,
            },
    {
        if !Self::has_standard_keywords(value) {
            return Ok(None);
        }
        match jsonschema_compile_error(value) {
            Some(m) => Err(SchemaError::JsonSchemaCompilation(m)),
            None => Ok(Some(JsonSchemaValidator { schema: value.copy() })),
        }
    }

    /// Check if schema has any standard JSON Schema keywords (non x- prefixed)
    fn has_standard_keywords(value: &JsonValue) -> (r: bool)
        ensures
            r == has_standard_keywords(value@),
    {
        match value {
            JsonValue::Object(es) => {
                proof {
                    lemma_members(value);
                }
                let ghost mv = value@->Object_0;
                let mut i: usize = 0;
                while i < es.len()
                    invariant
                        mv == members_view(es@),
                        value@ is Object,
                        mv == value@->Object_0,
                        i <= es.len(),
                        forall|k: int| 0 <= k < i ==> is_extension_key(#[trigger] mv[k].0),
                    decreases es.len() - i,
                {
                    if !is_extension_name(&es[i].key) {
                        proof {
                            let w = i as int;
                            assert(value@ is Object);
                            assert(0 <= w < value@->Object_0.len());
                            assert(!is_extension_key(value@->Object_0[w].0));
                        }
                        return true;
                    }
                    i += 1;
                }
                false
            },
            _ => false,
        }
    }
}

/// Enum for downstream code to work with any rule type
#[derive(Debug)]
pub enum ValidationRule<'a> {
    UniqueAcross(&'a UniqueAcrossRule),
    References(&'a ReferencesRule),
    ReferencedBy(&'a ReferencedByRule),
}

impl Schema {
    /// All validation rules: the `x-uniqueAcross` rules, then the `x-references`
    /// rules, then the `x-referencedBy` rules, each in order.
    pub fn rules(&self) -> (r: Vec<ValidationRule<'_>>)
        ensures
            r.len() == self.unique_across.len() + self.references.len() + self.referenced_by.len(),
            forall|i: int|
                0 <= i < self.unique_across.len() ==> r@[i] == ValidationRule::UniqueAcross(
                    &self.unique_across@[i],
                ),
            forall|i: int|
                0 <= i < self.references.len() ==> r@[self.unique_across.len() + i]
                    == ValidationRule::References(&self.references@[i]),
            forall|i: int|
                0 <= i < self.referenced_by.len() ==> r@[self.unique_across.len()
                    + self.references.len() + i] == ValidationRule::ReferencedBy(
                    &self.referenced_by@[i],
                ),
    {
        let mut r: Vec<ValidationRule<'_>> = Vec::new();
        let mut i: usize = 0;
        while i < self.unique_across.len()
            invariant
                i <= self.unique_across.len(),
                r.len() == i,
                forall|k: int|
                    0 <= k < i ==> r@[k] == ValidationRule::UniqueAcross(&self.unique_across@[k]),
            decreases self.unique_across.len() - i,
        {
            r.push(ValidationRule::UniqueAcross(&self.unique_across[i]));
            i += 1;
        }
        let n1 = self.unique_across.len();
        let mut j: usize = 0;
        while j < self.references.len()
            invariant
                n1 == self.unique_across.len(),
                j <= self.references.len(),
                r.len() == n1 + j,
                forall|k: int|
                    0 <= k < n1 ==> r@[k] == ValidationRule::UniqueAcross(&self.unique_across@[k]),
                forall|k: int|
                    0 <= k < j ==> r@[n1 + k] == ValidationRule::References(&self.references@[k]),
            decreases self.references.len() - j,
        {
            r.push(ValidationRule::References(&self.references[j]));
            j += 1;
        }
        let n2 = n1 + self.references.len();
        let mut k: usize = 0;
        while k < self.referenced_by.len()
            invariant
                n1 == self.unique_across.len(),
                n2 == n1 + self.references.len(),
                k <= self.referenced_by.len(),
                r.len() == n2 + k,
                forall|m: int|
                    0 <= m < n1 ==> r@[m] == ValidationRule::UniqueAcross(&self.unique_across@[m]),
                forall|m: int|
                    0 <= m < self.references.len() ==> r@[n1 + m] == ValidationRule::References(
                        &self.references@[m],
                    ),
                forall|m: int|
                    0 <= m < k ==> r@[n2 + m] == ValidationRule::ReferencedBy(
                        &self.referenced_by@[m],
                    ),
            decreases self.referenced_by.len() - k,
        {
            r.push(ValidationRule::ReferencedBy(&self.referenced_by[k]));
            k += 1;
        }
        r
    }
}

// ----------------------------------------------------------------------------
// The `min` of an `x-referencedBy` rule
// ----------------------------------------------------------------------------
/// The rules that the objects `xs` from `i` on state, when they all parse: one per
/// object, in order, each the rule of its object.
proof fn lemma_referenced_by_rules_each(
    xs: Seq<JsonView>,
    i: int,
    acc: Seq<ReferencedByView>,
    out: Seq<ReferencedByView>,
)
    requires
        0 <= i <= xs.len(),
        referenced_by_rules_from(xs, i, acc) == Ok::<Seq<ReferencedByView>, SchemaErrorView>(out),
    ensures
        out.len() == acc.len() + xs.len() - i,
        forall|j: int|
            i <= j < xs.len() ==> referenced_by_rule(#[trigger] xs[j])
                == Ok::<ReferencedByView, SchemaErrorView>(out[acc.len() + j - i]),
    decreases xs.len() - i,
{
    if i < xs.len() {
        let r = referenced_by_rule(xs[i])->Ok_0;
        lemma_referenced_by_rules_each(xs, i + 1, acc.push(r), out);
        assert(out[acc.len() as int] == acc.push(r)[acc.len() as int]) by {
            lemma_rules_from_keep(xs, i + 1, acc.push(r), out);
        }
    }
}

/// The rules built so far stay at the front.
proof fn lemma_rules_from_keep(
    xs: Seq<JsonView>,
    i: int,
    acc: Seq<ReferencedByView>,
    out: Seq<ReferencedByView>,
)
    requires
        referenced_by_rules_from(xs, i, acc) == Ok::<Seq<ReferencedByView>, SchemaErrorView>(out),
    ensures
        out.len() >= acc.len(),
        forall|k: int| 0 <= k < acc.len() ==> out[k] == #[trigger] acc[k],
    decreases xs.len() - i,
{
    if 0 <= i < xs.len() {
        let r = referenced_by_rule(xs[i])->Ok_0;
        lemma_rules_from_keep(xs, i + 1, acc.push(r), out);
        assert forall|k: int| 0 <= k < acc.len() implies out[k] == #[trigger] acc[k] by {
            assert(acc.push(r)[k] == acc[k]);
        }
    }
}

/// The `x-referencedBy` rules of a schema whose rules all parse.
proof fn lemma_schema_referenced_by(schema: JsonView, rules: RulesView)
    requires
        schema_rules(schema) == Ok::<RulesView, SchemaErrorView>(rules),
    ensures
        referenced_by_rules(schema) == Ok::<Seq<ReferencedByView>, SchemaErrorView>(rules.referenced_by),
{
}

/// A keyword value whose rules all parse is a list of rule objects.
proof fn lemma_referenced_by_list(raw: JsonView, out: Seq<ReferencedByView>)
    requires
        referenced_by_of(raw) == Ok::<Seq<ReferencedByView>, SchemaErrorView>(out),
    ensures
        raw is Array,
        referenced_by_rules_from(raw->Array_0, 0, seq![]) == Ok::<Seq<ReferencedByView>, SchemaErrorView>(out),
{
    reveal(rules_error);
    if !(raw is Array) {
        assert(rules_error(raw, "ReferencedByRaw"@, referenced_by_names(), referenced_by_kinds()) is Some);
    }
}

/// The `min` of the rule that a rule object states.
proof fn lemma_rule_min(obj: JsonView, r: ReferencedByView)
    requires
        referenced_by_rule(obj) == Ok::<ReferencedByView, SchemaErrorView>(r),
    ensures
        r.min == min_field(obj),
        r.max == max_field(obj),
{
    reveal(referenced_by_rule);
}

/// The `min` of each `x-referencedBy` rule that a schema states is the count that
/// its rule object holds under `min`, zero included; it is 1 only when the object
/// has no `min`. Its `max` is the count held under `max`, and none when the object
/// has no `max` or a null one.
pub proof fn law_referenced_by_min(schema: JsonView, rules: RulesView, i: int)
    requires
        schema_rules(schema) == Ok::<RulesView, SchemaErrorView>(rules),
        0 <= i < rules.referenced_by.len(),
    ensures
        member(schema, "x-referencedBy"@) matches Some(JsonView::Array(xs)) && xs.len()
            == rules.referenced_by.len() && ({
            let obj = xs[i];
            &&& forall|n: nat|
                n <= usize::MAX && obj is Object && member(obj, "min"@) == Some(
                    JsonView::Number(#[trigger] decimal(n)),
                ) ==> rules.referenced_by[i].min == n
            &&& obj is Object && member(obj, "min"@) is None ==> rules.referenced_by[i].min == 1
            &&& forall|n: nat|
                n <= usize::MAX && obj is Object && member(obj, "max"@) == Some(
                    JsonView::Number(#[trigger] decimal(n)),
                ) ==> rules.referenced_by[i].max == Some(n)
            &&& obj is Object && (member(obj, "max"@) is None || member(obj, "max"@) == Some(
                JsonView::Null,
            )) ==> rules.referenced_by[i].max is None
        }),
{
    lemma_schema_referenced_by(schema, rules);
    let raw = member(schema, "x-referencedBy"@)->Some_0;
    assert(member(schema, "x-referencedBy"@) is Some);
    lemma_referenced_by_list(raw, rules.referenced_by);
    let xs = raw->Array_0;
    lemma_referenced_by_rules_each(xs, 0, seq![], rules.referenced_by);
    let obj = xs[i];
    assert(referenced_by_rule(obj) == Ok::<ReferencedByView, SchemaErrorView>(rules.referenced_by[i]));
    lemma_rule_min(obj, rules.referenced_by[i]);
    assert forall|n: nat|
        n <= usize::MAX && obj is Object && member(obj, "min"@) == Some(
            JsonView::Number(#[trigger] decimal(n)),
        ) implies rules.referenced_by[i].min == n by {
        lemma_decimal_digits(n);
        assert(count_of(decimal(n)) == Some(n));
    }
    assert forall|n: nat|
        n <= usize::MAX && obj is Object && member(obj, "max"@) == Some(
            JsonView::Number(#[trigger] decimal(n)),
        ) implies rules.referenced_by[i].max == Some(n) by {
        lemma_decimal_digits(n);
        assert(count_of(decimal(n)) == Some(n));
    }
}

} // verus!
