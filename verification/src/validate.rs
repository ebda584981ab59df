//! Validation of a document against a schema: the standard JSON Schema part, which
//! jsonschema checks, then the `x-` rules; and the source location of each error.
use vstd::prelude::*;
use vstd::multiset::Multiset;
use vstd::string::StringSliceAdditionalSpecFns;

use crate::jsonpath::{
    all_digits, digits_value, eval_path, found_path, is_digit, lemma_decimal_parses, lemma_route_eval,
    lemma_route_prefix, lemma_route_reads_back, matches_view, parse_path, parse_usize,
    parse_usize_spec, plain_name, plain_route, route_path, unsigned_part, JsonPath,
    PathMatch, SegmentView,
};
use crate::schema::{
    opt_view, paths_view, rules_of, ReferencedByRule, ReferencedByView, ReferencesRule, ReferencesView,
    RulesView, Schema, UniqueAcrossRule, UniqueAcrossView,
};
use crate::source_map::{line_col, line_offsets_of, SourceMap, SourceSpan};
use crate::text::{
    chars_of, decimal, push_chars, push_decimal, replace_all, replace_all_exec, string_of,
};
use crate::json::{
    json_reads_back, json_source_map, json_with_source_map, law_json_paths_recorded, locatable,
    serde_json_parse, JsonError,
};
use crate::toml::{
    law_toml_paths_recorded, plain_scalars, toml_json, toml_source_map, toml_span_parse, toml_to_json,
    TomlError, TomlView,
};
use crate::value::{
    from_serde, lemma_same_value_reflexive, lemma_same_value_symmetric, same_value, to_serde, value_text, value_to_string, values_equal, JsonValue,
    JsonView,
};

verus! {

// ----------------------------------------------------------------------------
// Errors
// ----------------------------------------------------------------------------
/// A single validation error
#[derive(Debug, Clone)]
pub struct ValidationError {
    pub message: String,
    pub path: Option<String>,
    pub value: Option<String>,
    pub line: Option<usize>,
    pub column: Option<usize>,
}

/// The view of a validation error.
#[verifier::ext_equal]
pub struct ErrorView {
    pub message: Seq<char>,
    pub path: Option<Seq<char>>,
    pub value: Option<Seq<char>>,
    pub line: Option<usize>,
    pub column: Option<usize>,
}

impl View for ValidationError {
    type V = ErrorView;

    open spec fn view(&self) -> ErrorView {
        ErrorView {
            message: self.message@,
            path: opt_view(self.path),
            value: opt_view(self.value),
            line: self.line,
            column: self.column,
        }
    }
}

/// The views of a list of errors.
pub open spec fn errors_view(es: Seq<ValidationError>) -> Seq<ErrorView> {
    es.map_values(|e: ValidationError| e@)
}

impl ValidationError {
    /// The error as text: its message.
    pub fn to_string(&self) -> (s: String)
        ensures
            s@ == self.message@,
    {
        self.message.clone()
    }
}

/// Result of validation
pub type ValidationResult = Result<(), Vec<ValidationError>>;

/// A validation result that reports exactly the errors `es`: success when there
/// are none.
pub open spec fn reports(r: ValidationResult, es: Seq<ErrorView>) -> bool {
    match r {
        Ok(()) => es.len() == 0,
        Err(v) => es.len() > 0 && errors_view(v@) == es,
    }
}

/// An error located at `path` with value `v`, not yet placed in the source.
pub open spec fn error_at(message: Seq<char>, path: Seq<char>, v: JsonView) -> ErrorView {
    ErrorView { message, path: Some(path), value: Some(value_text(v)), line: None, column: None }
}

// ----------------------------------------------------------------------------
// Messages
// ----------------------------------------------------------------------------
/// A custom message with `{{value}}`, `{{path}}` and, when given, `{{index}}`
/// replaced by the value's text, the path and the index.
pub open spec fn interpolate(template: Seq<char>, value: Seq<char>, path: Seq<char>, index: Option<usize>) -> Seq<char> {
    let a = replace_all(replace_all(template, "{{value}}"@, value), "{{path}}"@, path);
    match index {
        Some(i) => replace_all(a, "{{index}}"@, decimal(i as nat)),
        None => a,
    }
}

/// Fills in the placeholders of a custom message.
pub fn interpolate_message(template: &str, value: &JsonValue, path: &str, index: Option<usize>) -> (r: String)
    ensures
        r@ == interpolate(template@, value_text(value@), path@, index),
{
    proof {
        reveal_strlit("{{value}}");
        reveal_strlit("{{path}}");
        reveal_strlit("{{index}}");
    }
    let text = value_to_string(value);
    let a = replace_all_exec(template, "{{value}}", text.as_str());
    let b = replace_all_exec(a.as_str(), "{{path}}", path);
    match index {
        Some(i) => {
            let n = crate::text::decimal_string(i);
            replace_all_exec(b.as_str(), "{{index}}", n.as_str())
        },
        None => b,
    }
}

/// The start of the run of digits that ends at `j`.
pub open spec fn digits_start(p: Seq<char>, j: int) -> int
    decreases j,
{
    if 0 < j <= p.len() && is_digit(p[j - 1]) {
        digits_start(p, j - 1)
    } else {
        j
    }
}

proof fn lemma_digits_start(p: Seq<char>, j: int)
    requires
        0 <= j <= p.len(),
    ensures
        0 <= digits_start(p, j) <= j,
        forall|m: int| digits_start(p, j) <= m < j ==> is_digit(#[trigger] p[m]),
        digits_start(p, j) > 0 ==> !is_digit(p[digits_start(p, j) - 1]),
    decreases j,
{
    if 0 < j && is_digit(p[j - 1]) {
        lemma_digits_start(p, j - 1);
    }
}

/// The index of the last `[n]` step among the first `e` characters of a path.
pub open spec fn last_index_from(p: Seq<char>, e: int) -> Option<usize>
    decreases e,
{
    if e <= 0 || e > p.len() {
        None
    } else if p[e - 1] == ']' {
        let k = digits_start(p, e - 1);
        if 1 <= k < e - 1 && p[k - 1] == '[' && digits_value(p.subrange(k, e - 1)) <= usize::MAX {
            Some(digits_value(p.subrange(k, e - 1)) as usize)
        } else {
            last_index_from(p, e - 1)
        }
    } else {
        last_index_from(p, e - 1)
    }
}

/// The array index of a matched value: that of the last `[n]` step of its path (for
/// `organisations[0].members[1]`, 1), when the path has one.
pub open spec fn path_index(p: Seq<char>) -> Option<usize> {
    last_index_from(p, p.len() as int)
}

/// The array index of a matched value, from its path.
pub fn index_of_path(path: &str) -> (r: Option<usize>)
    ensures
        r == path_index(path@),
{
    let cs = chars_of(path);
    let mut e = cs.len();
    while e > 0
        invariant
            cs@ == path@,
            e <= cs.len(),
            last_index_from(cs@, e as int) == path_index(path@),
        decreases e,
    {
        if cs[e - 1] == ']' {
            let mut k = e - 1;
            while k > 0 && '0' <= cs[k - 1] && cs[k - 1] <= '9'
                invariant
                    k <= e - 1,
                    e <= cs.len(),
                    digits_start(cs@, k as int) == digits_start(cs@, e - 1),
                decreases k,
            {
                k -= 1;
            }
            proof {
                lemma_digits_start(cs@, e - 1);
            }
            if k >= 1 && k < e - 1 && cs[k - 1] == '[' {
                let ghost ds = cs@.subrange(k as int, e - 1);
                proof {
                    assert(all_digits(ds)) by {
                        assert forall|m: int| 0 <= m < ds.len() implies is_digit(#[trigger] ds[m]) by {
                            assert(ds[m] == cs@[k + m]);
                        }
                    }
                    assert(unsigned_part(ds) == ds);
                }
                match parse_usize(&cs, k, e - 1) {
                    Some(n) => {
                        return Some(n);
                    },
                    None => {},
                }
            }
        }
        e -= 1;
    }
    None
}

// ----------------------------------------------------------------------------
// JSON pointers
// ----------------------------------------------------------------------------
/// The end of a pointer segment starting at `i`: the next `/` or the end.
pub open spec fn slash_end(cs: Seq<char>, i: int) -> int
    decreases cs.len() - i,
{
    if 0 <= i < cs.len() && cs[i] != '/' {
        slash_end(cs, i + 1)
    } else {
        i
    }
}

pub proof fn lemma_slash_end(cs: Seq<char>, i: int)
    requires
        0 <= i <= cs.len(),
    ensures
        i <= slash_end(cs, i) <= cs.len(),
        forall|k: int| i <= k < slash_end(cs, i) ==> cs[k] != '/',
        slash_end(cs, i) < cs.len() ==> cs[slash_end(cs, i)] == '/',
    decreases cs.len() - i,
{
    if i < cs.len() && cs[i] != '/' {
        lemma_slash_end(cs, i + 1);
    }
}

/// The first position from `i` on that is not a `/`.
pub open spec fn skip_slashes(cs: Seq<char>, i: int) -> int
    decreases cs.len() - i,
{
    if 0 <= i < cs.len() && cs[i] == '/' {
        skip_slashes(cs, i + 1)
    } else {
        i
    }
}

pub proof fn lemma_skip_slashes(cs: Seq<char>, i: int)
    requires
        0 <= i <= cs.len(),
    ensures
        i <= skip_slashes(cs, i) <= cs.len(),
    decreases cs.len() - i,
{
    if i < cs.len() && cs[i] == '/' {
        lemma_skip_slashes(cs, i + 1);
    }
}

/// Appends the pointer segment `seg`, the `k`th, to the path `acc`: an index in
/// brackets, or a field name, after a dot unless it comes first.
pub open spec fn pointer_step(acc: Seq<char>, seg: Seq<char>, k: nat) -> Seq<char> {
    if parse_usize_spec(seg) is Some {
        acc + "["@ + seg + "]"@
    } else if acc.len() > 0 && k > 0 {
        acc.push('.') + seg
    } else {
        acc + seg
    }
}

/// The path for the segments of a pointer from position `i` on, the `k`th segment
/// first, after the path `acc`.
pub open spec fn pointer_path_from(cs: Seq<char>, i: int, k: nat, acc: Seq<char>) -> Seq<char>
    decreases cs.len() + 1 - i,
{
    if i < 0 || i > cs.len() {
        acc
    } else {
        let e = slash_end(cs, i);
        proof {
            lemma_slash_end(cs, i);
        }
        let next = pointer_step(acc, cs.subrange(i, e), k);
        if e >= cs.len() {
            next
        } else {
            pointer_path_from(cs, e + 1, k + 1, next)
        }
    }
}

/// The JSONPath form of a JSON pointer: empty for `` and `/`; else the segments
/// between `/`s, after the leading ones, joined as `pointer_step` joins them.
pub open spec fn pointer_to_path(p: Seq<char>) -> Seq<char> {
    if p.len() == 0 || p == seq!['/'] {
        Seq::empty()
    } else {
        pointer_path_from(p, skip_slashes(p, 0), 0, Seq::empty())
    }
}

/// Convert a JSON pointer (`/foo/0/bar`) to a JSONPath (`foo[0].bar`).
pub fn jsonpointer_to_jsonpath(pointer: &str) -> (r: String)
    ensures
        r@ == pointer_to_path(pointer@),
{
    let cs = chars_of(pointer);
    if cs.len() == 0 || (cs.len() == 1 && cs[0] == '/') {
        proof {
            if cs.len() == 1 {
                assert(cs@ =~= seq!['/']);
            }
        }
        return String::new();
    }
    proof {
        if cs@ == seq!['/'] {
            assert(cs@[0] == '/');
        }
    }
    let mut i: usize = 0;
    while i < cs.len() && cs[i] == '/'
        invariant
            i <= cs.len(),
            skip_slashes(cs@, i as int) == skip_slashes(cs@, 0),
        decreases cs.len() - i,
    {
        i += 1;
    }
    let mut result = String::new();
    let mut empty = true;
    let mut k: usize = 0;
    loop
        invariant
            cs@ == pointer@,
            cs@.len() > 0,
            !(cs@ == seq!['/']),
            k <= i <= cs.len(),
            empty == (result@.len() == 0),
            pointer_path_from(cs@, i as int, k as nat, result@) == pointer_to_path(pointer@),
        decreases cs.len() + 1 - i,
    {
        let mut e = i;
        while e < cs.len() && cs[e] != '/'
            invariant
                i <= e <= cs.len(),
                slash_end(cs@, e as int) == slash_end(cs@, i as int),
            decreases cs.len() - e,
        {
            e += 1;
        }
        proof {
            lemma_slash_end(cs@, i as int);
        }
        let ghost before = result@;
        let ghost seg = cs@.subrange(i as int, e as int);
        if parse_usize(&cs, i, e).is_some() {
            result.push('[');
            push_chars(&mut result, &cs, i, e);
            result.push(']');
            empty = false;
            proof {
                reveal_strlit("[");
                reveal_strlit("]");
                assert(result@ =~= before + "["@ + seg + "]"@);
            }
        } else {
            if !empty && k > 0 {
                result.push('.');
            }
            push_chars(&mut result, &cs, i, e);
            empty = empty && e == i;
        }
        assert(result@ == pointer_step(before, seg, k as nat));
        if e >= cs.len() {
            return result;
        }
        i = e + 1;
        k += 1;
    }
}

// ----------------------------------------------------------------------------
// Matches of several paths
// ----------------------------------------------------------------------------
/// The matches of each path in turn, in order.
pub open spec fn all_matches(paths: Seq<Seq<SegmentView>>, data: JsonView) -> Seq<(JsonView, Seq<char>)>
    decreases paths.len(),
{
    if paths.len() == 0 {
        seq![]
    } else {
        all_matches(paths.drop_last(), data) + eval_path(paths.last(), data)
    }
}

/// The matches of each path in turn.
fn collect_matches<'a>(paths: &Vec<JsonPath>, data: &'a JsonValue) -> (r: Vec<PathMatch<'a>>)
    ensures
        matches_view(r@) == all_matches(paths_view(paths@), data@),
{
    let ghost ps = paths_view(paths@);
    let mut out: Vec<PathMatch<'a>> = Vec::new();
    let mut i: usize = 0;
    assert(matches_view(out@) =~= all_matches(ps.take(0), data@));
    while i < paths.len()
        invariant
            ps == paths_view(paths@),
            i <= paths.len(),
            matches_view(out@) == all_matches(ps.take(i as int), data@),
        decreases paths.len() - i,
    {
        let mut found = paths[i].evaluate(data);
        let ghost before = out@;
        let ghost added = found@;
        out.append(&mut found);
        assert(matches_view(out@) =~= matches_view(before) + matches_view(added));
        assert(ps.take(i + 1).drop_last() == ps.take(i as int));
        assert(ps.take(i + 1).last() == paths@[i as int]@);
        i += 1;
    }
    assert(ps.take(i as int) == ps);
    out
}

/// An error at the place and value of match `m`.
fn located_error(message: String, m: &PathMatch) -> (e: ValidationError)
    ensures
        e@ == error_at(message@, m@.1, m@.0),
{
    ValidationError {
        message,
        path: Some(m.path.clone()),
        value: Some(value_to_string(m.value)),
        line: None,
        column: None,
    }
}

// ----------------------------------------------------------------------------
// x-uniqueAcross
// ----------------------------------------------------------------------------
/// The first of the matches before the `k`th, from `j` on, whose value equals the
/// `k`th's; -1 when there is none.
pub open spec fn first_equal_from(ms: Seq<(JsonView, Seq<char>)>, k: int, j: int) -> int
    decreases k - j,
{
    if j < 0 || j >= k {
        -1
    } else if same_value(ms[k].0, ms[j].0) {
        j
    } else {
        first_equal_from(ms, k, j + 1)
    }
}

/// The first match before the `k`th whose value equals the `k`th's; -1 when there
/// is none.
pub open spec fn first_equal(ms: Seq<(JsonView, Seq<char>)>, k: int) -> int {
    first_equal_from(ms, k, 0)
}

/// The message for the duplicate `m` of the value first seen at `first`.
pub open spec fn duplicate_message(
    message: Option<Seq<char>>,
    m: (JsonView, Seq<char>),
    first: Seq<char>,
) -> Seq<char> {
    match message {
        Some(t) => interpolate(t, value_text(m.0), m.1, path_index(m.1)),
        None => "Duplicate value '"@ + value_text(m.0) + "' at '"@ + m.1 + "' (first seen at '"@
            + first + "')"@,
    }
}

/// The duplicate errors among the first `n` matches: one for each match whose value
/// equals that of an earlier match, naming the first such match.
pub open spec fn unique_errors_upto(message: Option<Seq<char>>, ms: Seq<(JsonView, Seq<char>)>, n: int) -> Seq<
    ErrorView,
>
    decreases n,
{
    if n <= 0 || n > ms.len() {
        seq![]
    } else {
        let prev = unique_errors_upto(message, ms, n - 1);
        let j = first_equal(ms, n - 1);
        if j >= 0 {
            prev.push(error_at(duplicate_message(message, ms[n - 1], ms[j].1), ms[n - 1].1, ms[n - 1].0))
        } else {
            prev
        }
    }
}

/// The errors of an `x-uniqueAcross` rule: among the matches of all its paths, in
/// order, each value equal to an earlier one is a duplicate.
pub open spec fn unique_across_errors(rule: UniqueAcrossView, data: JsonView) -> Seq<ErrorView> {
    let ms = all_matches(rule.paths, data);
    unique_errors_upto(rule.message, ms, ms.len() as int)
}

/// The first match before the `k`th whose value equals the `k`th's.
fn first_equal_index(ms: &Vec<PathMatch>, k: usize) -> (r: Option<usize>)
    requires
        k < ms.len(),
    ensures
        match r {
            Some(j) => j < k && first_equal(matches_view(ms@), k as int) == j,
            None => first_equal(matches_view(ms@), k as int) == -1,
        },
{
    let ghost mv = matches_view(ms@);
    let mut j: usize = 0;
    while j < k
        invariant
            mv == matches_view(ms@),
            j <= k < ms.len(),
            first_equal_from(mv, k as int, j as int) == first_equal(mv, k as int),
        decreases k - j,
    {
        if values_equal(ms[k].value, ms[j].value) {
            return Some(j);
        }
        j += 1;
    }
    None
}

/// The message for a duplicate.
fn duplicate_message_text(message: &Option<String>, m: &PathMatch, first: &String) -> (r: String)
    ensures
        r@ == duplicate_message(opt_view(*message), m@, first@),
{
    match message {
        Some(t) => interpolate_message(t.as_str(), m.value, m.path.as_str(), index_of_path(m.path.as_str())),
        None => {
            let mut s = string_of("Duplicate value '");
            let v = value_to_string(m.value);
            s.append(v.as_str());
            s.append("' at '");
            s.append(m.path.as_str());
            s.append("' (first seen at '");
            s.append(first.as_str());
            s.append("')");
            s
        },
    }
}

/// Checks an `x-uniqueAcross` rule.
pub fn validate_unique_across(rule: &UniqueAcrossRule, data: &JsonValue) -> (r: Vec<ValidationError>)
    ensures
        errors_view(r@) == unique_across_errors(rule@, data@),
{
    let ms = collect_matches(&rule.paths, data);
    let ghost mv = matches_view(ms@);
    let mut errors: Vec<ValidationError> = Vec::new();
    let mut k: usize = 0;
    assert(errors_view(errors@) =~= seq![]);
    while k < ms.len()
        invariant
            mv == matches_view(ms@),
            mv == all_matches(rule@.paths, data@),
            k <= ms.len(),
            errors_view(errors@) == unique_errors_upto(rule@.message, mv, k as int),
        decreases ms.len() - k,
    {
        match first_equal_index(&ms, k) {
            Some(j) => {
                let message = duplicate_message_text(&rule.message, &ms[k], &ms[j].path);
                let e = located_error(message, &ms[k]);
                let ghost before = errors@;
                errors.push(e);
                assert(errors_view(errors@) =~= errors_view(before).push(e@));
            },
            None => {},
        }
        k += 1;
    }
    errors
}

// ----------------------------------------------------------------------------
// x-references
// ----------------------------------------------------------------------------
/// Does some match of `ts` have a value equal to `v`?
pub open spec fn has_equal(ts: Seq<(JsonView, Seq<char>)>, v: JsonView) -> bool {
    exists|j: int| 0 <= j < ts.len() && same_value(v, #[trigger] ts[j].0)
}

/// The message for the invalid reference `m`.
pub open spec fn reference_message(message: Option<Seq<char>>, m: (JsonView, Seq<char>)) -> Seq<char> {
    match message {
        Some(t) => interpolate(t, value_text(m.0), m.1, path_index(m.1)),
        None => "Invalid reference '"@ + value_text(m.0) + "' at '"@ + m.1 + "'"@,
    }
}

/// The errors of the first `n` references `ms`: one for each whose value equals no
/// target's.
pub open spec fn reference_errors_upto(
    message: Option<Seq<char>>,
    targets: Seq<(JsonView, Seq<char>)>,
    ms: Seq<(JsonView, Seq<char>)>,
    n: int,
) -> Seq<ErrorView>
    decreases n,
{
    if n <= 0 || n > ms.len() {
        seq![]
    } else {
        let prev = reference_errors_upto(message, targets, ms, n - 1);
        if has_equal(targets, ms[n - 1].0) {
            prev
        } else {
            prev.push(error_at(reference_message(message, ms[n - 1]), ms[n - 1].1, ms[n - 1].0))
        }
    }
}

/// The errors of an `x-references` rule: each match of `from`, in order, whose value
/// equals the value of no match of the `to` paths.
pub open spec fn references_errors(rule: ReferencesView, data: JsonView) -> Seq<ErrorView> {
    let ms = eval_path(rule.from, data);
    reference_errors_upto(rule.message, all_matches(rule.to, data), ms, ms.len() as int)
}

/// Is `v` equal to the value of one of the matches?
fn contains_equal(ts: &Vec<PathMatch>, v: &JsonValue) -> (r: bool)
    ensures
        r == has_equal(matches_view(ts@), v@),
{
    let ghost tv = matches_view(ts@);
    let mut j: usize = 0;
    while j < ts.len()
        invariant
            tv == matches_view(ts@),
            j <= ts.len(),
            forall|i: int| 0 <= i < j ==> !same_value(v@, #[trigger] tv[i].0),
        decreases ts.len() - j,
    {
        if values_equal(v, ts[j].value) {
            assert(same_value(v@, tv[j as int].0));
            return true;
        }
        j += 1;
    }
    false
}

/// The message for an invalid reference.
fn reference_message_text(message: &Option<String>, m: &PathMatch) -> (r: String)
    ensures
        r@ == reference_message(opt_view(*message), m@),
{
    match message {
        Some(t) => interpolate_message(t.as_str(), m.value, m.path.as_str(), index_of_path(m.path.as_str())),
        None => {
            let mut s = string_of("Invalid reference '");
            let v = value_to_string(m.value);
            s.append(v.as_str());
            s.append("' at '");
            s.append(m.path.as_str());
            s.append("'");
            s
        },
    }
}

/// Checks an `x-references` rule.
pub fn validate_references(rule: &ReferencesRule, data: &JsonValue) -> (r: Vec<ValidationError>)
    ensures
        errors_view(r@) == references_errors(rule@, data@),
{
    let targets = collect_matches(&rule.to, data);
    let ms = rule.from.evaluate(data);
    let ghost tv = matches_view(targets@);
    let ghost mv = matches_view(ms@);
    let mut errors: Vec<ValidationError> = Vec::new();
    let mut k: usize = 0;
    assert(errors_view(errors@) =~= seq![]);
    while k < ms.len()
        invariant
            tv == matches_view(targets@),
            tv == all_matches(rule@.to, data@),
            mv == matches_view(ms@),
            mv == eval_path(rule@.from, data@),
            k <= ms.len(),
            errors_view(errors@) == reference_errors_upto(rule@.message, tv, mv, k as int),
        decreases ms.len() - k,
    {
        if !contains_equal(&targets, ms[k].value) {
            let message = reference_message_text(&rule.message, &ms[k]);
            let e = located_error(message, &ms[k]);
            let ghost before = errors@;
            errors.push(e);
            assert(errors_view(errors@) =~= errors_view(before).push(e@));
        }
        k += 1;
    }
    errors
}

// ----------------------------------------------------------------------------
// x-referencedBy
// ----------------------------------------------------------------------------
/// How many of the first `n` references have a value equal to `v`.
pub open spec fn count_equal(refs: Seq<(JsonView, Seq<char>)>, v: JsonView, n: int) -> nat
    decreases n,
{
    if n <= 0 || n > refs.len() {
        0
    } else {
        count_equal(refs, v, n - 1) + if same_value(refs[n - 1].0, v) {
            1nat
        } else {
            0nat
        }
    }
}

/// How many references have a value equal to `v`.
pub open spec fn references_to(refs: Seq<(JsonView, Seq<char>)>, v: JsonView) -> nat {
    count_equal(refs, v, refs.len() as int)
}

/// The message for a target referenced fewer than `min` times.
pub open spec fn min_message(message: Option<Seq<char>>, m: (JsonView, Seq<char>), count: nat, min: nat) -> Seq<char> {
    match message {
        Some(t) => interpolate(t, value_text(m.0), m.1, path_index(m.1)),
        None => "Value '"@ + value_text(m.0) + "' at '"@ + m.1 + "' is referenced "@ + decimal(count)
            + " time(s), minimum is "@ + decimal(min),
    }
}

/// The message for a target referenced more than `max` times.
pub open spec fn max_message(m: (JsonView, Seq<char>), count: nat, max: nat) -> Seq<char> {
    "Value '"@ + value_text(m.0) + "' at '"@ + m.1 + "' is referenced "@ + decimal(count)
        + " time(s), maximum is "@ + decimal(max)
}

/// The errors for one target: one when it is referenced fewer than `min` times, and
/// one when it is referenced more than `max` times.
pub open spec fn target_errors(rule: ReferencedByView, refs: Seq<(JsonView, Seq<char>)>, m: (JsonView, Seq<char>)) -> Seq<ErrorView> {
    let c = references_to(refs, m.0);
    let low = if c < rule.min {
        seq![error_at(min_message(rule.message, m, c, rule.min), m.1, m.0)]
    } else {
        seq![]
    };
    let high = match rule.max {
        Some(x) => if c > x {
            seq![error_at(max_message(m, c, x), m.1, m.0)]
        } else {
            seq![]
        },
        None => seq![],
    };
    low + high
}

/// The errors of the first `n` targets `ms`.
pub open spec fn referenced_errors_upto(
    rule: ReferencedByView,
    refs: Seq<(JsonView, Seq<char>)>,
    ms: Seq<(JsonView, Seq<char>)>,
    n: int,
) -> Seq<ErrorView>
    decreases n,
{
    if n <= 0 || n > ms.len() {
        seq![]
    } else {
        referenced_errors_upto(rule, refs, ms, n - 1) + target_errors(rule, refs, ms[n - 1])
    }
}

/// The errors of an `x-referencedBy` rule: for each match of `target`, in order, the
/// errors of how often the matches of the `from` paths reference its value.
pub open spec fn referenced_by_errors(rule: ReferencedByView, data: JsonView) -> Seq<ErrorView> {
    let ms = eval_path(rule.target, data);
    referenced_errors_upto(rule, all_matches(rule.from, data), ms, ms.len() as int)
}

/// How many of the references have a value equal to `v`.
fn count_references(refs: &Vec<PathMatch>, v: &JsonValue) -> (r: usize)
    ensures
        r as nat == references_to(matches_view(refs@), v@),
{
    let ghost rv = matches_view(refs@);
    let mut count: usize = 0;
    let mut j: usize = 0;
    while j < refs.len()
        invariant
            rv == matches_view(refs@),
            j <= refs.len(),
            count <= j,
            count as nat == count_equal(rv, v@, j as int),
        decreases refs.len() - j,
    {
        if values_equal(refs[j].value, v) {
            count += 1;
        }
        j += 1;
    }
    count
}

/// The message for a target referenced too few times.
fn min_message_text(message: &Option<String>, m: &PathMatch, count: usize, min: usize) -> (r: String)
    ensures
        r@ == min_message(opt_view(*message), m@, count as nat, min as nat),
{
    match message {
        Some(t) => interpolate_message(t.as_str(), m.value, m.path.as_str(), index_of_path(m.path.as_str())),
        None => {
            let mut s = string_of("Value '");
            let v = value_to_string(m.value);
            s.append(v.as_str());
            s.append("' at '");
            s.append(m.path.as_str());
            s.append("' is referenced ");
            push_decimal(&mut s, count);
            s.append(" time(s), minimum is ");
            push_decimal(&mut s, min);
            s
        },
    }
}

/// The message for a target referenced too many times.
fn max_message_text(m: &PathMatch, count: usize, max: usize) -> (r: String)
    ensures
        r@ == max_message(m@, count as nat, max as nat),
{
    let mut s = string_of("Value '");
    let v = value_to_string(m.value);
    s.append(v.as_str());
    s.append("' at '");
    s.append(m.path.as_str());
    s.append("' is referenced ");
    push_decimal(&mut s, count);
    s.append(" time(s), maximum is ");
    push_decimal(&mut s, max);
    s
}

/// Checks an `x-referencedBy` rule.
pub fn validate_referenced_by(rule: &ReferencedByRule, data: &JsonValue) -> (r: Vec<ValidationError>)
    ensures
        errors_view(r@) == referenced_by_errors(rule@, data@),
{
    let refs = collect_matches(&rule.from, data);
    let ms = rule.target.evaluate(data);
    let ghost rv = matches_view(refs@);
    let ghost mv = matches_view(ms@);
    let mut errors: Vec<ValidationError> = Vec::new();
    let mut k: usize = 0;
    assert(errors_view(errors@) =~= seq![]);
    while k < ms.len()
        invariant
            rv == matches_view(refs@),
            rv == all_matches(rule@.from, data@),
            mv == matches_view(ms@),
            mv == eval_path(rule@.target, data@),
            k <= ms.len(),
            errors_view(errors@) == referenced_errors_upto(rule@, rv, mv, k as int),
        decreases ms.len() - k,
    {
        let count = count_references(&refs, ms[k].value);
        let ghost before = errors@;
        if count < rule.min {
            let message = min_message_text(&rule.message, &ms[k], count, rule.min);
            errors.push(located_error(message, &ms[k]));
        }
        let ghost middle = errors@;
        match rule.max {
            Some(max) => {
                if count > max {
                    let message = max_message_text(&ms[k], count, max);
                    errors.push(located_error(message, &ms[k]));
                }
            },
            None => {},
        }
        assert(errors_view(errors@) =~= errors_view(before) + target_errors(rule@, rv, mv[k as int]));
        k += 1;
    }
    errors
}

// ----------------------------------------------------------------------------
// The standard JSON Schema part
// ----------------------------------------------------------------------------
/// One error that jsonschema reports: its message, the JSON pointer of the failing
/// value, and that value.
#[derive(Debug)]
pub struct SchemaViolation {
    pub message: String,
    pub pointer: String,
    pub instance: JsonValue,
}

impl View for SchemaViolation {
    type V = (Seq<char>, Seq<char>, JsonView);

    open spec fn view(&self) -> (Seq<char>, Seq<char>, JsonView) {
        (self.message@, self.pointer@, self.instance@)
    }
}

/// The views of a report.
pub open spec fn violations_view(vs: Seq<SchemaViolation>) -> Seq<(Seq<char>, Seq<char>, JsonView)> {
    vs.map_values(|v: SchemaViolation| v@)
}

/// The validation error for a reported violation: its message, the JSONPath of its
/// pointer (none when that is empty) and the text of the failing value.
pub open spec fn violation_error(v: (Seq<char>, Seq<char>, JsonView)) -> ErrorView {
    let p = pointer_to_path(v.1);
    ErrorView {
        message: v.0,
        path: if p.len() == 0 {
            None
        } else {
            Some(p)
        },
        value: Some(value_text(v.2)),
        line: None,
        column: None,
    }
}

/// The validation errors for a report, in order.
pub open spec fn violation_errors(vs: Seq<(Seq<char>, Seq<char>, JsonView)>) -> Seq<ErrorView> {
    vs.map_values(|v: (Seq<char>, Seq<char>, JsonView)| violation_error(v))
}

/// What jsonschema reports for `data` against `schema`: the errors of
/// `Validator::iter_errors`, each as its `Display` text, its instance path and the
/// failing value, counted with their repeats; nothing when the schema does not
/// compile. Their order is not part of it.
pub uninterp spec fn jsonschema_report(schema: JsonView, data: JsonView) -> Multiset<
    (Seq<char>, Seq<char>, JsonView),
>;

/// `jsonschema::validator_for` on `schema`, then `Validator::iter_errors` on `data`:
/// the errors reported, taken together with their repeats, are the name
/// `jsonschema_report` of the two (remote references are never fetched). The order
/// in which they come is not stated: the validator keeps some of its tables in hash
/// maps seeded per process. What is reported is not stated either, nor that no
/// schema or document makes the validator panic.
#[verifier::external_body]
fn jsonschema_violations(schema: &JsonValue, data: &JsonValue) -> (r: Vec<SchemaViolation>)
    ensures
        violations_view(r@).to_multiset() == jsonschema_report(schema@, data@),
{
    let instance = to_serde(data);
    match jsonschema::validator_for(&to_serde(schema)) {
        Ok(validator) => validator.iter_errors(&instance).map(|e| SchemaViolation {
            message: e.to_string(),
            pointer: e.instance_path().as_str().to_string(),
            instance: from_serde(e.instance().as_ref()),
        }).collect(),
        Err(_) => Vec::new(),
    }
}

/// Converts a reported violation.
fn convert_jsonschema_error(v: &SchemaViolation) -> (e: ValidationError)
    ensures
        e@ == violation_error(v@),
{
    let path = jsonpointer_to_jsonpath(v.pointer.as_str());
    let empty = chars_of(path.as_str()).len() == 0;
    ValidationError {
        message: v.message.clone(),
        path: if empty {
            None
        } else {
            Some(path)
        },
        value: Some(value_to_string(&v.instance)),
        line: None,
        column: None,
    }
}

// ----------------------------------------------------------------------------
// Validation
// ----------------------------------------------------------------------------
/// The errors of a list of `x-uniqueAcross` rules, rule by rule.
pub open spec fn unique_all(rules: Seq<UniqueAcrossView>, data: JsonView) -> Seq<ErrorView>
    decreases rules.len(),
{
    if rules.len() == 0 {
        seq![]
    } else {
        unique_all(rules.drop_last(), data) + unique_across_errors(rules.last(), data)
    }
}

/// The errors of a list of `x-references` rules, rule by rule.
pub open spec fn references_all(rules: Seq<ReferencesView>, data: JsonView) -> Seq<ErrorView>
    decreases rules.len(),
{
    if rules.len() == 0 {
        seq![]
    } else {
        references_all(rules.drop_last(), data) + references_errors(rules.last(), data)
    }
}

/// The errors of a list of `x-referencedBy` rules, rule by rule.
pub open spec fn referenced_by_all(rules: Seq<ReferencedByView>, data: JsonView) -> Seq<ErrorView>
    decreases rules.len(),
{
    if rules.len() == 0 {
        seq![]
    } else {
        referenced_by_all(rules.drop_last(), data) + referenced_by_errors(rules.last(), data)
    }
}

/// The errors of the `x-` rules: the uniqueness rules, then the reference rules,
/// then the referenced-by rules.
pub open spec fn rule_errors(rules: RulesView, data: JsonView) -> Seq<ErrorView> {
    unique_all(rules.unique_across, data) + references_all(rules.references, data)
        + referenced_by_all(rules.referenced_by, data)
}

/// All errors of a document: those of the standard JSON Schema report first, then
/// those of the `x-` rules.
pub open spec fn validation_errors(
    rules: RulesView,
    data: JsonView,
    report: Seq<(Seq<char>, Seq<char>, JsonView)>,
) -> Seq<ErrorView> {
    violation_errors(report) + rule_errors(rules, data)
}

/// Validate a JSON value against a schema, given jsonschema's report on the
/// standard JSON Schema part.
pub fn validate_with_report(schema: &Schema, data: &JsonValue, report: &Vec<SchemaViolation>) -> (r: ValidationResult)
    ensures
        reports(r, validation_errors(rules_of(schema), data@, violations_view(report@))),
{
    let ghost rules = rules_of(schema);
    let mut errors: Vec<ValidationError> = Vec::new();
    let mut i: usize = 0;
    while i < report.len()
        invariant
            i <= report.len(),
            errors_view(errors@) == violation_errors(violations_view(report@).take(i as int)),
        decreases report.len() - i,
    {
        let e = convert_jsonschema_error(&report[i]);
        let ghost before = errors@;
        errors.push(e);
        assert(errors_view(errors@) =~= errors_view(before).push(e@));
        assert(violation_errors(violations_view(report@).take(i + 1)) =~= violation_errors(
            violations_view(report@).take(i as int),
        ).push(e@));
        i += 1;
    }
    assert(violations_view(report@).take(i as int) == violations_view(report@));
    let ghost js = errors_view(errors@);
    let mut u: usize = 0;
    assert(rules.unique_across.take(0) =~= seq![]);
    assert(js + unique_all(rules.unique_across.take(0), data@) =~= js);
    while u < schema.unique_across.len()
        invariant
            rules == rules_of(schema),
            u <= schema.unique_across.len(),
            errors_view(errors@) == js + unique_all(rules.unique_across.take(u as int), data@),
        decreases schema.unique_across.len() - u,
    {
        let mut found = validate_unique_across(&schema.unique_across[u], data);
        let ghost before = errors@;
        let ghost added = found@;
        errors.append(&mut found);
        assert(errors_view(errors@) =~= errors_view(before) + errors_view(added));
        assert(rules.unique_across.take(u + 1).drop_last() =~= rules.unique_across.take(u as int));
        assert(rules.unique_across.take(u + 1).last() == schema.unique_across@[u as int]@);
        u += 1;
    }
    assert(rules.unique_across.take(u as int) =~= rules.unique_across);
    let ghost ju = errors_view(errors@);
    let mut f: usize = 0;
    assert(rules.references.take(0) =~= seq![]);
    assert(ju + references_all(rules.references.take(0), data@) =~= ju);
    while f < schema.references.len()
        invariant
            rules == rules_of(schema),
            f <= schema.references.len(),
            errors_view(errors@) == ju + references_all(rules.references.take(f as int), data@),
        decreases schema.references.len() - f,
    {
        let mut found = validate_references(&schema.references[f], data);
        let ghost before = errors@;
        let ghost added = found@;
        errors.append(&mut found);
        assert(errors_view(errors@) =~= errors_view(before) + errors_view(added));
        assert(rules.references.take(f + 1).drop_last() =~= rules.references.take(f as int));
        assert(rules.references.take(f + 1).last() == schema.references@[f as int]@);
        f += 1;
    }
    assert(rules.references.take(f as int) =~= rules.references);
    let ghost jr = errors_view(errors@);
    let mut b: usize = 0;
    assert(rules.referenced_by.take(0) =~= seq![]);
    assert(jr + referenced_by_all(rules.referenced_by.take(0), data@) =~= jr);
    while b < schema.referenced_by.len()
        invariant
            rules == rules_of(schema),
            b <= schema.referenced_by.len(),
            errors_view(errors@) == jr + referenced_by_all(rules.referenced_by.take(b as int), data@),
        decreases schema.referenced_by.len() - b,
    {
        let mut found = validate_referenced_by(&schema.referenced_by[b], data);
        let ghost before = errors@;
        let ghost added = found@;
        errors.append(&mut found);
        assert(errors_view(errors@) =~= errors_view(before) + errors_view(added));
        assert(rules.referenced_by.take(b + 1).drop_last() =~= rules.referenced_by.take(b as int));
        assert(rules.referenced_by.take(b + 1).last() == schema.referenced_by@[b as int]@);
        b += 1;
    }
    assert(rules.referenced_by.take(b as int) =~= rules.referenced_by);
    assert(errors_view(errors@) =~= validation_errors(rules, data@, violations_view(report@)));
    if errors.len() == 0 {
        Ok(())
    } else {
        Err(errors)
    }
}

/// What jsonschema reports for `data` against the standard JSON Schema part of a
/// schema, taken together with repeats: nothing when it has none.
pub open spec fn schema_report(schema: &Schema, data: JsonView) -> Multiset<(Seq<char>, Seq<char>, JsonView)> {
    match schema.json_schema {
        Some(v) => jsonschema_report(v@, data),
        None => Multiset::empty(),
    }
}

/// `r` reports the errors of `data` for a schema whose standard part reports the
/// errors `report` (in some order): those errors in that order, then the errors of
/// the `x-` rules.
pub open spec fn reports_in_some_order(
    r: ValidationResult,
    rules: RulesView,
    data: JsonView,
    report: Multiset<(Seq<char>, Seq<char>, JsonView)>,
) -> bool {
    exists|order: Seq<(Seq<char>, Seq<char>, JsonView)>|
        #[trigger] order.to_multiset() == report && reports(r, validation_errors(rules, data, order))
}

/// Validate a JSON value against a schema: the standard JSON Schema part first
/// (when the schema has one), then the `x-` rules.
pub fn validate(schema: &Schema, data: &JsonValue) -> (r: ValidationResult)
    ensures
        reports_in_some_order(r, rules_of(schema), data@, schema_report(schema, data@)),
{
    let report = match &schema.json_schema {
        Some(validator) => jsonschema_violations(validator.schema(), data),
        None => Vec::new(),
    };
    proof {
        if schema.json_schema is None {
            assert(violations_view(report@) =~= seq![]);
            lemma_no_report(violations_view(report@));
        }
    }
    let r = validate_with_report(schema, data, &report);
    assert(reports_in_some_order(r, rules_of(schema), data@, schema_report(schema, data@))) by {
        let order = violations_view(report@);
        assert(order.to_multiset() == schema_report(schema, data@));
    }
    r
}

/// An empty report counts no error.
proof fn lemma_no_report(order: Seq<(Seq<char>, Seq<char>, JsonView)>)
    requires
        order.len() == 0,
    ensures
        order.to_multiset() == Multiset::<(Seq<char>, Seq<char>, JsonView)>::empty(),
{
    broadcast use vstd::seq_lib::group_to_multiset_ensures;
    broadcast use vstd::multiset::lemma_multiset_empty_len;

    assert(order.to_multiset().len() == 0);
}

// ----------------------------------------------------------------------------
// Locating errors in the source
// ----------------------------------------------------------------------------
/// An error with the line and column of its path, when the source map has them.
pub open spec fn enrich(e: ErrorView, map: Map<Seq<char>, SourceSpan>) -> ErrorView {
    match e.path {
        Some(p) => if map.dom().contains(p) {
            ErrorView { line: Some(map[p].line), column: Some(map[p].column), ..e }
        } else {
            e
        },
        None => e,
    }
}

/// Each error located by the source map, in order.
pub open spec fn enrich_all(es: Seq<ErrorView>, map: Map<Seq<char>, SourceSpan>) -> Seq<ErrorView> {
    es.map_values(|e: ErrorView| enrich(e, map))
}

/// Enrich validation errors with source location information from a source map.
pub fn enrich_errors(errors: Vec<ValidationError>, source_map: &SourceMap) -> (r: Vec<ValidationError>)
    ensures
        errors_view(r@) == enrich_all(errors_view(errors@), source_map@),
{
    let ghost orig = errors@;
    let mut out: Vec<ValidationError> = Vec::new();
    for err in it: errors.into_iter()
        invariant
            it.seq() == orig,
            out.len() == it.index(),
            forall|k: int| 0 <= k < out.len() ==> #[trigger] out@[k]@ == enrich(orig[k]@, source_map@),
    {
        let mut err = err;
        match &err.path {
            Some(path) => match source_map.get(path.as_str()) {
                Some(span) => {
                    err.line = Some(span.line);
                    err.column = Some(span.column);
                },
                None => {},
            },
            None => {},
        }
        out.push(err);
    }
    assert(errors_view(out@) =~= enrich_all(errors_view(orig), source_map@));
    out
}

/// The outcome of validating a document: the errors, each located in the source.
pub open spec fn reports_located(
    r: ValidationResult,
    rules: RulesView,
    data: JsonView,
    report: Seq<(Seq<char>, Seq<char>, JsonView)>,
    map: Map<Seq<char>, SourceSpan>,
) -> bool {
    reports(r, enrich_all(validation_errors(rules, data, report), map))
}

/// `r` reports the errors of `data` for a schema whose standard part reports the
/// errors `report` (in some order), each located by the source map.
pub open spec fn located_in_some_order(
    r: ValidationResult,
    rules: RulesView,
    data: JsonView,
    report: Multiset<(Seq<char>, Seq<char>, JsonView)>,
    map: Map<Seq<char>, SourceSpan>,
) -> bool {
    exists|order: Seq<(Seq<char>, Seq<char>, JsonView)>|
        #[trigger] order.to_multiset() == report && reports_located(r, rules, data, order, map)
}

/// Validate a JSON string against a schema, with error locations mapped
/// back to the JSON source.
///
/// Returns `Err(JsonError)` if the JSON cannot be parsed,
/// or `Ok(ValidationResult)` with enriched errors containing line/column info.
pub fn validate_json(schema: &Schema, json_src: &str) -> (r: Result<ValidationResult, JsonError>)
    ensures
        match serde_json_parse(json_src@) {
            Err(e) => r matches Err(JsonError::Parse(m)) && m@ == e,
            Ok(v) => if locatable(json_src.spec_bytes().len(), v) {
                r matches Ok(res) && located_in_some_order(
                    res,
                    rules_of(schema),
                    v,
                    schema_report(schema, v),
                    json_source_map(v, json_src.spec_bytes()),
                )
            } else {
                r matches Err(JsonError::Parse(m)) && m@ == crate::json::too_large_message()
            },
        },
{
    let (data, source_map) = match json_with_source_map(json_src) {
        Ok(parsed) => parsed,
        Err(e) => {
            return Err(e);
        },
    };
    Ok(located(schema, &data, &source_map))
}

/// Validates a parsed document and locates its errors with the source map.
fn located(schema: &Schema, data: &JsonValue, source_map: &SourceMap) -> (r: ValidationResult)
    ensures
        located_in_some_order(r, rules_of(schema), data@, schema_report(schema, data@), source_map@),
{
    let report = match &schema.json_schema {
        Some(validator) => jsonschema_violations(validator.schema(), data),
        None => Vec::new(),
    };
    let ghost rv = violations_view(report@);
    proof {
        if schema.json_schema is None {
            assert(rv =~= seq![]);
            lemma_no_report(rv);
        }
        assert(rv.to_multiset() == schema_report(schema, data@));
    }
    let ghost all = validation_errors(rules_of(schema), data@, rv);
    match validate_with_report(schema, data, &report) {
        Ok(()) => {
            assert(enrich_all(all, source_map@) =~= seq![]);
            assert(reports_located(Ok(()), rules_of(schema), data@, rv, source_map@));
            Ok(())
        },
        Err(errors) => {
            assert(errors_view(errors@).len() == errors@.len());
            let enriched = enrich_errors(errors, source_map);
            assert(errors_view(enriched@).len() == enriched@.len());
            assert(enriched.len() > 0);
            assert(reports_located(Err(enriched), rules_of(schema), data@, rv, source_map@));
            Err(enriched)
        },
    }
}

/// Validate a TOML string against a schema, with error locations mapped
/// back to the TOML source.
///
/// Returns `Err(TomlError)` if the TOML cannot be parsed,
/// or `Ok(ValidationResult)` with enriched errors containing line/column info.
pub fn validate_toml(schema: &Schema, toml_src: &str) -> (r: Result<ValidationResult, TomlError>)
    ensures
        match toml_span_parse(toml_src@) {
            Err(e) => r matches Err(TomlError::Parse(m)) && m@ == e,
            Ok(t) => if toml_src.spec_bytes().len() < usize::MAX {
                r matches Ok(res) && located_in_some_order(
                    res,
                    rules_of(schema),
                    toml_json(t),
                    schema_report(schema, toml_json(t)),
                    toml_source_map(t, toml_src.spec_bytes()),
                )
            } else {
                r matches Err(TomlError::Parse(m)) && m@ == crate::json::too_large_message()
            },
        },
{
    let (data, source_map) = match toml_to_json(toml_src) {
        Ok(parsed) => parsed,
        Err(e) => {
            return Err(e);
        },
    };
    Ok(located(schema, &data, &source_map))
}

// ----------------------------------------------------------------------------
// Laws
// ----------------------------------------------------------------------------
proof fn lemma_first_equal_from(ms: Seq<(JsonView, Seq<char>)>, k: int, j: int)
    requires
        0 <= j <= k < ms.len(),
    ensures
        first_equal_from(ms, k, j) >= -1,
        first_equal_from(ms, k, j) == -1 <==> forall|i: int|
            j <= i < k ==> !same_value(ms[k].0, #[trigger] ms[i].0),
    decreases k - j,
{
    if j < k {
        lemma_first_equal_from(ms, k, j + 1);
    }
}

proof fn lemma_unique_errors_upto(message: Option<Seq<char>>, ms: Seq<(JsonView, Seq<char>)>, n: int)
    requires
        0 <= n <= ms.len(),
    ensures
        unique_errors_upto(message, ms, n).len() == 0 <==> forall|j: int, k: int|
            0 <= j < k < n ==> !same_value(#[trigger] ms[j].0, #[trigger] ms[k].0),
    decreases n,
{
    if n > 0 {
        lemma_unique_errors_upto(message, ms, n - 1);
        lemma_first_equal_from(ms, n - 1, 0);
        let last = ms[n - 1].0;
        if first_equal(ms, n - 1) >= 0 {
            assert(unique_errors_upto(message, ms, n).len() > 0);
            let j = choose|i: int| 0 <= i < n - 1 && same_value(last, #[trigger] ms[i].0);
            lemma_same_value_symmetric(last, ms[j].0);
            assert(same_value(ms[j].0, ms[n - 1].0));
        } else {
            if forall|j: int, k: int| 0 <= j < k < n - 1 ==> !same_value(#[trigger] ms[j].0, #[trigger] ms[k].0) {
                assert forall|j: int, k: int| 0 <= j < k < n implies !same_value(
                    #[trigger] ms[j].0,
                    #[trigger] ms[k].0,
                ) by {
                    if k == n - 1 && same_value(ms[j].0, ms[k].0) {
                        lemma_same_value_symmetric(ms[j].0, ms[k].0);
                        assert(!same_value(last, ms[j].0));
                    }
                }
            }
        }
    }
}

/// An `x-uniqueAcross` rule reports nothing exactly when the values found at its
/// paths are pairwise different.
pub proof fn law_unique_across_distinct(rule: UniqueAcrossView, data: JsonView)
    ensures
        unique_across_errors(rule, data).len() == 0 <==> forall|j: int, k: int|
            0 <= j < k < all_matches(rule.paths, data).len() ==> !same_value(
                #[trigger] all_matches(rule.paths, data)[j].0,
                #[trigger] all_matches(rule.paths, data)[k].0,
            ),
{
    let ms = all_matches(rule.paths, data);
    lemma_unique_errors_upto(rule.message, ms, ms.len() as int);
}

proof fn lemma_reference_errors_upto(
    message: Option<Seq<char>>,
    targets: Seq<(JsonView, Seq<char>)>,
    ms: Seq<(JsonView, Seq<char>)>,
    n: int,
)
    requires
        0 <= n <= ms.len(),
    ensures
        reference_errors_upto(message, targets, ms, n).len() == 0 <==> forall|k: int|
            0 <= k < n ==> has_equal(targets, #[trigger] ms[k].0),
    decreases n,
{
    if n > 0 {
        lemma_reference_errors_upto(message, targets, ms, n - 1);
    }
}

/// An `x-references` rule reports nothing exactly when every value found at `from`
/// equals some value found at one of the `to` paths.
pub proof fn law_references_resolve(rule: ReferencesView, data: JsonView)
    ensures
        references_errors(rule, data).len() == 0 <==> forall|k: int|
            0 <= k < eval_path(rule.from, data).len() ==> has_equal(
                all_matches(rule.to, data),
                #[trigger] eval_path(rule.from, data)[k].0,
            ),
{
    let ms = eval_path(rule.from, data);
    lemma_reference_errors_upto(rule.message, all_matches(rule.to, data), ms, ms.len() as int);
}

/// The references of `ms` whose value equals the value of no target, in order.
pub open spec fn unresolved(
    targets: Seq<(JsonView, Seq<char>)>,
    ms: Seq<(JsonView, Seq<char>)>,
) -> Seq<(JsonView, Seq<char>)> {
    ms.filter(|m: (JsonView, Seq<char>)| !has_equal(targets, m.0))
}

proof fn lemma_reference_errors_unresolved(
    message: Option<Seq<char>>,
    targets: Seq<(JsonView, Seq<char>)>,
    ms: Seq<(JsonView, Seq<char>)>,
    n: int,
)
    requires
        0 <= n <= ms.len(),
    ensures
        ({
            let u = unresolved(targets, ms.take(n));
            let es = reference_errors_upto(message, targets, ms, n);
            &&& es.len() == u.len()
            &&& forall|i: int|
                0 <= i < u.len() ==> #[trigger] es[i] == error_at(
                    reference_message(message, u[i]),
                    u[i].1,
                    u[i].0,
                )
        }),
    decreases n,
{
    reveal(Seq::filter);
    if n == 0 {
        assert(ms.take(0).len() == 0);
    } else {
        lemma_reference_errors_unresolved(message, targets, ms, n - 1);
        assert(ms.take(n).drop_last() == ms.take(n - 1));
        assert(ms.take(n).last() == ms[n - 1]);
        let u0 = unresolved(targets, ms.take(n - 1));
        let es0 = reference_errors_upto(message, targets, ms, n - 1);
        let u = unresolved(targets, ms.take(n));
        let es = reference_errors_upto(message, targets, ms, n);
        if has_equal(targets, ms[n - 1].0) {
            assert(u == u0);
        } else {
            assert(u == u0.push(ms[n - 1]));
            assert forall|i: int| 0 <= i < u.len() implies #[trigger] es[i] == error_at(
                reference_message(message, u[i]),
                u[i].1,
                u[i].0,
            ) by {
                if i < u0.len() {
                    assert(es[i] == es0[i]);
                    assert(u[i] == u0[i]);
                }
            }
        }
    }
}

/// An `x-references` rule reports one error for each match of `from`, in order,
/// whose value equals the value of no match of the `to` paths, and nothing else:
/// the error is at that match's path, with its value and its message.
pub proof fn law_references_one_error_per_unresolved(rule: ReferencesView, data: JsonView)
    ensures
        ({
            let u = unresolved(all_matches(rule.to, data), eval_path(rule.from, data));
            let es = references_errors(rule, data);
            &&& es.len() == u.len()
            &&& forall|i: int|
                0 <= i < u.len() ==> (#[trigger] es[i]).path == Some(u[i].1) && es[i].value == Some(
                    value_text(u[i].0),
                ) && es[i].message == reference_message(rule.message, u[i])
        }),
{
    let ms = eval_path(rule.from, data);
    let ts = all_matches(rule.to, data);
    lemma_reference_errors_unresolved(rule.message, ts, ms, ms.len() as int);
    assert(ms.take(ms.len() as int) == ms);
}

/// A path always refers to its own values: an `x-references` rule whose `to` is its
/// `from` reports nothing.
pub proof fn law_references_to_itself(from: Seq<SegmentView>, message: Option<Seq<char>>, data: JsonView)
    ensures
        references_errors(ReferencesView { from, to: seq![from], message }, data).len() == 0,
{
    let rule = ReferencesView { from, to: seq![from], message };
    let ms = eval_path(from, data);
    assert(seq![from].drop_last() =~= Seq::<Seq<SegmentView>>::empty());
    assert(all_matches(Seq::<Seq<SegmentView>>::empty(), data) =~= seq![]);
    assert(all_matches(seq![from], data) =~= ms);
    assert forall|k: int| 0 <= k < ms.len() implies has_equal(ms, #[trigger] ms[k].0) by {
        lemma_same_value_reflexive(ms[k].0);
        assert(same_value(ms[k].0, ms[k].0));
    }
    law_references_resolve(rule, data);
}

/// Whether a count of references is within a rule's bounds.
pub open spec fn within_bounds(rule: ReferencedByView, count: nat) -> bool {
    &&& rule.min <= count
    &&& (rule.max matches Some(x) ==> count <= x)
}

proof fn lemma_referenced_errors_upto(
    rule: ReferencedByView,
    refs: Seq<(JsonView, Seq<char>)>,
    ms: Seq<(JsonView, Seq<char>)>,
    n: int,
)
    requires
        0 <= n <= ms.len(),
    ensures
        referenced_errors_upto(rule, refs, ms, n).len() == 0 <==> forall|k: int|
            0 <= k < n ==> within_bounds(rule, references_to(refs, #[trigger] ms[k].0)),
    decreases n,
{
    if n > 0 {
        lemma_referenced_errors_upto(rule, refs, ms, n - 1);
    }
}

/// An `x-referencedBy` rule reports nothing exactly when every value found at
/// `target` is referenced (equalled by values found at the `from` paths) at least
/// `min` and, when `max` is given, at most `max` times.
pub proof fn law_referenced_by_bounds(rule: ReferencedByView, data: JsonView)
    ensures
        referenced_by_errors(rule, data).len() == 0 <==> forall|k: int|
            0 <= k < eval_path(rule.target, data).len() ==> within_bounds(
                rule,
                references_to(all_matches(rule.from, data), #[trigger] eval_path(rule.target, data)[k].0),
            ),
{
    let ms = eval_path(rule.target, data);
    lemma_referenced_errors_upto(rule, all_matches(rule.from, data), ms, ms.len() as int);
}

/// Validation succeeds exactly when neither the standard JSON Schema report nor any
/// `x-` rule has an error.
pub proof fn law_validation_succeeds(
    r: ValidationResult,
    rules: RulesView,
    data: JsonView,
    report: Seq<(Seq<char>, Seq<char>, JsonView)>,
)
    requires
        reports(r, validation_errors(rules, data, report)),
    ensures
        r is Ok <==> report.len() == 0 && rule_errors(rules, data).len() == 0,
{
    assert(violation_errors(report).len() == report.len());
}

/// A schema without `x-` rules has no rule errors, whatever the data.
pub proof fn law_no_rules_no_errors(rules: RulesView, data: JsonView)
    requires
        rules.unique_across.len() == 0,
        rules.references.len() == 0,
        rules.referenced_by.len() == 0,
    ensures
        rule_errors(rules, data).len() == 0,
{
}

/// Locating errors keeps them, in order, with their messages, paths and values;
/// an error gets a line and column exactly when the source map has its path.
pub proof fn law_enrich_keeps_errors(es: Seq<ErrorView>, map: Map<Seq<char>, SourceSpan>)
    ensures
        enrich_all(es, map).len() == es.len(),
        forall|i: int|
            0 <= i < es.len() ==> {
                let e = #[trigger] enrich_all(es, map)[i];
                &&& e.message == es[i].message
                &&& e.path == es[i].path
                &&& e.value == es[i].value
                &&& (match es[i].path {
                    Some(p) => if map.dom().contains(p) {
                        e.line == Some(map[p].line) && e.column == Some(map[p].column)
                    } else {
                        e.line == es[i].line && e.column == es[i].column
                    },
                    None => e.line == es[i].line && e.column == es[i].column,
                })
            },
{
}

/// An error located in a JSON document points at the start of its value: its line
/// and column are those of the first byte of the span that the document's source
/// map records for its path.
pub proof fn law_json_errors_point_at_values(es: Seq<ErrorView>, v: JsonView, b: Seq<u8>)
    ensures
        forall|i: int|
            0 <= i < es.len() && es[i].path is Some && json_source_map(v, b).dom().contains(
                es[i].path->0,
            ) ==> {
                let span = json_source_map(v, b)[es[i].path->0];
                let (line, column) = line_col(span.start as int, line_offsets_of(b));
                &&& #[trigger] enrich_all(es, json_source_map(v, b))[i].line == Some(line)
                &&& enrich_all(es, json_source_map(v, b))[i].column == Some(column)
            },
{
    crate::json::law_json_spans_located(v, b);
}

/// An error located in a TOML document points at the start of its value: its line
/// and column are those of the first byte of the span that the document's source
/// map records for its path.
pub proof fn law_toml_errors_point_at_values(es: Seq<ErrorView>, t: TomlView, b: Seq<u8>)
    ensures
        forall|i: int|
            0 <= i < es.len() && es[i].path is Some && toml_source_map(t, b).dom().contains(
                es[i].path->0,
            ) ==> {
                let span = toml_source_map(t, b)[es[i].path->0];
                let (line, column) = line_col(span.start as int, line_offsets_of(b));
                &&& #[trigger] enrich_all(es, toml_source_map(t, b))[i].line == Some(line)
                &&& enrich_all(es, toml_source_map(t, b))[i].column == Some(column)
            },
{
    crate::toml::law_toml_spans_located(t, b);
}

/// Every error is at the path of a value that some path finds in `data`.
pub open spec fn errors_found(es: Seq<ErrorView>, data: JsonView) -> bool {
    forall|i: int|
        0 <= i < es.len() ==> (#[trigger] es[i]).path is Some && found_path(data, es[i].path->0)
}

proof fn lemma_errors_found_concat(a: Seq<ErrorView>, c: Seq<ErrorView>, data: JsonView)
    requires
        errors_found(a, data),
        errors_found(c, data),
    ensures
        errors_found(a + c, data),
{
    assert forall|i: int| 0 <= i < (a + c).len() implies (#[trigger] (a + c)[i]).path is Some
        && found_path(data, (a + c)[i].path->0) by {
        if i < a.len() {
            assert((a + c)[i] == a[i]);
        } else {
            assert((a + c)[i] == c[i - a.len()]);
        }
    }
}

/// Every match of a list of paths is at a found path.
proof fn lemma_all_matches_found(paths: Seq<Seq<SegmentView>>, data: JsonView)
    ensures
        forall|k: int|
            0 <= k < all_matches(paths, data).len() ==> found_path(
                data,
                (#[trigger] all_matches(paths, data)[k]).1,
            ),
    decreases paths.len(),
{
    if paths.len() > 0 {
        lemma_all_matches_found(paths.drop_last(), data);
        let a = all_matches(paths.drop_last(), data);
        let c = eval_path(paths.last(), data);
        assert forall|k: int| 0 <= k < (a + c).len() implies found_path(data, (#[trigger] (a + c)[k]).1) by {
            if k < a.len() {
                assert((a + c)[k] == a[k]);
            } else {
                assert((a + c)[k] == c[k - a.len()]);
                assert(found_path(data, c[k - a.len()].1));
            }
        }
    }
}

proof fn lemma_unique_errors_found(
    message: Option<Seq<char>>,
    ms: Seq<(JsonView, Seq<char>)>,
    n: int,
    data: JsonView,
)
    requires
        0 <= n <= ms.len(),
        forall|k: int| 0 <= k < ms.len() ==> found_path(data, (#[trigger] ms[k]).1),
    ensures
        errors_found(unique_errors_upto(message, ms, n), data),
    decreases n,
{
    if n > 0 {
        lemma_unique_errors_found(message, ms, n - 1, data);
        assert(found_path(data, ms[n - 1].1));
    }
}

proof fn lemma_reference_errors_found(
    message: Option<Seq<char>>,
    targets: Seq<(JsonView, Seq<char>)>,
    ms: Seq<(JsonView, Seq<char>)>,
    n: int,
    data: JsonView,
)
    requires
        0 <= n <= ms.len(),
        forall|k: int| 0 <= k < ms.len() ==> found_path(data, (#[trigger] ms[k]).1),
    ensures
        errors_found(reference_errors_upto(message, targets, ms, n), data),
    decreases n,
{
    if n > 0 {
        lemma_reference_errors_found(message, targets, ms, n - 1, data);
        assert(found_path(data, ms[n - 1].1));
    }
}

proof fn lemma_referenced_errors_found(
    rule: ReferencedByView,
    refs: Seq<(JsonView, Seq<char>)>,
    ms: Seq<(JsonView, Seq<char>)>,
    n: int,
    data: JsonView,
)
    requires
        0 <= n <= ms.len(),
        forall|k: int| 0 <= k < ms.len() ==> found_path(data, (#[trigger] ms[k]).1),
    ensures
        errors_found(referenced_errors_upto(rule, refs, ms, n), data),
    decreases n,
{
    if n > 0 {
        lemma_referenced_errors_found(rule, refs, ms, n - 1, data);
        assert(found_path(data, ms[n - 1].1));
        let te = target_errors(rule, refs, ms[n - 1]);
        assert(errors_found(te, data));
        lemma_errors_found_concat(referenced_errors_upto(rule, refs, ms, n - 1), te, data);
    }
}

proof fn lemma_eval_found(segs: Seq<SegmentView>, data: JsonView)
    ensures
        forall|k: int|
            0 <= k < eval_path(segs, data).len() ==> found_path(data, (#[trigger] eval_path(segs, data)[k]).1),
{
}

/// Every error of the `x-` rules is at the path of a value that one of the rules'
/// paths finds.
pub proof fn law_rule_errors_found(rules: RulesView, data: JsonView)
    ensures
        errors_found(rule_errors(rules, data), data),
{
    lemma_unique_all_found(rules.unique_across, data);
    lemma_references_all_found(rules.references, data);
    lemma_referenced_by_all_found(rules.referenced_by, data);
    lemma_errors_found_concat(
        unique_all(rules.unique_across, data),
        references_all(rules.references, data),
        data,
    );
    lemma_errors_found_concat(
        unique_all(rules.unique_across, data) + references_all(rules.references, data),
        referenced_by_all(rules.referenced_by, data),
        data,
    );
}

proof fn lemma_unique_all_found(rules: Seq<UniqueAcrossView>, data: JsonView)
    ensures
        errors_found(unique_all(rules, data), data),
    decreases rules.len(),
{
    if rules.len() > 0 {
        lemma_unique_all_found(rules.drop_last(), data);
        let rule = rules.last();
        let ms = all_matches(rule.paths, data);
        lemma_all_matches_found(rule.paths, data);
        lemma_unique_errors_found(rule.message, ms, ms.len() as int, data);
        lemma_errors_found_concat(unique_all(rules.drop_last(), data), unique_across_errors(rule, data), data);
    }
}

proof fn lemma_references_all_found(rules: Seq<ReferencesView>, data: JsonView)
    ensures
        errors_found(references_all(rules, data), data),
    decreases rules.len(),
{
    if rules.len() > 0 {
        lemma_references_all_found(rules.drop_last(), data);
        let rule = rules.last();
        let ms = eval_path(rule.from, data);
        lemma_eval_found(rule.from, data);
        lemma_reference_errors_found(rule.message, all_matches(rule.to, data), ms, ms.len() as int, data);
        lemma_errors_found_concat(references_all(rules.drop_last(), data), references_errors(rule, data), data);
    }
}

proof fn lemma_referenced_by_all_found(rules: Seq<ReferencedByView>, data: JsonView)
    ensures
        errors_found(referenced_by_all(rules, data), data),
    decreases rules.len(),
{
    if rules.len() > 0 {
        lemma_referenced_by_all_found(rules.drop_last(), data);
        let rule = rules.last();
        let ms = eval_path(rule.target, data);
        lemma_eval_found(rule.target, data);
        lemma_referenced_errors_found(rule, all_matches(rule.from, data), ms, ms.len() as int, data);
        lemma_errors_found_concat(
            referenced_by_all(rules.drop_last(), data),
            referenced_by_errors(rule, data),
            data,
        );
    }
}

/// In a JSON document whose text reads its value back, every error of the `x-`
/// rules whose path is not empty is at a path that the document's source map
/// records, so locating it gives it a line and a column.
pub proof fn law_json_rule_errors_located(rules: RulesView, v: JsonView, b: Seq<u8>)
    requires
        json_reads_back(v, b),
    ensures
        forall|i: int|
            0 <= i < rule_errors(rules, v).len() ==> {
                let e = #[trigger] rule_errors(rules, v)[i];
                &&& e.path is Some
                &&& e.path->0.len() > 0 ==> json_source_map(v, b).dom().contains(e.path->0)
                &&& e.path->0.len() > 0 ==> enrich(e, json_source_map(v, b)).line is Some
            },
{
    let es = rule_errors(rules, v);
    law_rule_errors_found(rules, v);
    assert forall|i: int| 0 <= i < es.len() && (#[trigger] es[i]).path->0.len() > 0 implies json_source_map(
        v,
        b,
    ).dom().contains(es[i].path->0) by {
        let p = es[i].path->0;
        assert(found_path(v, p));
        let (segs, k) = choose|segs: Seq<SegmentView>, k: int|
            0 <= k < eval_path(segs, v).len() && (#[trigger] eval_path(segs, v)[k]).1 == p;
        law_json_paths_recorded(v, b, segs);
        assert(eval_path(segs, v)[k].1 == p);
    }
}

/// Validating a JSON document's text locates every error of the `x-` rules: in the
/// errors that `validate_json` reports, those after the standard JSON Schema errors
/// have a path, and a line and a column when the path is not empty, when the text
/// reads the document's value back.
pub proof fn law_json_rule_errors_get_lines(
    l: ValidationResult,
    rules: RulesView,
    v: JsonView,
    b: Seq<u8>,
    order: Seq<(Seq<char>, Seq<char>, JsonView)>,
)
    requires
        reports_located(l, rules, v, order, json_source_map(v, b)),
        json_reads_back(v, b),
    ensures
        l matches Err(ls) ==> forall|i: int|
            order.len() <= i < ls.len() ==> {
                let e = #[trigger] ls@[i]@;
                &&& e.path is Some
                &&& e.path->0.len() > 0 ==> e.line is Some && e.column is Some
            },
        l is Ok ==> rule_errors(rules, v).len() == 0,
{
    let map = json_source_map(v, b);
    let es = rule_errors(rules, v);
    let all = violation_errors(order) + es;
    law_json_rule_errors_located(rules, v, b);
    if let Err(ls) = l {
        assert forall|i: int| order.len() <= i < ls.len() implies ({
            let e = #[trigger] ls@[i]@;
            &&& e.path is Some
            &&& e.path->0.len() > 0 ==> e.line is Some && e.column is Some
        }) by {
            assert(errors_view(ls@)[i] == ls@[i]@);
            assert(enrich_all(all, map)[i] == enrich(all[i], map));
            assert(all[i] == es[i - order.len()]);
            assert(es[i - order.len()].path is Some);
        }
    } else {
        assert(all.len() == 0);
    }
}

/// In a TOML document, every error of the `x-` rules whose path is not empty is at a
/// path that the document's source map records, so locating it gives it a line and
/// a column.
pub proof fn law_toml_rule_errors_located(rules: RulesView, t: TomlView, b: Seq<u8>)
    requires
        plain_scalars(t),
    ensures
        forall|i: int|
            0 <= i < rule_errors(rules, toml_json(t)).len() ==> {
                let e = #[trigger] rule_errors(rules, toml_json(t))[i];
                &&& e.path is Some
                &&& e.path->0.len() > 0 ==> toml_source_map(t, b).dom().contains(e.path->0)
                &&& e.path->0.len() > 0 ==> enrich(e, toml_source_map(t, b)).line is Some
            },
{
    let data = toml_json(t);
    let es = rule_errors(rules, data);
    law_rule_errors_found(rules, data);
    assert forall|i: int| 0 <= i < es.len() && (#[trigger] es[i]).path->0.len() > 0 implies toml_source_map(
        t,
        b,
    ).dom().contains(es[i].path->0) by {
        let p = es[i].path->0;
        assert(found_path(data, p));
        let (segs, k) = choose|segs: Seq<SegmentView>, k: int|
            0 <= k < eval_path(segs, data).len() && (#[trigger] eval_path(segs, data)[k]).1 == p;
        law_toml_paths_recorded(t, b, segs);
        assert(eval_path(segs, data)[k].1 == p);
    }
}

/// Validating a TOML document's text locates every error of the `x-` rules: in the
/// errors that `validate_toml` reports, those after the standard JSON Schema errors
/// have a path, and a line and a column when the path is not empty.
pub proof fn law_toml_rule_errors_get_lines(
    l: ValidationResult,
    rules: RulesView,
    t: TomlView,
    b: Seq<u8>,
    order: Seq<(Seq<char>, Seq<char>, JsonView)>,
)
    requires
        reports_located(l, rules, toml_json(t), order, toml_source_map(t, b)),
        plain_scalars(t),
    ensures
        l matches Err(ls) ==> forall|i: int|
            order.len() <= i < ls.len() ==> {
                let e = #[trigger] ls@[i]@;
                &&& e.path is Some
                &&& e.path->0.len() > 0 ==> e.line is Some && e.column is Some
            },
        l is Ok ==> rule_errors(rules, toml_json(t)).len() == 0,
{
    let map = toml_source_map(t, b);
    let es = rule_errors(rules, toml_json(t));
    let all = violation_errors(order) + es;
    law_toml_rule_errors_located(rules, t, b);
    if let Err(ls) = l {
        assert forall|i: int| order.len() <= i < ls.len() implies ({
            let e = #[trigger] ls@[i]@;
            &&& e.path is Some
            &&& e.path->0.len() > 0 ==> e.line is Some && e.column is Some
        }) by {
            assert(errors_view(ls@)[i] == ls@[i]@);
            assert(enrich_all(all, map)[i] == enrich(all[i], map));
            assert(all[i] == es[i - order.len()]);
            assert(es[i - order.len()].path is Some);
        }
    } else {
        assert(all.len() == 0);
    }
}

/// Validating a document's text gives what validating its value gives, with each
/// error located by the document's source map: `validate` and `validate_json` (or
/// `validate_toml`) succeed together, and the located errors are the errors of
/// `validate`, each enriched.
pub proof fn law_located_validation(
    r: ValidationResult,
    l: ValidationResult,
    rules: RulesView,
    data: JsonView,
    report: Seq<(Seq<char>, Seq<char>, JsonView)>,
    map: Map<Seq<char>, SourceSpan>,
)
    requires
        reports(r, validation_errors(rules, data, report)),
        reports_located(l, rules, data, report, map),
    ensures
        r is Ok <==> l is Ok,
        r matches Err(es) ==> l matches Err(ls) && errors_view(ls@) == enrich_all(
            errors_view(es@),
            map,
        ),
{
}

// ----------------------------------------------------------------------------
// The path of a JSON pointer, read back
// ----------------------------------------------------------------------------
/// The text of one step in a JSON pointer: the field name, or the index in decimal.
pub open spec fn pointer_token(x: SegmentView) -> Seq<char> {
    match x {
        SegmentView::Field(name) => name,
        SegmentView::Index(n) => decimal(n),
        SegmentView::Wildcard => seq!['*'],
    }
}

/// The JSON pointer that spells out a route of fields and indices: a `/` before the
/// text of each step. It is the JSON Pointer of the route's node when no field name
/// holds `~` or `/`.
pub open spec fn route_pointer(r: Seq<SegmentView>) -> Seq<char>
    decreases r.len(),
{
    if r.len() == 0 {
        Seq::empty()
    } else {
        route_pointer(r.drop_last()) + seq!['/'] + pointer_token(r.last())
    }
}

/// Every field name of the route holds no `/` and does not read as a number.
pub open spec fn pointer_names(r: Seq<SegmentView>) -> bool {
    forall|i: int|
        0 <= i < r.len() ==> match #[trigger] r[i] {
            SegmentView::Field(name) => (forall|k: int| 0 <= k < name.len() ==> name[k] != '/')
                && parse_usize_spec(name) is None,
            _ => true,
        }
}

/// The text of a step of a plain route with such names: not empty, without `/`.
proof fn lemma_pointer_token(r: Seq<SegmentView>, i: int)
    requires
        plain_route(r),
        pointer_names(r),
        0 <= i < r.len(),
    ensures
        pointer_token(r[i]).len() > 0,
        forall|k: int| 0 <= k < pointer_token(r[i]).len() ==> #[trigger] pointer_token(r[i])[k] != '/',
{
    match r[i] {
        SegmentView::Field(name) => {
            assert(plain_name(name));
        },
        SegmentView::Index(n) => {
            lemma_decimal_parses(n);
            assert forall|k: int| 0 <= k < decimal(n).len() implies #[trigger] decimal(n)[k] != '/' by {
                assert(is_digit(decimal(n)[k]));
            }
        },
        SegmentView::Wildcard => {},
    }
}

/// The pointer of a route with more steps extends the pointer of the shorter one.
proof fn lemma_pointer_prefix(r: Seq<SegmentView>, j: int, m: int)
    requires
        0 <= j <= m <= r.len(),
    ensures
        route_pointer(r.take(j)).len() <= route_pointer(r.take(m)).len(),
        route_pointer(r.take(m)).take(route_pointer(r.take(j)).len() as int) == route_pointer(r.take(j)),
    decreases m - j,
{
    if j < m {
        lemma_pointer_prefix(r, j, m - 1);
        assert(r.take(m).drop_last() == r.take(m - 1));
        let p = route_pointer(r.take(m - 1));
        let n = route_pointer(r.take(j)).len() as int;
        assert((p + seq!['/'] + pointer_token(r.take(m).last())).take(n) == p.take(n));
    }
}

/// One step of the pointer's conversion: it appends the step as the path does.
proof fn lemma_pointer_step(r: Seq<SegmentView>, j: int)
    requires
        plain_route(r),
        pointer_names(r),
        0 <= j < r.len(),
    ensures
        pointer_step(route_path(r.take(j)), pointer_token(r[j]), j as nat) == route_path(r.take(j + 1)),
{
    let acc = route_path(r.take(j));
    lemma_route_prefix(r, j, j);
    if j == 0 {
        assert(r.take(0) == Seq::<SegmentView>::empty());
    }
    assert(r.take(j + 1).drop_last() == r.take(j));
    assert(r.take(j + 1).last() == r[j]);
    match r[j] {
        SegmentView::Field(name) => {
            assert(parse_usize_spec(name) is None);
            if j > 0 {
                assert(acc.push('.') + name == acc + seq!['.'] + name);
            } else {
                assert(acc + name == name);
            }
        },
        SegmentView::Index(n) => {
            lemma_decimal_parses(n);
            reveal_strlit("[");
            reveal_strlit("]");
            assert(acc + "["@ + decimal(n) + "]"@ == acc + seq!['['] + decimal(n) + seq![']']);
        },
        SegmentView::Wildcard => {},
    }
}

/// Reading the pointer of a route: once the conversion is past the text of the
/// first `j` steps, it has built the path of those steps.
proof fn lemma_pointer_walk(r: Seq<SegmentView>, j: int)
    requires
        plain_route(r),
        pointer_names(r),
        0 <= j < r.len(),
    ensures
        pointer_to_path(route_pointer(r)) == pointer_path_from(
            route_pointer(r),
            route_pointer(r.take(j)).len() + 1int,
            j as nat,
            route_path(r.take(j)),
        ),
    decreases j,
{
    let cs = route_pointer(r);
    assert(r.take(r.len() as int) == r);
    if j == 0 {
        lemma_pointer_prefix(r, 1, r.len() as int);
        lemma_pointer_token(r, 0);
        let q = route_pointer(r.take(1));
        assert(r.take(1).drop_last() == r.take(0));
        assert(r.take(0) == Seq::<SegmentView>::empty());
        assert(q == seq!['/'] + pointer_token(r[0]));
        assert(cs[0] == q[0]);
        assert(cs[1] == q[1]);
        assert(cs.len() >= 2);
        assert(cs != seq!['/']);
        assert(skip_slashes(cs, 1) == 1);
        assert(skip_slashes(cs, 0) == 1);
    } else {
        lemma_pointer_walk(r, j - 1);
        let a = route_pointer(r.take(j - 1)).len() as int;
        let q = route_pointer(r.take(j));
        let b = q.len() as int;
        lemma_pointer_prefix(r, j, j + 1);
        lemma_pointer_prefix(r, j + 1, r.len() as int);
        lemma_pointer_prefix(r, j, r.len() as int);
        lemma_pointer_token(r, j - 1);
        assert(r.take(j).drop_last() == r.take(j - 1));
        assert(r.take(j).last() == r[j - 1]);
        let tok = pointer_token(r[j - 1]);
        assert(q == route_pointer(r.take(j - 1)) + seq!['/'] + tok);
        let q2 = route_pointer(r.take(j + 1));
        assert(r.take(j + 1).drop_last() == r.take(j));
        assert(q2 == q + seq!['/'] + pointer_token(r.take(j + 1).last()));
        assert(cs.take(q2.len() as int)[b] == q2[b]);
        assert(cs[b] == '/');
        assert forall|k: int| a + 1 <= k < b implies cs[k] != '/' by {
            assert(cs.take(q2.len() as int)[k] == cs[k]);
            assert(q2[k] == q[k]);
            assert(q[k] == tok[k - a - 1]);
        }
        lemma_slash_end_at(cs, a + 1, b);
        assert(cs.subrange(a + 1, b) =~= tok) by {
            assert forall|k: int| 0 <= k < tok.len() implies #[trigger] cs.subrange(a + 1, b)[k] == tok[k] by {
                assert(cs.take(q2.len() as int)[a + 1 + k] == cs[a + 1 + k]);
                assert(q2[a + 1 + k] == q[a + 1 + k]);
            }
        }
        lemma_pointer_step(r, j - 1);
    }
}

/// `slash_end` stops at the first `/`, or at the end.
proof fn lemma_slash_end_at(cs: Seq<char>, i: int, e: int)
    requires
        0 <= i <= e <= cs.len(),
        forall|k: int| i <= k < e ==> cs[k] != '/',
        e == cs.len() || cs[e] == '/',
    ensures
        slash_end(cs, i) == e,
    decreases e - i,
{
    if i < e {
        lemma_slash_end_at(cs, i + 1, e);
    }
}

/// Converting the JSON pointer of a node that is not the root to a path, reading
/// the path back and evaluating it finds that node, and nothing else, when the
/// field names on the node's route are not empty, do not read as numbers, and hold
/// no `.`, `[` or `/`.
pub proof fn law_pointer_reads_back(r: Seq<SegmentView>, v: JsonView)
    requires
        plain_route(r),
        pointer_names(r),
        r.len() > 0,
        eval_path(r, v).len() > 0,
    ensures
        pointer_to_path(route_pointer(r)) == route_path(r),
        parse_path(pointer_to_path(route_pointer(r))) matches Ok(q) && eval_path(q, v) == eval_path(r, v)
            && eval_path(q, v).len() == 1 && eval_path(q, v)[0].1 == pointer_to_path(route_pointer(r)),
{
    let cs = route_pointer(r);
    let n = r.len() as int;
    lemma_pointer_walk(r, n - 1);
    let a = route_pointer(r.take(n - 1)).len() as int;
    assert(r.take(n) == r);
    assert(r.take(n).drop_last() == r.take(n - 1));
    lemma_pointer_token(r, n - 1);
    let tok = pointer_token(r[n - 1]);
    assert(cs == route_pointer(r.take(n - 1)) + seq!['/'] + tok);
    assert forall|k: int| a + 1 <= k < cs.len() implies cs[k] != '/' by {
        assert(cs[k] == tok[k - a - 1]);
    }
    lemma_slash_end_at(cs, a + 1, cs.len() as int);
    assert(cs.subrange(a + 1, cs.len() as int) =~= tok);
    lemma_pointer_step(r, n - 1);
    lemma_route_reads_back(r);
    lemma_route_eval(r, v);
}

// ----------------------------------------------------------------------------
// The errors of the rules, rule by rule
// ----------------------------------------------------------------------------
proof fn lemma_unique_all_flat(rules: Seq<UniqueAcrossView>, data: JsonView, es: Seq<Seq<ErrorView>>)
    requires
        es.len() == rules.len(),
        forall|i: int| 0 <= i < es.len() ==> #[trigger] es[i] == unique_across_errors(rules[i], data),
    ensures
        unique_all(rules, data) == es.flatten(),
    decreases rules.len(),
{
    if rules.len() == 0 {
        assert(es.flatten() == Seq::<ErrorView>::empty());
    } else {
        let front = es.drop_last();
        assert forall|i: int| 0 <= i < front.len() implies #[trigger] front[i] == unique_across_errors(
            rules.drop_last()[i],
            data,
        ) by {
            assert(front[i] == es[i]);
        }
        lemma_unique_all_flat(rules.drop_last(), data, front);
        front.lemma_flatten_push(es.last());
        assert(front.push(es.last()) == es);
    }
}

proof fn lemma_references_all_flat(rules: Seq<ReferencesView>, data: JsonView, es: Seq<Seq<ErrorView>>)
    requires
        es.len() == rules.len(),
        forall|i: int| 0 <= i < es.len() ==> #[trigger] es[i] == references_errors(rules[i], data),
    ensures
        references_all(rules, data) == es.flatten(),
    decreases rules.len(),
{
    if rules.len() == 0 {
        assert(es.flatten() == Seq::<ErrorView>::empty());
    } else {
        let front = es.drop_last();
        assert forall|i: int| 0 <= i < front.len() implies #[trigger] front[i] == references_errors(
            rules.drop_last()[i],
            data,
        ) by {
            assert(front[i] == es[i]);
        }
        lemma_references_all_flat(rules.drop_last(), data, front);
        front.lemma_flatten_push(es.last());
        assert(front.push(es.last()) == es);
    }
}

proof fn lemma_referenced_by_all_flat(
    rules: Seq<ReferencedByView>,
    data: JsonView,
    es: Seq<Seq<ErrorView>>,
)
    requires
        es.len() == rules.len(),
        forall|i: int| 0 <= i < es.len() ==> #[trigger] es[i] == referenced_by_errors(rules[i], data),
    ensures
        referenced_by_all(rules, data) == es.flatten(),
    decreases rules.len(),
{
    if rules.len() == 0 {
        assert(es.flatten() == Seq::<ErrorView>::empty());
    } else {
        let front = es.drop_last();
        assert forall|i: int| 0 <= i < front.len() implies #[trigger] front[i] == referenced_by_errors(
            rules.drop_last()[i],
            data,
        ) by {
            assert(front[i] == es[i]);
        }
        lemma_referenced_by_all_flat(rules.drop_last(), data, front);
        front.lemma_flatten_push(es.last());
        assert(front.push(es.last()) == es);
    }
}

/// The errors of the `x-` rules are the errors that the rules give one by one, in
/// the schema's order: those of each `x-uniqueAcross` rule (what
/// `validate_unique_across` returns for it), then those of each `x-references` rule
/// (`validate_references`), then those of each `x-referencedBy` rule
/// (`validate_referenced_by`).
pub proof fn law_rule_errors_rule_by_rule(
    rules: RulesView,
    data: JsonView,
    unique: Seq<Seq<ErrorView>>,
    refs: Seq<Seq<ErrorView>>,
    by: Seq<Seq<ErrorView>>,
)
    requires
        unique.len() == rules.unique_across.len(),
        forall|i: int|
            0 <= i < unique.len() ==> #[trigger] unique[i] == unique_across_errors(rules.unique_across[i], data),
        refs.len() == rules.references.len(),
        forall|i: int| 0 <= i < refs.len() ==> #[trigger] refs[i] == references_errors(rules.references[i], data),
        by.len() == rules.referenced_by.len(),
        forall|i: int|
            0 <= i < by.len() ==> #[trigger] by[i] == referenced_by_errors(rules.referenced_by[i], data),
    ensures
        rule_errors(rules, data) == unique.flatten() + refs.flatten() + by.flatten(),
{
    lemma_unique_all_flat(rules.unique_across, data, unique);
    lemma_references_all_flat(rules.references, data, refs);
    lemma_referenced_by_all_flat(rules.referenced_by, data, by);
}

} // verus!
