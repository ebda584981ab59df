//! TOML documents: conversion to JSON values, with a source map that locates
//! every converted value in the TOML text.
use toml_span::value::ValueInner::{Array, Boolean, Float, Integer, String as Text, Table};
use vstd::prelude::*;
use vstd::string::StringSliceAdditionalSpecFns;

use crate::source_map::{
    build_line_offsets, lemma_line_offsets_valid, line_offsets_of, make_span, span_at,
    valid_line_table, SourceMap, SourceSpan,
};
use crate::json::{element_path, member_path};
use crate::jsonpath::{eval_path, step_all, step_match, SegmentView};
use crate::value::{
    element, from_serde, lemma_member_index_first, member, member_index, JsonValue, JsonView, Member,
};
use crate::walk::{
    all_located, apply_inserts, included, index_path, key_path, lemma_apply_has_key,
    lemma_apply_inserts_concat, lemma_apply_inserts_push, lemma_apply_located,
    lemma_included_concat, lemma_included_trans, lemma_located_concat, lemma_located_push, span_of,
};

verus! {

/// A parsed TOML value with the byte span it occupies in the document. Strings,
/// integers, floats and booleans are already the JSON values they convert to.
#[derive(Debug)]
pub enum TomlNode {
    Scalar { start: usize, end: usize, value: JsonValue },
    Array { start: usize, end: usize, items: Vec<TomlNode> },
    Table { start: usize, end: usize, entries: Vec<TomlEntry> },
}

/// One `key = value` entry of a TOML table.
#[derive(Debug)]
pub struct TomlEntry {
    pub key: String,
    pub value: TomlNode,
}

/// The view of a TOML value.
pub enum TomlView {
    Scalar(int, int, JsonView),
    Array(int, int, Seq<TomlView>),
    Table(int, int, Seq<(Seq<char>, TomlView)>),
}

pub open spec fn toml_view(t: &TomlNode) -> TomlView
    decreases t,
{
    match t {
        TomlNode::Scalar { start, end, value } => TomlView::Scalar(*start as int, *end as int, value@),
        TomlNode::Array { start, end, items } => TomlView::Array(
            *start as int,
            *end as int,
            Seq::new(
                items.len() as nat,
                |i: int|
                    if 0 <= i < items.len() {
                        toml_view(&items@[i])
                    } else {
                        TomlView::Scalar(0, 0, JsonView::Null)
                    },
            ),
        ),
        TomlNode::Table { start, end, entries } => TomlView::Table(
            *start as int,
            *end as int,
            Seq::new(
                entries.len() as nat,
                |i: int|
                    if 0 <= i < entries.len() {
                        (entries@[i].key@, toml_view(&entries@[i].value))
                    } else {
                        (Seq::<char>::empty(), TomlView::Scalar(0, 0, JsonView::Null))
                    },
            ),
        ),
    }
}

impl View for TomlNode {
    type V = TomlView;

    open spec fn view(&self) -> TomlView {
        toml_view(self)
    }
}

/// Where a TOML value starts in the document.
pub open spec fn toml_start(t: TomlView) -> int {
    match t {
        TomlView::Scalar(s, _, _) => s,
        TomlView::Array(s, _, _) => s,
        TomlView::Table(s, _, _) => s,
    }
}

/// Where a TOML value ends in the document.
pub open spec fn toml_end(t: TomlView) -> int {
    match t {
        TomlView::Scalar(_, e, _) => e,
        TomlView::Array(_, e, _) => e,
        TomlView::Table(_, e, _) => e,
    }
}

/// The number of direct parts of a TOML value.
pub open spec fn toml_width(t: TomlView) -> nat {
    match t {
        TomlView::Array(_, _, xs) => xs.len(),
        TomlView::Table(_, _, es) => es.len(),
        _ => 0,
    }
}

/// The scalars of `t` are plain values: neither arrays nor objects.
pub open spec fn plain_scalars(t: TomlView) -> bool
    decreases t,
{
    match t {
        TomlView::Scalar(_, _, v) => !(v is Array || v is Object),
        TomlView::Array(_, _, xs) => forall|i: int|
            0 <= i < xs.len() ==> plain_scalars(#[trigger] xs[i]),
        TomlView::Table(_, _, es) => forall|i: int|
            0 <= i < es.len() ==> plain_scalars(#[trigger] es[i].1),
    }
}

/// Every value of `t` starts at or before `len`.
pub open spec fn starts_within(t: TomlView, len: int) -> bool
    decreases t,
{
    0 <= toml_start(t) <= len && match t {
        TomlView::Scalar(_, _, _) => true,
        TomlView::Array(_, _, xs) => forall|i: int|
            0 <= i < xs.len() ==> starts_within(#[trigger] xs[i], len),
        TomlView::Table(_, _, es) => forall|i: int|
            0 <= i < es.len() ==> starts_within(#[trigger] es[i].1, len),
    }
}

/// The JSON value a TOML value converts to: arrays element by element, tables
/// member by member in the table's order.
pub open spec fn toml_json(t: TomlView) -> JsonView
    decreases t,
{
    match t {
        TomlView::Scalar(_, _, v) => v,
        TomlView::Array(_, _, xs) => JsonView::Array(
            Seq::new(
                xs.len(),
                |i: int|
                    if 0 <= i < xs.len() {
                        toml_json(xs[i])
                    } else {
                        JsonView::Null
                    },
            ),
        ),
        TomlView::Table(_, _, es) => JsonView::Object(
            Seq::new(
                es.len(),
                |i: int|
                    if 0 <= i < es.len() {
                        (es[i].0, toml_json(es[i].1))
                    } else {
                        (Seq::<char>::empty(), JsonView::Null)
                    },
            ),
        ),
    }
}

/// The (path, span) pairs recorded while converting `t` at `path`: its own span
/// first (unless the path is empty), then those of its parts in order.
pub open spec fn toml_inserts(t: TomlView, path: Seq<char>, offs: Seq<usize>) -> Seq<
    (Seq<char>, SourceSpan),
>
    decreases t, toml_width(t) + 1,
{
    let own = if path.len() > 0 {
        seq![(path, span_at(toml_start(t) as usize, toml_end(t) as usize, offs))]
    } else {
        seq![]
    };
    own + toml_parts_inserts(t, path, offs, 0)
}

/// The pairs recorded for the parts of `t` from the `i`-th on.
pub open spec fn toml_parts_inserts(t: TomlView, path: Seq<char>, offs: Seq<usize>, i: int) -> Seq<
    (Seq<char>, SourceSpan),
>
    decreases t, toml_width(t) - i,
{
    match t {
        TomlView::Array(_, _, xs) => if 0 <= i < xs.len() {
            toml_inserts(xs[i], index_path(path, i as nat), offs) + toml_parts_inserts(
                t,
                path,
                offs,
                i + 1,
            )
        } else {
            seq![]
        },
        TomlView::Table(_, _, es) => if 0 <= i < es.len() {
            toml_inserts(es[i].1, key_path(path, es[i].0), offs) + toml_parts_inserts(
                t,
                path,
                offs,
                i + 1,
            )
        } else {
            seq![]
        },
        _ => seq![],
    }
}

proof fn lemma_array_view(t: &TomlNode)
    requires
        t is Array,
    ensures
        t@ is Array,
        t@->Array_2.len() == t->items@.len(),
        toml_start(t@) == t->Array_start,
        toml_end(t@) == t->Array_end,
        forall|i: int| 0 <= i < t->items@.len() ==> #[trigger] t@->Array_2[i] == t->items@[i]@,
{
}

proof fn lemma_table_view(t: &TomlNode)
    requires
        t is Table,
    ensures
        t@ is Table,
        t@->Table_2.len() == t->entries@.len(),
        toml_start(t@) == t->Table_start,
        toml_end(t@) == t->Table_end,
        forall|i: int|
            0 <= i < t->entries@.len() ==> #[trigger] t@->Table_2[i] == (
                t->entries@[i].key@,
                t->entries@[i].value@,
            ),
{
}

/// Recursively convert a TOML value to a JSON value, recording source spans in the
/// source map.
#[verifier::spinoff_prover]
fn convert_value(
    value: &TomlNode,
    path: &String,
    line_offsets: &[usize],
    source_map: &mut SourceMap,
    Ghost(len): Ghost<int>,
) -> (r: JsonValue)
    requires
        valid_line_table(line_offsets@),
        line_offsets@[0] == 0,
        len < usize::MAX,
        starts_within(value@, len),
    ensures
        r@ == toml_json(value@),
        final(source_map)@ == apply_inserts(
            old(source_map)@,
            toml_inserts(value@, path@, line_offsets@),
        ),
    decreases value, 1nat,
{
    let ghost offs = line_offsets@;
    let ghost m0 = source_map@;
    let (start, end) = match value {
        TomlNode::Scalar { start, end, .. } => (*start, *end),
        TomlNode::Array { start, end, .. } => (*start, *end),
        TomlNode::Table { start, end, .. } => (*start, *end),
    };
    let ghost own: Seq<(Seq<char>, SourceSpan)> = if path@.len() > 0 {
        seq![(path@, span_at(start, end, offs))]
    } else {
        seq![]
    };
    proof {
        lemma_apply_inserts_push(m0, Seq::empty(), (path@, span_at(start, end, offs)));
        assert(seq![(path@, span_at(start, end, offs))] == Seq::<(Seq<char>, SourceSpan)>::empty().push((path@, span_at(start, end, offs))));
    }
    if !path.as_str().is_empty() {
        let span = make_span(start, end, line_offsets);
        source_map.insert(path.clone(), span);
    }
    let ghost m1 = source_map@;
    assert(m1 == apply_inserts(m0, own));
    let r = match value {
        TomlNode::Scalar { value: v, .. } => {
            proof {
                assert(toml_parts_inserts(value@, path@, offs, 0) == Seq::<(Seq<char>, SourceSpan)>::empty());
                lemma_parts_upto_all(value@, path@, offs);
            }
            v.copy()
        },
        TomlNode::Array { .. } => convert_items(value, path, line_offsets, source_map, Ghost(len)),
        TomlNode::Table { .. } => convert_entries(value, path, line_offsets, source_map, Ghost(len)),
    };
    proof {
        lemma_parts_upto_all(value@, path@, offs);
        lemma_apply_inserts_concat(m0, own, toml_parts_inserts(value@, path@, offs, 0));
    }
    r
}

/// Converts the elements of a TOML array in order.
#[verifier::spinoff_prover]
fn convert_items(
    value: &TomlNode,
    path: &String,
    line_offsets: &[usize],
    source_map: &mut SourceMap,
    Ghost(len): Ghost<int>,
) -> (r: JsonValue)
    requires
        value is Array,
        valid_line_table(line_offsets@),
        line_offsets@[0] == 0,
        len < usize::MAX,
        starts_within(value@, len),
    ensures
        r@ == toml_json(value@),
        final(source_map)@ == apply_inserts(
            old(source_map)@,
            parts_upto(value@, path@, line_offsets@, toml_width(value@) as int),
        ),
    decreases value, 0nat,
{
    let ghost offs = line_offsets@;
    let ghost m1 = source_map@;
    let ghost t = value@;
    let items = match value {
        TomlNode::Array { items, .. } => items,
        _ => {
            proof {
                assert(false);
            }
            return JsonValue::Null;
        },
    };
    proof {
        lemma_array_view(value);
        lemma_apply_inserts_push(m1, Seq::empty(), (Seq::empty(), span_at(0, 0, offs)));
    }
    let mut out: Vec<JsonValue> = Vec::new();
    let mut i: usize = 0;
    while i < items.len()
        invariant
            value is Array,
            value->items == *items,
            t == value@,
            t is Array,
            t->Array_2.len() == items@.len(),
            forall|k: int| 0 <= k < items@.len() ==> #[trigger] t->Array_2[k] == items@[k]@,
            starts_within(t, len),
            offs == line_offsets@,
            valid_line_table(offs),
            offs[0] == 0,
            len < usize::MAX,
            i <= items.len(),
            out@.len() == i,
            forall|k: int| 0 <= k < i ==> #[trigger] out@[k]@ == toml_json(t->Array_2[k]),
            source_map@ == apply_inserts(m1, parts_upto(t, path@, offs, i as int)),
        decreases items.len() - i,
    {
        proof {
            assert(decreases_to!(value => value->items));
            assert(decreases_to!(value->items => (value->items)@));
            assert(decreases_to!((value->items)@ => (value->items)@[i as int]));
            assert(starts_within(t->Array_2[i as int], len));
        }
        let child_path = element_path(path, i);
        let j = convert_value(&items[i], &child_path, line_offsets, source_map, Ghost(len));
        out.push(j);
        proof {
            lemma_parts_upto_step(t, path@, offs, i as int);
            lemma_apply_inserts_concat(m1, parts_upto(t, path@, offs, i as int), toml_inserts(t->Array_2[i as int], index_path(path@, i as nat), offs));
        }
        i += 1;
    }
    let r = JsonValue::Array(out);
    proof {
        crate::value::lemma_array_view(&r);
        assert(r@->Array_0 =~= toml_json(t)->Array_0);
    }
    r
}

/// Converts the entries of a TOML table in order.
#[verifier::spinoff_prover]
fn convert_entries(
    value: &TomlNode,
    path: &String,
    line_offsets: &[usize],
    source_map: &mut SourceMap,
    Ghost(len): Ghost<int>,
) -> (r: JsonValue)
    requires
        value is Table,
        valid_line_table(line_offsets@),
        line_offsets@[0] == 0,
        len < usize::MAX,
        starts_within(value@, len),
    ensures
        r@ == toml_json(value@),
        final(source_map)@ == apply_inserts(
            old(source_map)@,
            parts_upto(value@, path@, line_offsets@, toml_width(value@) as int),
        ),
    decreases value, 0nat,
{
    let ghost offs = line_offsets@;
    let ghost m1 = source_map@;
    let ghost t = value@;
    let entries = match value {
        TomlNode::Table { entries, .. } => entries,
        _ => {
            proof {
                assert(false);
            }
            return JsonValue::Null;
        },
    };
    proof {
        lemma_table_view(value);
        lemma_apply_inserts_push(m1, Seq::empty(), (Seq::empty(), span_at(0, 0, offs)));
    }
    let mut out: Vec<Member> = Vec::new();
    let mut i: usize = 0;
    while i < entries.len()
        invariant
            value is Table,
            value->entries == *entries,
            t == value@,
            t is Table,
            t->Table_2.len() == entries@.len(),
            forall|k: int|
                0 <= k < entries@.len() ==> #[trigger] t->Table_2[k] == (
                    entries@[k].key@,
                    entries@[k].value@,
                ),
            starts_within(t, len),
            offs == line_offsets@,
            valid_line_table(offs),
            offs[0] == 0,
            len < usize::MAX,
            i <= entries.len(),
            out@.len() == i,
            forall|k: int|
                0 <= k < i ==> #[trigger] out@[k].key@ == t->Table_2[k].0 && out@[k].value@
                    == toml_json(t->Table_2[k].1),
            source_map@ == apply_inserts(m1, parts_upto(t, path@, offs, i as int)),
        decreases entries.len() - i,
    {
        proof {
            assert(decreases_to!(value => value->entries));
            assert(decreases_to!(value->entries => (value->entries)@));
            assert(decreases_to!((value->entries)@ => (value->entries)@[i as int]));
            assert(decreases_to!((value->entries)@[i as int] => (value->entries)@[i as int].value));
            assert(starts_within(t->Table_2[i as int].1, len));
        }
        let child_path = member_path(path, &entries[i].key);
        let j = convert_value(&entries[i].value, &child_path, line_offsets, source_map, Ghost(len));
        out.push(Member { key: entries[i].key.clone(), value: j });
        proof {
            lemma_parts_upto_step(t, path@, offs, i as int);
            lemma_apply_inserts_concat(m1, parts_upto(t, path@, offs, i as int), toml_inserts(t->Table_2[i as int].1, key_path(path@, t->Table_2[i as int].0), offs));
        }
        i += 1;
    }
    let r = JsonValue::Object(out);
    proof {
        crate::value::lemma_object_view(&r);
        assert(r@->Object_0 =~= toml_json(t)->Object_0);
    }
    r
}

/// The pairs recorded for the first `i` parts of `t`.
pub open spec fn parts_upto(t: TomlView, path: Seq<char>, offs: Seq<usize>, i: int) -> Seq<
    (Seq<char>, SourceSpan),
>
    decreases i,
{
    if i <= 0 {
        seq![]
    } else {
        parts_upto(t, path, offs, i - 1) + part_inserts(t, path, offs, i - 1)
    }
}

/// The pairs recorded for part `i` of `t`.
pub open spec fn part_inserts(t: TomlView, path: Seq<char>, offs: Seq<usize>, i: int) -> Seq<
    (Seq<char>, SourceSpan),
> {
    match t {
        TomlView::Array(_, _, xs) => toml_inserts(xs[i], index_path(path, i as nat), offs),
        TomlView::Table(_, _, es) => toml_inserts(es[i].1, key_path(path, es[i].0), offs),
        _ => seq![],
    }
}

proof fn lemma_parts_upto_step(t: TomlView, path: Seq<char>, offs: Seq<usize>, i: int)
    requires
        0 <= i,
    ensures
        parts_upto(t, path, offs, i + 1) == parts_upto(t, path, offs, i) + part_inserts(
            t,
            path,
            offs,
            i,
        ),
{
}

proof fn lemma_parts_from(t: TomlView, path: Seq<char>, offs: Seq<usize>, i: int)
    requires
        0 <= i <= toml_width(t),
    ensures
        toml_parts_inserts(t, path, offs, 0) == parts_upto(t, path, offs, i)
            + toml_parts_inserts(t, path, offs, i),
    decreases i,
{
    if i > 0 {
        lemma_parts_from(t, path, offs, i - 1);
        assert(toml_parts_inserts(t, path, offs, i - 1) == part_inserts(t, path, offs, i - 1)
            + toml_parts_inserts(t, path, offs, i));
        assert(parts_upto(t, path, offs, i) == parts_upto(t, path, offs, i - 1) + part_inserts(
            t,
            path,
            offs,
            i - 1,
        ));
        assert(parts_upto(t, path, offs, i - 1) + (part_inserts(t, path, offs, i - 1)
            + toml_parts_inserts(t, path, offs, i)) == (parts_upto(t, path, offs, i - 1)
            + part_inserts(t, path, offs, i - 1)) + toml_parts_inserts(t, path, offs, i));
    } else {
        assert(parts_upto(t, path, offs, 0) + toml_parts_inserts(t, path, offs, 0)
            == toml_parts_inserts(t, path, offs, 0));
    }
}

proof fn lemma_parts_upto_all(t: TomlView, path: Seq<char>, offs: Seq<usize>)
    ensures
        toml_parts_inserts(t, path, offs, 0) == parts_upto(t, path, offs, toml_width(t) as int),
{
    lemma_parts_from(t, path, offs, toml_width(t) as int);
    assert(toml_parts_inserts(t, path, offs, toml_width(t) as int) == Seq::<
        (Seq<char>, SourceSpan),
    >::empty());
    assert(parts_upto(t, path, offs, toml_width(t) as int) + Seq::<(Seq<char>, SourceSpan)>::empty()
        == parts_upto(t, path, offs, toml_width(t) as int));
}

// ----------------------------------------------------------------------------
// Parsing, and the source map of a document
// ----------------------------------------------------------------------------
#[verifier::external_type_specification]
#[verifier::external_body]
pub struct ExTomlSpanValue<'de>(toml_span::value::Value<'de>);

/// Builds the library's TOML value from a `toml_span` value, variant by variant,
/// with the same spans; strings, integers, floats and booleans become the
/// `serde_json` values they convert to (`serde_json::Value::from`), so a float that
/// is not finite becomes `null`. Table entries keep the table's (sorted) order.
#[verifier::external_body]
fn node_from_toml_span(v: &toml_span::value::Value<'_>) -> TomlNode {
    let (start, end) = (v.span.start, v.span.end);
    let value = match v.as_ref() {
        Text(s) => JsonValue::Str(s.to_string()),
        Integer(i) => from_serde(&(*i).into()),
        Float(f) => from_serde(&(*f).into()),
        Boolean(b) => JsonValue::Bool(*b),
        Array(a) => return TomlNode::Array { start, end, items: a.iter().map(node_from_toml_span).collect() },
        Table(t) => return TomlNode::Table {
            start,
            end,
            entries: t.iter().map(|(k, x)| TomlEntry { key: k.to_string(), value: node_from_toml_span(x) }).collect(),
        },
    };
    TomlNode::Scalar { start, end, value }
}

/// The pairs recorded for `t` carry only located spans.
proof fn lemma_toml_located(t: TomlView, path: Seq<char>, offs: Seq<usize>)
    ensures
        all_located(toml_inserts(t, path, offs), offs),
    decreases t, toml_width(t) + 1,
{
    let own = if path.len() > 0 {
        seq![(path, span_at(toml_start(t) as usize, toml_end(t) as usize, offs))]
    } else {
        Seq::<(Seq<char>, SourceSpan)>::empty()
    };
    lemma_located_push(Seq::empty(), path, toml_start(t), toml_end(t), offs);
    if path.len() > 0 {
        assert(own == Seq::<(Seq<char>, SourceSpan)>::empty().push(
            (path, span_of(toml_start(t), toml_end(t), offs)),
        ));
    }
    lemma_toml_parts_located(t, path, offs, 0);
    lemma_located_concat(own, toml_parts_inserts(t, path, offs, 0), offs);
}

/// The pairs recorded for the parts of `t` from the `i`-th on carry only located
/// spans.
proof fn lemma_toml_parts_located(t: TomlView, path: Seq<char>, offs: Seq<usize>, i: int)
    ensures
        all_located(toml_parts_inserts(t, path, offs, i), offs),
    decreases t, toml_width(t) - i,
{
    match t {
        TomlView::Array(_, _, xs) => if 0 <= i < xs.len() {
            assert(decreases_to!(t => xs));
            assert(decreases_to!(xs => xs[i]));
            lemma_toml_located(xs[i], index_path(path, i as nat), offs);
            lemma_toml_parts_located(t, path, offs, i + 1);
            lemma_located_concat(
                toml_inserts(xs[i], index_path(path, i as nat), offs),
                toml_parts_inserts(t, path, offs, i + 1),
                offs,
            );
        },
        TomlView::Table(_, _, es) => if 0 <= i < es.len() {
            assert(decreases_to!(t => es));
            assert(decreases_to!(es => es[i]));
            assert(decreases_to!(es[i] => es[i].1));
            lemma_toml_located(es[i].1, key_path(path, es[i].0), offs);
            lemma_toml_parts_located(t, path, offs, i + 1);
            lemma_located_concat(
                toml_inserts(es[i].1, key_path(path, es[i].0), offs),
                toml_parts_inserts(t, path, offs, i + 1),
                offs,
            );
        },
        _ => {},
    }
}

/// Every span that the source map of a TOML document records carries the line and
/// column of its own start.
pub proof fn law_toml_spans_located(t: TomlView, b: Seq<u8>)
    ensures
        forall|p: Seq<char>|
            #[trigger] toml_source_map(t, b).dom().contains(p) ==> toml_source_map(t, b)[p] == span_at(
                toml_source_map(t, b)[p].start,
                toml_source_map(t, b)[p].end,
                line_offsets_of(b),
            ),
{
    lemma_toml_located(t, Seq::empty(), line_offsets_of(b));
    lemma_apply_located(
        Map::empty(),
        toml_inserts(t, Seq::empty(), line_offsets_of(b)),
        line_offsets_of(b),
    );
}

// ----------------------------------------------------------------------------
// Every value that a path finds has its path recorded
// ----------------------------------------------------------------------------
/// The pairs of part `i` of `t` are among the pairs recorded for `t`.
proof fn lemma_part_included(t: TomlView, path: Seq<char>, offs: Seq<usize>, i: int)
    requires
        0 <= i < toml_width(t),
    ensures
        included(part_inserts(t, path, offs, i), toml_inserts(t, path, offs)),
{
    lemma_parts_from(t, path, offs, i);
    let rest = toml_parts_inserts(t, path, offs, i + 1);
    assert(toml_parts_inserts(t, path, offs, i) == part_inserts(t, path, offs, i) + rest);
    lemma_included_concat(part_inserts(t, path, offs, i), rest);
    lemma_included_concat(parts_upto(t, path, offs, i), toml_parts_inserts(t, path, offs, i));
    lemma_included_trans(
        part_inserts(t, path, offs, i),
        toml_parts_inserts(t, path, offs, i),
        toml_parts_inserts(t, path, offs, 0),
    );
    let own = if path.len() > 0 {
        seq![(path, span_at(toml_start(t) as usize, toml_end(t) as usize, offs))]
    } else {
        Seq::<(Seq<char>, SourceSpan)>::empty()
    };
    assert(toml_inserts(t, path, offs) == own + toml_parts_inserts(t, path, offs, 0));
    lemma_included_concat(own, toml_parts_inserts(t, path, offs, 0));
    lemma_included_trans(
        part_inserts(t, path, offs, i),
        toml_parts_inserts(t, path, offs, 0),
        toml_inserts(t, path, offs),
    );
}

/// A value `u` of the document `t` that is found at path `m.1` with JSON value `m.0`:
/// everything recorded for `u` at that path is recorded for `t`.
pub open spec fn found_in(t: TomlView, u: TomlView, m: (JsonView, Seq<char>), offs: Seq<usize>) -> bool {
    &&& toml_json(u) == m.0
    &&& plain_scalars(u)
    &&& included(toml_inserts(u, m.1, offs), toml_inserts(t, Seq::empty(), offs))
}

/// Match `m` comes from a value of the document `t`.
pub open spec fn from_document(t: TomlView, m: (JsonView, Seq<char>), offs: Seq<usize>) -> bool {
    exists|u: TomlView| #[trigger] found_in(t, u, m, offs)
}

/// The first member of `es` with key `key`, from a member with that key at `i`.
proof fn lemma_first_key(es: Seq<(Seq<char>, JsonView)>, key: Seq<char>, i: int)
    requires
        0 <= i < es.len(),
        es[i].0 == key,
    ensures
        0 <= member_index(es, key) <= i,
        es[member_index(es, key)].0 == key,
    decreases i,
{
    if exists|j: int| 0 <= j < i && #[trigger] es[j].0 == key {
        let j = choose|j: int| 0 <= j < i && #[trigger] es[j].0 == key;
        lemma_first_key(es, key, j);
    } else {
        lemma_member_index_first(es, key, i);
    }
}

/// The matches that one step yields from a match of the document come from the
/// document too.
proof fn lemma_step_from_document(
    t: TomlView,
    u: TomlView,
    m: (JsonView, Seq<char>),
    seg: SegmentView,
    offs: Seq<usize>,
)
    requires
        found_in(t, u, m, offs),
    ensures
        forall|k: int|
            0 <= k < step_match(m, seg).len() ==> from_document(
                t,
                #[trigger] step_match(m, seg)[k],
                offs,
            ),
{
    let out = step_match(m, seg);
    assert forall|k: int| 0 <= k < out.len() implies from_document(t, #[trigger] out[k], offs) by {
        match seg {
            SegmentView::Field(name) => {
                let es = u->Table_2;
                assert(u is Table);
                let entries = m.0->Object_0;
                assert(entries.len() == es.len());
                let idx = member_index(entries, name);
                let i0 = choose|i: int| 0 <= i < entries.len() && #[trigger] entries[i].0 == name;
                lemma_first_key(entries, name, i0);
                assert(entries[idx] == (es[idx].0, toml_json(es[idx].1)));
                let child = es[idx].1;
                lemma_part_included(u, m.1, offs, idx);
                assert(part_inserts(u, m.1, offs, idx) == toml_inserts(child, key_path(m.1, name), offs));
                lemma_included_trans(
                    toml_inserts(child, key_path(m.1, name), offs),
                    toml_inserts(u, m.1, offs),
                    toml_inserts(t, Seq::empty(), offs),
                );
                assert(out[k] == (toml_json(child), key_path(m.1, name)));
                assert(found_in(t, child, out[k], offs));
            },
            SegmentView::Wildcard => {
                assert(u is Array);
                let xs = u->Array_2;
                let child = xs[k];
                lemma_part_included(u, m.1, offs, k);
                lemma_included_trans(
                    toml_inserts(child, index_path(m.1, k as nat), offs),
                    toml_inserts(u, m.1, offs),
                    toml_inserts(t, Seq::empty(), offs),
                );
                assert(out[k] == (toml_json(child), index_path(m.1, k as nat)));
                assert(found_in(t, child, out[k], offs));
            },
            SegmentView::Index(n) => {
                assert(u is Array);
                let xs = u->Array_2;
                let child = xs[n as int];
                lemma_part_included(u, m.1, offs, n as int);
                lemma_included_trans(
                    toml_inserts(child, index_path(m.1, n), offs),
                    toml_inserts(u, m.1, offs),
                    toml_inserts(t, Seq::empty(), offs),
                );
                assert(out[k] == (toml_json(child), index_path(m.1, n)));
                assert(found_in(t, child, out[k], offs));
            },
        }
    }
}

/// A step from matches of the document yields matches of the document.
proof fn lemma_step_all_from_document(
    t: TomlView,
    ms: Seq<(JsonView, Seq<char>)>,
    seg: SegmentView,
    offs: Seq<usize>,
)
    requires
        forall|k: int| 0 <= k < ms.len() ==> from_document(t, #[trigger] ms[k], offs),
    ensures
        forall|k: int|
            0 <= k < step_all(ms, seg).len() ==> from_document(t, #[trigger] step_all(ms, seg)[k], offs),
    decreases ms.len(),
{
    if ms.len() > 0 {
        let front = ms.drop_last();
        assert forall|k: int| 0 <= k < front.len() implies from_document(t, #[trigger] front[k], offs) by {
            assert(front[k] == ms[k]);
        }
        lemma_step_all_from_document(t, front, seg, offs);
        let last = ms[ms.len() - 1];
        assert(from_document(t, last, offs));
        let u = choose|u: TomlView| #[trigger] found_in(t, u, last, offs);
        lemma_step_from_document(t, u, last, seg, offs);
        let a = step_all(front, seg);
        let c = step_match(last, seg);
        assert(step_all(ms, seg) == a + c);
        assert forall|k: int| 0 <= k < (a + c).len() implies from_document(t, #[trigger] (a + c)[k], offs) by {
            if k < a.len() {
                assert((a + c)[k] == a[k]);
            } else {
                assert((a + c)[k] == c[k - a.len()]);
            }
        }
    }
}

/// Every match of a path in the converted document comes from the document.
proof fn lemma_eval_from_document(t: TomlView, segs: Seq<SegmentView>, offs: Seq<usize>)
    requires
        plain_scalars(t),
    ensures
        forall|k: int|
            0 <= k < eval_path(segs, toml_json(t)).len() ==> from_document(
                t,
                #[trigger] eval_path(segs, toml_json(t))[k],
                offs,
            ),
    decreases segs.len(),
{
    if segs.len() == 0 {
        let m = (toml_json(t), Seq::<char>::empty());
        let ins = toml_inserts(t, Seq::empty(), offs);
        assert forall|k: int| 0 <= k < ins.len() implies ins.contains(#[trigger] ins[k]) by {}
        assert(found_in(t, t, m, offs));
        assert(eval_path(segs, toml_json(t)) == seq![m]);
    } else {
        lemma_eval_from_document(t, segs.drop_last(), offs);
        lemma_step_all_from_document(t, eval_path(segs.drop_last(), toml_json(t)), segs.last(), offs);
    }
}

/// Every value that a path finds in a converted TOML document, but the document
/// itself, has its path recorded in the document's source map.
pub proof fn law_toml_paths_recorded(t: TomlView, b: Seq<u8>, segs: Seq<SegmentView>)
    requires
        plain_scalars(t),
    ensures
        forall|k: int|
            0 <= k < eval_path(segs, toml_json(t)).len() && eval_path(segs, toml_json(t))[k].1.len()
                > 0 ==> toml_source_map(t, b).dom().contains(
                #[trigger] eval_path(segs, toml_json(t))[k].1,
            ),
{
    let offs = line_offsets_of(b);
    let ms = eval_path(segs, toml_json(t));
    lemma_eval_from_document(t, segs, offs);
    assert forall|k: int| 0 <= k < ms.len() && ms[k].1.len() > 0 implies toml_source_map(
        t,
        b,
    ).dom().contains(#[trigger] ms[k].1) by {
        assert(from_document(t, ms[k], offs));
        let u = choose|u: TomlView| #[trigger] found_in(t, u, ms[k], offs);
        let p = ms[k].1;
        let own = seq![(p, span_at(toml_start(u) as usize, toml_end(u) as usize, offs))];
        assert(toml_inserts(u, p, offs) == own + toml_parts_inserts(u, p, offs, 0));
        let ui = toml_inserts(u, p, offs);
        assert(ui[0] == own[0]);
        let all = toml_inserts(t, Seq::empty(), offs);
        assert(all.contains(ui[0]));
        let j = choose|j: int| 0 <= j < all.len() && all[j] == ui[0];
        lemma_apply_has_key(Map::empty(), all, j);
    }
}

/// What `toml_span::parse` gives for a text: the document's values with their
/// spans, or the text of its error.
pub uninterp spec fn toml_span_parse(text: Seq<char>) -> Result<TomlView, Seq<char>>;

/// `toml_span::parse`: parses TOML text. The outcome is the name `toml_span_parse`
/// of the text: the document (a table) with the span of every value, or the
/// `Display` text of toml_span's error. Every span starts within the text: spans
/// are byte offsets of the text's tokens, and the document's own span is the whole
/// text. The scalars are plain (strings, numbers, booleans, or null for a float that
/// is not finite), as `node_from_toml_span` builds them. Which texts it accepts is
/// not stated. The parser's source checks its own bookkeeping with an `assert!` and
/// a few `unwrap`s; that no text reaches them is not shown here.
#[verifier::external_body]
fn parse_with_toml_span(src: &str) -> (r: Result<TomlNode, String>)
    ensures
        match r {
            Ok(t) => toml_span_parse(src@) == Ok::<TomlView, Seq<char>>(t@) && starts_within(
                t@,
                src.spec_bytes().len() as int,
            ) && plain_scalars(t@),
            Err(e) => toml_span_parse(src@) == Err::<TomlView, Seq<char>>(e@),
        },
{
    match toml_span::parse(src) {
        Ok(v) => Ok(node_from_toml_span(&v)),
        Err(e) => Err(e.to_string()),
    }
}

/// Error from TOML parsing or conversion
#[derive(Debug)]
pub enum TomlError {
    Parse(String),
}

impl TomlError {
    /// The error's message: `TOML parse error: ` and the parser's own message.
    pub fn message(&self) -> (m: String)
        ensures
            m@ == "TOML parse error: "@ + self->Parse_0@,
    {
        match self {
            TomlError::Parse(detail) => {
                let mut m = crate::text::string_of("TOML parse error: ");
                m.append(detail.as_str());
                m
            },
        }
    }
}

/// The source map of a TOML document: every value but the document itself, by its
/// path, with its span.
pub open spec fn toml_source_map(t: TomlView, b: Seq<u8>) -> Map<Seq<char>, SourceSpan> {
    apply_inserts(Map::empty(), toml_inserts(t, Seq::empty(), line_offsets_of(b)))
}

/// Parse a TOML string into a JSON value and a source map that maps
/// JSON paths back to byte offsets (and line/column) in the TOML source.
pub fn toml_to_json(toml_src: &str) -> (r: Result<(JsonValue, SourceMap), TomlError>)
    ensures
        match toml_span_parse(toml_src@) {
            Err(e) => r matches Err(TomlError::Parse(m)) && m@ == e,
            Ok(t) => plain_scalars(t) && if toml_src.spec_bytes().len() < usize::MAX {
                r matches Ok((value, map)) && value@ == toml_json(t) && map@ == toml_source_map(
                    t,
                    toml_src.spec_bytes(),
                )
            } else {
                r matches Err(TomlError::Parse(m)) && m@ == crate::json::too_large_message()
            },
        },
{
    let node = match parse_with_toml_span(toml_src) {
        Ok(t) => t,
        Err(e) => {
            return Err(TomlError::Parse(e));
        },
    };
    let bytes = toml_src.as_bytes();
    if bytes.len() == usize::MAX {
        return Err(TomlError::Parse(crate::text::string_of("document too large to locate its values")));
    }
    let line_offsets = build_line_offsets(toml_src);
    proof {
        lemma_line_offsets_valid(bytes@);
    }
    let mut source_map = SourceMap::new();
    let root = String::new();
    let json = convert_value(&node, &root, line_offsets.as_slice(), &mut source_map, Ghost(bytes@.len() as int));
    Ok((json, source_map))
}

} // verus!
