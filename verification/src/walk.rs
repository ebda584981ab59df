//! The walk that locates each value of a parsed JSON document in its source text:
//! what it reads, where it ends, and which (path, span) pairs it records.
use vstd::prelude::*;

use crate::json::{expect_spec, number_end, skip_ws_spec, string_at, value_end};
use crate::source_map::{span_at, SourceSpan};
use crate::text::decimal;
use crate::jsonpath::{eval_path, found_path, lemma_step_all_single, SegmentView};
use crate::value::{json_size, lemma_member_index_key, member_index, width, JsonView};

verus! {

// ----------------------------------------------------------------------------
// Locating the values of a parsed document in its source
// ----------------------------------------------------------------------------
/// A map after recording each (path, span) pair of `ins` in order.
#[verifier::opaque]
pub open spec fn apply_inserts(
    m: Map<Seq<char>, SourceSpan>,
    ins: Seq<(Seq<char>, SourceSpan)>,
) -> Map<Seq<char>, SourceSpan>
    decreases ins.len(),
{
    if ins.len() == 0 {
        m
    } else {
        apply_inserts(m, ins.drop_last()).insert(ins.last().0, ins.last().1)
    }
}

pub proof fn lemma_apply_inserts_concat(
    m: Map<Seq<char>, SourceSpan>,
    a: Seq<(Seq<char>, SourceSpan)>,
    b: Seq<(Seq<char>, SourceSpan)>,
)
    ensures
        apply_inserts(m, a + b) == apply_inserts(apply_inserts(m, a), b),
    decreases b.len(),
{
    reveal(apply_inserts);
    if b.len() == 0 {
        assert(a + b == a);
    } else {
        lemma_apply_inserts_concat(m, a, b.drop_last());
        assert((a + b).drop_last() == a + b.drop_last());
    }
}

pub proof fn lemma_apply_inserts_push(
    m: Map<Seq<char>, SourceSpan>,
    a: Seq<(Seq<char>, SourceSpan)>,
    x: (Seq<char>, SourceSpan),
)
    ensures
        apply_inserts(m, a.push(x)) == apply_inserts(m, a).insert(x.0, x.1),
        apply_inserts(m, Seq::empty()) == m,
{
    reveal(apply_inserts);
    assert(a.push(x).drop_last() == a);
}

/// The path of member `key` below `path`.
pub open spec fn key_path(path: Seq<char>, key: Seq<char>) -> Seq<char> {
    if path.len() == 0 {
        key
    } else {
        path + seq!['.'] + key
    }
}

/// The path of element `i` below `path`.
pub open spec fn index_path(path: Seq<char>, i: nat) -> Seq<char> {
    path + seq!['['] + decimal(i) + seq![']']
}

/// One past `p` when `p` is inside the source (the closing bracket), else `p`.
pub open spec fn past_close(b: Seq<u8>, p: int) -> int {
    if 0 <= p < b.len() {
        p + 1
    } else {
        p
    }
}

/// The span of the value from `start` to `end`.
pub open spec fn span_of(start: int, end: int, offsets: Seq<usize>) -> SourceSpan {
    span_at(start as usize, end as usize, offsets)
}

/// Walks value `v` (at `path`) and the source from `start` together: the position
/// after the value in the source, and the (path, span) pairs recorded, in order.
/// A container records its own span when its path is not empty; the caller records
/// the span of each member and element it walks into.
pub closed spec fn map_value_spec(
    v: JsonView,
    path: Seq<char>,
    b: Seq<u8>,
    start: int,
    offsets: Seq<usize>,
) -> (int, Seq<(Seq<char>, SourceSpan)>)
    decreases v, b.len() + crate::value::width(v) + 1,
{
    let pos = skip_ws_spec(b, start);
    match v {
        JsonView::Object(_) => {
            let (p1, ins) = map_members_spec(v, path, b, skip_ws_spec(b, pos + 1), true, offsets);
            let p2 = past_close(b, p1);
            (
                p2,
                if path.len() > 0 {
                    ins.push((path, span_of(pos, p2, offsets)))
                } else {
                    ins
                },
            )
        },
        JsonView::Array(_) => {
            let (p1, ins) = map_elements_spec(v, path, b, skip_ws_spec(b, pos + 1), 0, offsets);
            let p2 = past_close(b, p1);
            (
                p2,
                if path.len() > 0 {
                    ins.push((path, span_of(pos, p2, offsets)))
                } else {
                    ins
                },
            )
        },
        JsonView::Str(_) => (string_at(b, pos).1, seq![]),
        JsonView::Number(_) => (number_end(b, pos), seq![]),
        JsonView::Bool(x) => (
            if x {
                pos + 4
            } else {
                pos + 5
            },
            seq![],
        ),
        JsonView::Null => (pos + 4, seq![]),
    }
}

/// The measure of the member loop: the source left to read.
pub open spec fn bytes_left(b: Seq<u8>, pos: int) -> int {
    if 0 <= pos < b.len() {
        b.len() - pos
    } else {
        0
    }
}

/// The member loop of an object: reads `key: value` pairs in source order until the
/// closing brace or the end of the source. A key that names a member of `v` is
/// walked into; any other value is skipped.
pub closed spec fn map_members_spec(
    v: JsonView,
    path: Seq<char>,
    b: Seq<u8>,
    pos: int,
    first: bool,
    offsets: Seq<usize>,
) -> (int, Seq<(Seq<char>, SourceSpan)>)
    decreases v, bytes_left(b, pos),
{
    if !(v is Object && 0 <= pos < b.len() && b[pos] != 125u8) {
        (pos, seq![])
    } else {
        let entries = v->Object_0;
        let p0 = if first {
            pos
        } else {
            skip_ws_spec(b, expect_spec(b, pos, 44u8))
        };
        let (key, kend) = string_at(b, p0);
        let p1 = skip_ws_spec(b, expect_spec(b, skip_ws_spec(b, kend), 58u8));
        let idx = member_index(entries, key);
        let (p2, ins1) = if 0 <= idx < entries.len() {
            let cp = key_path(path, key);
            proof {
                assert(decreases_to!(v => v->Object_0));
                assert(decreases_to!(v->Object_0 => v->Object_0[idx]));
                assert(decreases_to!(v->Object_0[idx] => v->Object_0[idx].1));
            }
            let (e, ins) = map_value_spec(entries[idx].1, cp, b, p1, offsets);
            (
                e,
                if cp.len() > 0 {
                    ins.push((cp, span_of(p1, e, offsets)))
                } else {
                    ins
                },
            )
        } else {
            (value_end(b, p1), seq![])
        };
        let next = skip_ws_spec(b, p2);
        // Every round reads at least the key's opening byte, so `next > pos` always
        // holds (see `map_value`); the test only makes the recursion visibly finite.
        if next > pos {
            let (p3, ins2) = map_members_spec(v, path, b, next, false, offsets);
            (p3, ins1 + ins2)
        } else {
            (next, ins1)
        }
    }
}

/// The element loop of an array: walks elements `i..` in order.
pub closed spec fn map_elements_spec(
    v: JsonView,
    path: Seq<char>,
    b: Seq<u8>,
    pos: int,
    i: nat,
    offsets: Seq<usize>,
) -> (int, Seq<(Seq<char>, SourceSpan)>)
    decreases v, crate::value::width(v) - i,
{
    if !(v is Array && i < v->Array_0.len()) {
        (pos, seq![])
    } else {
        let p0 = if i > 0 {
            skip_ws_spec(b, expect_spec(b, pos, 44u8))
        } else {
            pos
        };
        let cp = index_path(path, i);
        let (e, ins) = map_value_spec(v->Array_0[i as int], cp, b, p0, offsets);
        let (p3, ins2) = map_elements_spec(v, path, b, skip_ws_spec(b, e), i + 1, offsets);
        (p3, ins.push((cp, span_of(p0, e, offsets))) + ins2)
    }
}

/// How far the walk of `v` from `start` can get: past the end of the source by at
/// most five bytes for every value.
pub open spec fn reach(len: int, start: int, v: JsonView) -> int {
    (if start > len + 1 {
        start
    } else {
        len + 1
    }) + 5 * json_size(v)
}

/// One round of the element loop.
pub proof fn lemma_elements_step(
    v: JsonView,
    path: Seq<char>,
    b: Seq<u8>,
    pos: int,
    i: nat,
    offs: Seq<usize>,
)
    requires
        v is Array,
        i < v->Array_0.len(),
    ensures
        ({
            let p0 = if i > 0 {
                skip_ws_spec(b, expect_spec(b, pos, 44u8))
            } else {
                pos
            };
            let cp = index_path(path, i);
            let sub = map_value_spec(v->Array_0[i as int], cp, b, p0, offs);
            let rest = map_elements_spec(v, path, b, skip_ws_spec(b, sub.0), i + 1, offs);
            map_elements_spec(v, path, b, pos, i, offs) == (
                rest.0,
                sub.1.push((cp, span_of(p0, sub.0, offs))) + rest.1,
            )
        }),
{
}

/// One round of the member loop.
pub proof fn lemma_members_step(
    v: JsonView,
    path: Seq<char>,
    b: Seq<u8>,
    pos: int,
    first: bool,
    offs: Seq<usize>,
    p2: int,
    ins1: Seq<(Seq<char>, SourceSpan)>,
)
    requires
        v is Object,
        0 <= pos < b.len(),
        b[pos] != 125u8,
        ({
            let p0 = if first {
                pos
            } else {
                skip_ws_spec(b, expect_spec(b, pos, 44u8))
            };
            let (key, kend) = string_at(b, p0);
            let p1 = skip_ws_spec(b, expect_spec(b, skip_ws_spec(b, kend), 58u8));
            let idx = member_index(v->Object_0, key);
            if 0 <= idx < v->Object_0.len() {
                let cp = key_path(path, key);
                let sub = map_value_spec(v->Object_0[idx].1, cp, b, p1, offs);
                &&& p2 == sub.0
                &&& ins1 == if cp.len() > 0 {
                    sub.1.push((cp, span_of(p1, sub.0, offs)))
                } else {
                    sub.1
                }
            } else {
                &&& p2 == value_end(b, p1)
                &&& ins1 == Seq::<(Seq<char>, SourceSpan)>::empty()
            }
        }),
        skip_ws_spec(b, p2) > pos,
    ensures
        map_members_spec(v, path, b, pos, first, offs) == (
            map_members_spec(v, path, b, skip_ws_spec(b, p2), false, offs).0,
            ins1 + map_members_spec(v, path, b, skip_ws_spec(b, p2), false, offs).1,
        ),
{
}

/// The walk of an object or array from `start`.
pub proof fn lemma_value_container(
    v: JsonView,
    path: Seq<char>,
    b: Seq<u8>,
    start: int,
    offs: Seq<usize>,
)
    requires
        v is Object || v is Array,
    ensures
        ({
            let pos = skip_ws_spec(b, start);
            let inner = skip_ws_spec(b, pos + 1);
            let walked = if v is Object {
                map_members_spec(v, path, b, inner, true, offs)
            } else {
                map_elements_spec(v, path, b, inner, 0, offs)
            };
            let p2 = past_close(b, walked.0);
            map_value_spec(v, path, b, start, offs) == (
                p2,
                if path.len() > 0 {
                    walked.1.push((path, span_of(pos, p2, offs)))
                } else {
                    walked.1
                },
            )
        }),
{
}

/// The walk of a string, number, boolean or null from `start`.
pub proof fn lemma_value_scalar(v: JsonView, path: Seq<char>, b: Seq<u8>, start: int, offs: Seq<usize>)
    requires
        !(v is Object || v is Array),
    ensures
        map_value_spec(v, path, b, start, offs).1 == Seq::<(Seq<char>, SourceSpan)>::empty(),
        map_value_spec(v, path, b, start, offs).0 == ({
            let pos = skip_ws_spec(b, start);
            match v {
                JsonView::Str(_) => string_at(b, pos).1,
                JsonView::Number(_) => number_end(b, pos),
                JsonView::Bool(x) => if x {
                    pos + 4
                } else {
                    pos + 5
                },
                _ => pos + 4,
            }
        }),
{
}

pub proof fn lemma_members_done(
    v: JsonView,
    path: Seq<char>,
    b: Seq<u8>,
    pos: int,
    first: bool,
    offs: Seq<usize>,
)
    requires
        !(0 <= pos < b.len() && b[pos] != 125u8),
    ensures
        map_members_spec(v, path, b, pos, first, offs) == (
            pos,
            Seq::<(Seq<char>, SourceSpan)>::empty(),
        ),
{
}

pub proof fn lemma_elements_done(
    v: JsonView,
    path: Seq<char>,
    b: Seq<u8>,
    pos: int,
    i: nat,
    offs: Seq<usize>,
)
    requires
        v is Array,
        i >= v->Array_0.len(),
    ensures
        map_elements_spec(v, path, b, pos, i, offs) == (
            pos,
            Seq::<(Seq<char>, SourceSpan)>::empty(),
        ),
{
}

// ----------------------------------------------------------------------------
// Every recorded span is located by the line table
// ----------------------------------------------------------------------------
/// Every recorded span carries the line and column of its own start.
pub open spec fn all_located(ins: Seq<(Seq<char>, SourceSpan)>, offsets: Seq<usize>) -> bool {
    forall|k: int|
        0 <= k < ins.len() ==> #[trigger] ins[k].1 == span_at(ins[k].1.start, ins[k].1.end, offsets)
}

pub proof fn lemma_located_concat(
    a: Seq<(Seq<char>, SourceSpan)>,
    c: Seq<(Seq<char>, SourceSpan)>,
    offsets: Seq<usize>,
)
    requires
        all_located(a, offsets),
        all_located(c, offsets),
    ensures
        all_located(a + c, offsets),
{
    assert forall|k: int| 0 <= k < (a + c).len() implies #[trigger] (a + c)[k].1 == span_at(
        (a + c)[k].1.start,
        (a + c)[k].1.end,
        offsets,
    ) by {
        if k < a.len() {
            assert((a + c)[k] == a[k]);
        } else {
            assert((a + c)[k] == c[k - a.len()]);
        }
    }
}

pub proof fn lemma_located_push(
    a: Seq<(Seq<char>, SourceSpan)>,
    p: Seq<char>,
    start: int,
    end: int,
    offsets: Seq<usize>,
)
    requires
        all_located(a, offsets),
    ensures
        all_located(a.push((p, span_of(start, end, offsets))), offsets),
{
    let x = (p, span_of(start, end, offsets));
    assert forall|k: int| 0 <= k < a.push(x).len() implies #[trigger] a.push(x)[k].1 == span_at(
        a.push(x)[k].1.start,
        a.push(x)[k].1.end,
        offsets,
    ) by {
        if k < a.len() {
            assert(a.push(x)[k] == a[k]);
        }
    }
}

/// The walk of a value records only located spans.
pub proof fn lemma_value_located(v: JsonView, path: Seq<char>, b: Seq<u8>, start: int, offs: Seq<usize>)
    ensures
        all_located(map_value_spec(v, path, b, start, offs).1, offs),
    decreases v, b.len() + width(v) + 1,
{
    if v is Object || v is Array {
        lemma_value_container(v, path, b, start, offs);
        let pos = skip_ws_spec(b, start);
        let inner = skip_ws_spec(b, pos + 1);
        let walked = if v is Object {
            lemma_members_located(v, path, b, inner, true, offs);
            map_members_spec(v, path, b, inner, true, offs)
        } else {
            lemma_elements_located(v, path, b, inner, 0, offs);
            map_elements_spec(v, path, b, inner, 0, offs)
        };
        if path.len() > 0 {
            lemma_located_push(walked.1, path, pos, past_close(b, walked.0), offs);
        }
    } else {
        lemma_value_scalar(v, path, b, start, offs);
    }
}

/// The member loop records only located spans.
pub proof fn lemma_members_located(
    v: JsonView,
    path: Seq<char>,
    b: Seq<u8>,
    pos: int,
    first: bool,
    offs: Seq<usize>,
)
    ensures
        all_located(map_members_spec(v, path, b, pos, first, offs).1, offs),
    decreases v, bytes_left(b, pos),
{
    if v is Object && 0 <= pos < b.len() && b[pos] != 125u8 {
        let entries = v->Object_0;
        let p0 = if first {
            pos
        } else {
            skip_ws_spec(b, expect_spec(b, pos, 44u8))
        };
        let (key, kend) = string_at(b, p0);
        let p1 = skip_ws_spec(b, expect_spec(b, skip_ws_spec(b, kend), 58u8));
        let idx = member_index(entries, key);
        let (p2, ins1) = if 0 <= idx < entries.len() {
            let cp = key_path(path, key);
            assert(decreases_to!(v => v->Object_0));
            assert(decreases_to!(v->Object_0 => v->Object_0[idx]));
            assert(decreases_to!(v->Object_0[idx] => v->Object_0[idx].1));
            lemma_value_located(entries[idx].1, cp, b, p1, offs);
            let (e, ins) = map_value_spec(entries[idx].1, cp, b, p1, offs);
            if cp.len() > 0 {
                lemma_located_push(ins, cp, p1, e, offs);
            }
            (
                e,
                if cp.len() > 0 {
                    ins.push((cp, span_of(p1, e, offs)))
                } else {
                    ins
                },
            )
        } else {
            (value_end(b, p1), Seq::<(Seq<char>, SourceSpan)>::empty())
        };
        let next = skip_ws_spec(b, p2);
        if next > pos {
            lemma_members_located(v, path, b, next, false, offs);
            let rest = map_members_spec(v, path, b, next, false, offs);
            lemma_located_concat(ins1, rest.1, offs);
        }
    }
}

/// The element loop records only located spans.
pub proof fn lemma_elements_located(
    v: JsonView,
    path: Seq<char>,
    b: Seq<u8>,
    pos: int,
    i: nat,
    offs: Seq<usize>,
)
    ensures
        all_located(map_elements_spec(v, path, b, pos, i, offs).1, offs),
    decreases v, width(v) - i,
{
    if v is Array && i < v->Array_0.len() {
        lemma_elements_step(v, path, b, pos, i, offs);
        let p0 = if i > 0 {
            skip_ws_spec(b, expect_spec(b, pos, 44u8))
        } else {
            pos
        };
        let cp = index_path(path, i);
        assert(decreases_to!(v => v->Array_0));
        assert(decreases_to!(v->Array_0 => v->Array_0[i as int]));
        lemma_value_located(v->Array_0[i as int], cp, b, p0, offs);
        let sub = map_value_spec(v->Array_0[i as int], cp, b, p0, offs);
        lemma_elements_located(v, path, b, skip_ws_spec(b, sub.0), i + 1, offs);
        let rest = map_elements_spec(v, path, b, skip_ws_spec(b, sub.0), i + 1, offs);
        lemma_located_push(sub.1, cp, p0, sub.0, offs);
        lemma_located_concat(sub.1.push((cp, span_of(p0, sub.0, offs))), rest.1, offs);
    }
}

/// Recording only located spans into a map whose spans are all located leaves a
/// map whose spans are all located.
pub proof fn lemma_apply_located(
    m: Map<Seq<char>, SourceSpan>,
    ins: Seq<(Seq<char>, SourceSpan)>,
    offsets: Seq<usize>,
)
    requires
        all_located(ins, offsets),
        forall|p: Seq<char>| #[trigger] m.dom().contains(p) ==> m[p] == span_at(m[p].start, m[p].end, offsets),
    ensures
        forall|p: Seq<char>|
            #[trigger] apply_inserts(m, ins).dom().contains(p) ==> apply_inserts(m, ins)[p] == span_at(
                apply_inserts(m, ins)[p].start,
                apply_inserts(m, ins)[p].end,
                offsets,
            ),
    decreases ins.len(),
{
    reveal(apply_inserts);
    if ins.len() > 0 {
        let front = ins.drop_last();
        assert forall|k: int| 0 <= k < front.len() implies #[trigger] front[k].1 == span_at(
            front[k].1.start,
            front[k].1.end,
            offsets,
        ) by {
            assert(front[k] == ins[k]);
        }
        lemma_apply_located(m, front, offsets);
        let last = ins[ins.len() - 1];
        assert(last.1 == span_at(last.1.start, last.1.end, offsets));
        let before = apply_inserts(m, front);
        assert(apply_inserts(m, ins) == before.insert(last.0, last.1));
        assert forall|p: Seq<char>| #[trigger] apply_inserts(m, ins).dom().contains(p) implies apply_inserts(
            m,
            ins,
        )[p] == span_at(apply_inserts(m, ins)[p].start, apply_inserts(m, ins)[p].end, offsets) by {
            if p != last.0 {
                assert(before.dom().contains(p));
            }
        }
    }
}

// ----------------------------------------------------------------------------
// Pairs recorded by one walk among those of another
// ----------------------------------------------------------------------------
/// Every pair of `a` is also a pair of `c`.
pub open spec fn included(a: Seq<(Seq<char>, SourceSpan)>, c: Seq<(Seq<char>, SourceSpan)>) -> bool {
    forall|k: int| 0 <= k < a.len() ==> c.contains(#[trigger] a[k])
}

pub proof fn lemma_included_concat(a: Seq<(Seq<char>, SourceSpan)>, c: Seq<(Seq<char>, SourceSpan)>)
    ensures
        included(a, a + c),
        included(c, a + c),
{
    assert forall|k: int| 0 <= k < a.len() implies (a + c).contains(#[trigger] a[k]) by {
        assert((a + c)[k] == a[k]);
    }
    assert forall|k: int| 0 <= k < c.len() implies (a + c).contains(#[trigger] c[k]) by {
        assert((a + c)[a.len() + k] == c[k]);
    }
}

pub proof fn lemma_included_trans(
    a: Seq<(Seq<char>, SourceSpan)>,
    c: Seq<(Seq<char>, SourceSpan)>,
    d: Seq<(Seq<char>, SourceSpan)>,
)
    requires
        included(a, c),
        included(c, d),
    ensures
        included(a, d),
{
    assert forall|k: int| 0 <= k < a.len() implies d.contains(#[trigger] a[k]) by {
        assert(c.contains(a[k]));
        let j = choose|j: int| 0 <= j < c.len() && c[j] == a[k];
        assert(d.contains(c[j]));
    }
}

/// A map after recording pairs has every recorded path.
pub proof fn lemma_apply_has_key(m: Map<Seq<char>, SourceSpan>, ins: Seq<(Seq<char>, SourceSpan)>, j: int)
    requires
        0 <= j < ins.len(),
    ensures
        apply_inserts(m, ins).dom().contains(ins[j].0),
    decreases ins.len(),
{
    reveal(apply_inserts);
    if j < ins.len() - 1 {
        lemma_apply_has_key(m, ins.drop_last(), j);
        assert(ins.drop_last()[j] == ins[j]);
    }
}

/// Some pair of `ins` records path `p`.
pub open spec fn has_path(ins: Seq<(Seq<char>, SourceSpan)>, p: Seq<char>) -> bool {
    exists|j: int| 0 <= j < ins.len() && #[trigger] ins[j].0 == p
}

pub proof fn lemma_included_has_path(
    a: Seq<(Seq<char>, SourceSpan)>,
    c: Seq<(Seq<char>, SourceSpan)>,
    p: Seq<char>,
)
    requires
        included(a, c),
        has_path(a, p),
    ensures
        has_path(c, p),
{
    let j = choose|j: int| 0 <= j < a.len() && #[trigger] a[j].0 == p;
    assert(c.contains(a[j]));
    let i = choose|i: int| 0 <= i < c.len() && c[i] == a[j];
    assert(c[i].0 == p);
}

/// A map after recording pairs has every path that one of them records.
pub proof fn lemma_apply_has_path(m: Map<Seq<char>, SourceSpan>, ins: Seq<(Seq<char>, SourceSpan)>, p: Seq<char>)
    requires
        has_path(ins, p),
    ensures
        apply_inserts(m, ins).dom().contains(p),
{
    let j = choose|j: int| 0 <= j < ins.len() && #[trigger] ins[j].0 == p;
    lemma_apply_has_key(m, ins, j);
}

pub proof fn lemma_included_push(a: Seq<(Seq<char>, SourceSpan)>, x: (Seq<char>, SourceSpan))
    ensures
        included(a, a.push(x)),
        has_path(a.push(x), x.0),
{
    assert forall|k: int| 0 <= k < a.len() implies a.push(x).contains(#[trigger] a[k]) by {
        assert(a.push(x)[k] == a[k]);
    }
    assert(a.push(x)[a.len() as int].0 == x.0);
}

pub proof fn lemma_included_refl(a: Seq<(Seq<char>, SourceSpan)>)
    ensures
        included(a, a),
{
    assert forall|k: int| 0 <= k < a.len() implies a.contains(#[trigger] a[k]) by {}
}

// ----------------------------------------------------------------------------
// Sources that the walk reads a value back from
// ----------------------------------------------------------------------------
/// The walk of `v` (at `path`) from `start` reads `v` back from the source: it meets
/// every member of every object under its key, reading the member's value back
/// there, and reads back every element of every array.
pub closed spec fn value_reads(v: JsonView, path: Seq<char>, b: Seq<u8>, start: int, offsets: Seq<usize>) -> bool
    decreases v, b.len() + crate::value::width(v) + 1,
{
    let pos = skip_ws_spec(b, start);
    match v {
        JsonView::Object(es) => {
            let found = members_found(v, path, b, skip_ws_spec(b, pos + 1), true, offsets);
            forall|i: int| 0 <= i < es.len() ==> found.contains(#[trigger] es[i].0)
        },
        JsonView::Array(_) => elements_read(v, path, b, skip_ws_spec(b, pos + 1), 0, offsets),
        _ => true,
    }
}

/// The keys that the member loop from `pos` meets with the member's value read back
/// at the position it reaches.
pub closed spec fn members_found(
    v: JsonView,
    path: Seq<char>,
    b: Seq<u8>,
    pos: int,
    first: bool,
    offsets: Seq<usize>,
) -> Set<Seq<char>>
    decreases v, bytes_left(b, pos),
{
    if !(v is Object && 0 <= pos < b.len() && b[pos] != 125u8) {
        Set::empty()
    } else {
        let entries = v->Object_0;
        let p0 = if first {
            pos
        } else {
            skip_ws_spec(b, expect_spec(b, pos, 44u8))
        };
        let (key, kend) = string_at(b, p0);
        let p1 = skip_ws_spec(b, expect_spec(b, skip_ws_spec(b, kend), 58u8));
        let idx = member_index(entries, key);
        let (p2, here) = if 0 <= idx < entries.len() {
            let cp = key_path(path, key);
            proof {
                assert(decreases_to!(v => v->Object_0));
                assert(decreases_to!(v->Object_0 => v->Object_0[idx]));
                assert(decreases_to!(v->Object_0[idx] => v->Object_0[idx].1));
            }
            (
                map_value_spec(entries[idx].1, cp, b, p1, offsets).0,
                if value_reads(entries[idx].1, cp, b, p1, offsets) {
                    Set::empty().insert(key)
                } else {
                    Set::empty()
                },
            )
        } else {
            (value_end(b, p1), Set::empty())
        };
        let next = skip_ws_spec(b, p2);
        if next > pos {
            here.union(members_found(v, path, b, next, false, offsets))
        } else {
            here
        }
    }
}

/// The element loop from `pos` reads back elements `i..`.
pub closed spec fn elements_read(
    v: JsonView,
    path: Seq<char>,
    b: Seq<u8>,
    pos: int,
    i: nat,
    offsets: Seq<usize>,
) -> bool
    decreases v, crate::value::width(v) - i,
{
    if !(v is Array && i < v->Array_0.len()) {
        true
    } else {
        let p0 = if i > 0 {
            skip_ws_spec(b, expect_spec(b, pos, 44u8))
        } else {
            pos
        };
        let cp = index_path(path, i);
        let e = map_value_spec(v->Array_0[i as int], cp, b, p0, offsets).0;
        value_reads(v->Array_0[i as int], cp, b, p0, offsets) && elements_read(
            v,
            path,
            b,
            skip_ws_spec(b, e),
            i + 1,
            offsets,
        )
    }
}

/// What reading a value back asks: for an object, that the member loop meets every
/// key of it with the member's value read back; for an array, that the element loop
/// reads back every element; for anything else, nothing.
pub proof fn lemma_value_reads_unfold(v: JsonView, path: Seq<char>, b: Seq<u8>, start: int, offs: Seq<usize>)
    ensures
        value_reads(v, path, b, start, offs) == ({
            let inner = skip_ws_spec(b, skip_ws_spec(b, start) + 1);
            match v {
                JsonView::Object(es) => forall|i: int|
                    0 <= i < es.len() ==> members_found(v, path, b, inner, true, offs).contains(
                        #[trigger] es[i].0,
                    ),
                JsonView::Array(_) => elements_read(v, path, b, inner, 0, offs),
                _ => true,
            }
        }),
{
}

/// One round of the member loop: the key it meets, when it names a member whose
/// value is read back where the loop reaches it, and the keys of the rounds after.
pub proof fn lemma_members_found_unfold(
    v: JsonView,
    path: Seq<char>,
    b: Seq<u8>,
    pos: int,
    first: bool,
    offs: Seq<usize>,
)
    ensures
        members_found(v, path, b, pos, first, offs) == if !(v is Object && 0 <= pos < b.len() && b[pos]
            != 125u8) {
            Set::<Seq<char>>::empty()
        } else {
            let entries = v->Object_0;
            let p0 = if first {
                pos
            } else {
                skip_ws_spec(b, expect_spec(b, pos, 44u8))
            };
            let (key, kend) = string_at(b, p0);
            let p1 = skip_ws_spec(b, expect_spec(b, skip_ws_spec(b, kend), 58u8));
            let idx = member_index(entries, key);
            let (p2, here) = if 0 <= idx < entries.len() {
                let cp = key_path(path, key);
                (
                    map_value_spec(entries[idx].1, cp, b, p1, offs).0,
                    if value_reads(entries[idx].1, cp, b, p1, offs) {
                        Set::empty().insert(key)
                    } else {
                        Set::empty()
                    },
                )
            } else {
                (value_end(b, p1), Set::empty())
            };
            let next = skip_ws_spec(b, p2);
            if next > pos {
                here.union(members_found(v, path, b, next, false, offs))
            } else {
                here
            }
        },
{
}

/// One round of the element loop: element `i` is read back where the loop reaches
/// it, and so are the elements after it.
pub proof fn lemma_elements_read_unfold(
    v: JsonView,
    path: Seq<char>,
    b: Seq<u8>,
    pos: int,
    i: nat,
    offs: Seq<usize>,
)
    ensures
        elements_read(v, path, b, pos, i, offs) == if !(v is Array && i < v->Array_0.len()) {
            true
        } else {
            let p0 = if i > 0 {
                skip_ws_spec(b, expect_spec(b, pos, 44u8))
            } else {
                pos
            };
            let cp = index_path(path, i);
            let e = map_value_spec(v->Array_0[i as int], cp, b, p0, offs).0;
            value_reads(v->Array_0[i as int], cp, b, p0, offs) && elements_read(
                v,
                path,
                b,
                skip_ws_spec(b, e),
                i + 1,
                offs,
            )
        },
{
}

/// What reading back an object or an array asks of its members or elements, and
/// where their pairs go: everything the member or element loop records, the walk of
/// the container records.
pub proof fn lemma_value_reads_parts(
    v: JsonView,
    path: Seq<char>,
    b: Seq<u8>,
    start: int,
    offs: Seq<usize>,
)
    ensures
        ({
            let inner = skip_ws_spec(b, skip_ws_spec(b, start) + 1);
            let all = map_value_spec(v, path, b, start, offs).1;
            &&& v is Object ==> included(map_members_spec(v, path, b, inner, true, offs).1, all)
            &&& v is Object && value_reads(v, path, b, start, offs) ==> forall|i: int|
                0 <= i < v->Object_0.len() ==> members_found(v, path, b, inner, true, offs).contains(
                    #[trigger] v->Object_0[i].0,
                )
            &&& v is Array ==> included(map_elements_spec(v, path, b, inner, 0, offs).1, all)
            &&& v is Array && value_reads(v, path, b, start, offs) ==> elements_read(
                v,
                path,
                b,
                inner,
                0,
                offs,
            )
        }),
{
    if v is Object || v is Array {
        lemma_value_container(v, path, b, start, offs);
        let pos = skip_ws_spec(b, start);
        let inner = skip_ws_spec(b, pos + 1);
        let walked = if v is Object {
            map_members_spec(v, path, b, inner, true, offs)
        } else {
            map_elements_spec(v, path, b, inner, 0, offs)
        };
        if path.len() > 0 {
            lemma_included_push(walked.1, (path, span_of(pos, past_close(b, walked.0), offs)));
        } else {
            lemma_included_refl(walked.1);
        }
    }
}

/// A key that the member loop meets with its value read back: the member's value is
/// read back from some position, the loop records everything that the walk of that
/// value records, and the value's own path when that is not empty.
pub proof fn lemma_members_find(
    v: JsonView,
    path: Seq<char>,
    b: Seq<u8>,
    pos: int,
    first: bool,
    offs: Seq<usize>,
    name: Seq<char>,
) -> (p1: int)
    requires
        members_found(v, path, b, pos, first, offs).contains(name),
    ensures
        v is Object,
        0 <= member_index(v->Object_0, name) < v->Object_0.len(),
        ({
            let child = v->Object_0[member_index(v->Object_0, name)].1;
            let cp = key_path(path, name);
            let all = map_members_spec(v, path, b, pos, first, offs).1;
            &&& value_reads(child, cp, b, p1, offs)
            &&& included(map_value_spec(child, cp, b, p1, offs).1, all)
            &&& cp.len() > 0 ==> has_path(all, cp)
        }),
    decreases v, bytes_left(b, pos),
{
    let entries = v->Object_0;
    let p0 = if first {
        pos
    } else {
        skip_ws_spec(b, expect_spec(b, pos, 44u8))
    };
    let (key, kend) = string_at(b, p0);
    let p1 = skip_ws_spec(b, expect_spec(b, skip_ws_spec(b, kend), 58u8));
    let idx = member_index(entries, key);
    let cp = key_path(path, key);
    let (p2, ins1) = if 0 <= idx < entries.len() {
        let sub = map_value_spec(entries[idx].1, cp, b, p1, offs);
        (
            sub.0,
            if cp.len() > 0 {
                sub.1.push((cp, span_of(p1, sub.0, offs)))
            } else {
                sub.1
            },
        )
    } else {
        (value_end(b, p1), Seq::<(Seq<char>, SourceSpan)>::empty())
    };
    let next = skip_ws_spec(b, p2);
    let all = map_members_spec(v, path, b, pos, first, offs).1;
    if next > pos {
        let rest = map_members_spec(v, path, b, next, false, offs);
        assert(all == ins1 + rest.1);
        lemma_included_concat(ins1, rest.1);
    } else {
        assert(all == ins1);
        lemma_included_refl(ins1);
    }
    if 0 <= idx < entries.len() && key == name && value_reads(entries[idx].1, cp, b, p1, offs) {
        let sub = map_value_spec(entries[idx].1, cp, b, p1, offs);
        if cp.len() > 0 {
            lemma_included_push(sub.1, (cp, span_of(p1, sub.0, offs)));
            lemma_included_has_path(ins1, all, cp);
        } else {
            lemma_included_refl(sub.1);
        }
        lemma_included_trans(sub.1, ins1, all);
        p1
    } else {
        assert(next > pos);
        let rest = map_members_spec(v, path, b, next, false, offs);
        let q = lemma_members_find(v, path, b, next, false, offs, name);
        let child = entries[member_index(entries, name)].1;
        let cq = key_path(path, name);
        lemma_included_trans(map_value_spec(child, cq, b, q, offs).1, rest.1, all);
        if cq.len() > 0 {
            lemma_included_has_path(rest.1, all, cq);
        }
        q
    }
}

/// An element that the element loop reads back: it is read back from some position,
/// and the loop records everything that its walk records, and its own path.
pub proof fn lemma_elements_find(
    v: JsonView,
    path: Seq<char>,
    b: Seq<u8>,
    pos: int,
    i: nat,
    offs: Seq<usize>,
    j: int,
) -> (p0: int)
    requires
        v is Array,
        i <= j < v->Array_0.len(),
        elements_read(v, path, b, pos, i, offs),
    ensures
        ({
            let cp = index_path(path, j as nat);
            let all = map_elements_spec(v, path, b, pos, i, offs).1;
            &&& value_reads(v->Array_0[j], cp, b, p0, offs)
            &&& included(map_value_spec(v->Array_0[j], cp, b, p0, offs).1, all)
            &&& has_path(all, cp)
        }),
    decreases j - i,
{
    lemma_elements_step(v, path, b, pos, i, offs);
    let p0 = if i > 0 {
        skip_ws_spec(b, expect_spec(b, pos, 44u8))
    } else {
        pos
    };
    let cp = index_path(path, i);
    let sub = map_value_spec(v->Array_0[i as int], cp, b, p0, offs);
    let rest_pos = skip_ws_spec(b, sub.0);
    let rest = map_elements_spec(v, path, b, rest_pos, i + 1, offs);
    let head = sub.1.push((cp, span_of(p0, sub.0, offs)));
    lemma_included_concat(head, rest.1);
    if j == i {
        lemma_included_push(sub.1, (cp, span_of(p0, sub.0, offs)));
        lemma_included_trans(sub.1, head, head + rest.1);
        lemma_included_has_path(head, head + rest.1, cp);
        p0
    } else {
        let q = lemma_elements_find(v, path, b, rest_pos, i + 1, offs, j);
        let cq = index_path(path, j as nat);
        lemma_included_trans(map_value_spec(v->Array_0[j], cq, b, q, offs).1, rest.1, head + rest.1);
        lemma_included_has_path(rest.1, head + rest.1, cq);
        q
    }
}

// ----------------------------------------------------------------------------
// Every recorded path is the path of a value of the document
// ----------------------------------------------------------------------------
/// `u` at `path` is the one match of some path in `v`.
pub open spec fn sole_match(v: JsonView, u: JsonView, path: Seq<char>) -> bool {
    exists|r: Seq<SegmentView>| #[trigger] eval_path(r, v) == seq![(u, path)]
}

/// Every pair of `ins` records a non-empty path of a value that some path finds in `v`.
pub open spec fn paths_found(v: JsonView, ins: Seq<(Seq<char>, SourceSpan)>) -> bool {
    forall|k: int| 0 <= k < ins.len() ==> (#[trigger] ins[k]).0.len() > 0 && found_path(v, ins[k].0)
}

proof fn lemma_sole_found(v: JsonView, u: JsonView, path: Seq<char>)
    requires
        sole_match(v, u, path),
    ensures
        found_path(v, path),
{
    let r = choose|r: Seq<SegmentView>| #[trigger] eval_path(r, v) == seq![(u, path)];
    assert(eval_path(r, v)[0].1 == path);
}

/// A member of a sole match is the sole match of one more field step.
proof fn lemma_sole_member(v: JsonView, u: JsonView, path: Seq<char>, key: Seq<char>)
    requires
        sole_match(v, u, path),
        u is Object,
        0 <= member_index(u->Object_0, key) < u->Object_0.len(),
    ensures
        sole_match(v, u->Object_0[member_index(u->Object_0, key)].1, key_path(path, key)),
{
    let r = choose|r: Seq<SegmentView>| #[trigger] eval_path(r, v) == seq![(u, path)];
    let seg = SegmentView::Field(key);
    let r2 = r.push(seg);
    assert(r2.drop_last() == r);
    lemma_step_all_single((u, path), seg);
    lemma_member_index_key(u->Object_0, key);
    assert(eval_path(r2, v) == seq![(u->Object_0[member_index(u->Object_0, key)].1, key_path(path, key))]);
}

/// An element of a sole match is the sole match of one more index step.
proof fn lemma_sole_element(v: JsonView, u: JsonView, path: Seq<char>, i: nat)
    requires
        sole_match(v, u, path),
        u is Array,
        i < u->Array_0.len(),
    ensures
        sole_match(v, u->Array_0[i as int], index_path(path, i)),
{
    let r = choose|r: Seq<SegmentView>| #[trigger] eval_path(r, v) == seq![(u, path)];
    let seg = SegmentView::Index(i);
    let r2 = r.push(seg);
    assert(r2.drop_last() == r);
    lemma_step_all_single((u, path), seg);
    assert(eval_path(r2, v) == seq![(u->Array_0[i as int], index_path(path, i))]);
}

proof fn lemma_paths_found_concat(v: JsonView, a: Seq<(Seq<char>, SourceSpan)>, c: Seq<(Seq<char>, SourceSpan)>)
    requires
        paths_found(v, a),
        paths_found(v, c),
    ensures
        paths_found(v, a + c),
{
    assert forall|k: int| 0 <= k < (a + c).len() implies (#[trigger] (a + c)[k]).0.len() > 0 && found_path(
        v,
        (a + c)[k].0,
    ) by {
        if k < a.len() {
            assert((a + c)[k] == a[k]);
        } else {
            assert((a + c)[k] == c[k - a.len()]);
        }
    }
}

proof fn lemma_paths_found_push(v: JsonView, a: Seq<(Seq<char>, SourceSpan)>, x: (Seq<char>, SourceSpan))
    requires
        paths_found(v, a),
        x.0.len() > 0,
        found_path(v, x.0),
    ensures
        paths_found(v, a.push(x)),
{
    assert forall|k: int| 0 <= k < a.push(x).len() implies (#[trigger] a.push(x)[k]).0.len() > 0 && found_path(
        v,
        a.push(x)[k].0,
    ) by {
        if k < a.len() {
            assert(a.push(x)[k] == a[k]);
        }
    }
}

/// The walk of a sole match records only paths of values of `v`.
pub proof fn lemma_value_paths(
    v: JsonView,
    u: JsonView,
    path: Seq<char>,
    b: Seq<u8>,
    start: int,
    offs: Seq<usize>,
)
    requires
        sole_match(v, u, path),
    ensures
        paths_found(v, map_value_spec(u, path, b, start, offs).1),
    decreases u, b.len() + width(u) + 1,
{
    if u is Object || u is Array {
        lemma_value_container(u, path, b, start, offs);
        let pos = skip_ws_spec(b, start);
        let inner = skip_ws_spec(b, pos + 1);
        let walked = if u is Object {
            lemma_members_paths(v, u, path, b, inner, true, offs);
            map_members_spec(u, path, b, inner, true, offs)
        } else {
            lemma_elements_paths(v, u, path, b, inner, 0, offs);
            map_elements_spec(u, path, b, inner, 0, offs)
        };
        if path.len() > 0 {
            lemma_sole_found(v, u, path);
            lemma_paths_found_push(v, walked.1, (path, span_of(pos, past_close(b, walked.0), offs)));
        }
    } else {
        lemma_value_scalar(u, path, b, start, offs);
    }
}

/// The member loop over a sole match records only paths of values of `v`.
pub proof fn lemma_members_paths(
    v: JsonView,
    u: JsonView,
    path: Seq<char>,
    b: Seq<u8>,
    pos: int,
    first: bool,
    offs: Seq<usize>,
)
    requires
        sole_match(v, u, path),
    ensures
        paths_found(v, map_members_spec(u, path, b, pos, first, offs).1),
    decreases u, bytes_left(b, pos),
{
    if u is Object && 0 <= pos < b.len() && b[pos] != 125u8 {
        let entries = u->Object_0;
        let p0 = if first {
            pos
        } else {
            skip_ws_spec(b, expect_spec(b, pos, 44u8))
        };
        let (key, kend) = string_at(b, p0);
        let p1 = skip_ws_spec(b, expect_spec(b, skip_ws_spec(b, kend), 58u8));
        let idx = member_index(entries, key);
        let (p2, ins1) = if 0 <= idx < entries.len() {
            let cp = key_path(path, key);
            assert(decreases_to!(u => u->Object_0));
            assert(decreases_to!(u->Object_0 => u->Object_0[idx]));
            assert(decreases_to!(u->Object_0[idx] => u->Object_0[idx].1));
            lemma_sole_member(v, u, path, key);
            lemma_value_paths(v, entries[idx].1, cp, b, p1, offs);
            let (e, ins) = map_value_spec(entries[idx].1, cp, b, p1, offs);
            if cp.len() > 0 {
                lemma_sole_found(v, entries[idx].1, cp);
                lemma_paths_found_push(v, ins, (cp, span_of(p1, e, offs)));
            }
            (
                e,
                if cp.len() > 0 {
                    ins.push((cp, span_of(p1, e, offs)))
                } else {
                    ins
                },
            )
        } else {
            (value_end(b, p1), Seq::<(Seq<char>, SourceSpan)>::empty())
        };
        let next = skip_ws_spec(b, p2);
        if next > pos {
            lemma_members_paths(v, u, path, b, next, false, offs);
            let rest = map_members_spec(u, path, b, next, false, offs);
            lemma_paths_found_concat(v, ins1, rest.1);
        }
    }
}

/// The element loop over a sole match records only paths of values of `v`.
pub proof fn lemma_elements_paths(
    v: JsonView,
    u: JsonView,
    path: Seq<char>,
    b: Seq<u8>,
    pos: int,
    i: nat,
    offs: Seq<usize>,
)
    requires
        sole_match(v, u, path),
    ensures
        paths_found(v, map_elements_spec(u, path, b, pos, i, offs).1),
    decreases u, width(u) - i,
{
    if u is Array && i < u->Array_0.len() {
        lemma_elements_step(u, path, b, pos, i, offs);
        let p0 = if i > 0 {
            skip_ws_spec(b, expect_spec(b, pos, 44u8))
        } else {
            pos
        };
        let cp = index_path(path, i);
        assert(decreases_to!(u => u->Array_0));
        assert(decreases_to!(u->Array_0 => u->Array_0[i as int]));
        lemma_sole_element(v, u, path, i);
        lemma_value_paths(v, u->Array_0[i as int], cp, b, p0, offs);
        let sub = map_value_spec(u->Array_0[i as int], cp, b, p0, offs);
        lemma_elements_paths(v, u, path, b, skip_ws_spec(b, sub.0), i + 1, offs);
        let rest = map_elements_spec(u, path, b, skip_ws_spec(b, sub.0), i + 1, offs);
        lemma_sole_found(v, u->Array_0[i as int], cp);
        lemma_paths_found_push(v, sub.1, (cp, span_of(p0, sub.0, offs)));
        lemma_paths_found_concat(v, sub.1.push((cp, span_of(p0, sub.0, offs))), rest.1);
    }
}

/// A path that a map after recording pairs has: the map had it, or a pair records it.
pub proof fn lemma_apply_dom(m: Map<Seq<char>, SourceSpan>, ins: Seq<(Seq<char>, SourceSpan)>, p: Seq<char>)
    requires
        apply_inserts(m, ins).dom().contains(p),
    ensures
        m.dom().contains(p) || has_path(ins, p),
    decreases ins.len(),
{
    reveal(apply_inserts);
    if ins.len() > 0 {
        let front = ins.drop_last();
        if p != ins.last().0 {
            lemma_apply_dom(m, front, p);
            if has_path(front, p) {
                let j = choose|j: int| 0 <= j < front.len() && #[trigger] front[j].0 == p;
                assert(ins[j] == front[j]);
            }
        } else {
            assert(ins[ins.len() - 1].0 == p);
        }
    }
}

} // verus!
