//! The JSON data model that validation works on, with its mathematical view,
//! value equality, and the text form used in messages.
use vstd::prelude::*;

verus! {

/// A JSON number, held as the decimal text that serde_json prints for it
/// (for example `42`, `-7` or `1.5`).
#[derive(Debug, Clone)]
pub struct JsonNumber {
    text: String,
}

/// A JSON value.
///
/// Objects keep their members in the order of the parser's map (sorted by key),
/// and each key occurs once.
#[derive(Debug)]
pub enum JsonValue {
    Null,
    Bool(bool),
    Number(JsonNumber),
    Str(String),
    Array(Vec<JsonValue>),
    Object(Vec<Member>),
}

/// A member of a JSON object: its key and its value.
#[derive(Debug)]
pub struct Member {
    pub key: String,
    pub value: JsonValue,
}

/// The mathematical view of a JSON value.
pub enum JsonView {
    Null,
    Bool(bool),
    Number(Seq<char>),
    Str(Seq<char>),
    Array(Seq<JsonView>),
    Object(Seq<(Seq<char>, JsonView)>),
}

impl View for JsonNumber {
    type V = Seq<char>;

    closed spec fn view(&self) -> Seq<char> {
        self.text@
    }
}

impl JsonNumber {
    /// The number's decimal text.
    pub fn text(&self) -> (t: &str)
        ensures
            t@ == self@,
    {
        self.text.as_str()
    }
}

/// The view of a JSON value: strings and numbers by their characters, arrays and
/// objects by the views of their parts.
pub open spec fn json_view(v: &JsonValue) -> JsonView
    decreases v,
{
    match v {
        JsonValue::Null => JsonView::Null,
        JsonValue::Bool(b) => JsonView::Bool(*b),
        JsonValue::Number(n) => JsonView::Number(n@),
        JsonValue::Str(s) => JsonView::Str(s@),
        JsonValue::Array(items) => JsonView::Array(
            Seq::new(
                items.len() as nat,
                |i: int|
                    if 0 <= i < items.len() {
                        json_view(&items@[i])
                    } else {
                        JsonView::Null
                    },
            ),
        ),
        JsonValue::Object(entries) => JsonView::Object(
            Seq::new(
                entries.len() as nat,
                |i: int|
                    if 0 <= i < entries.len() {
                        (entries@[i].key@, json_view(&entries@[i].value))
                    } else {
                        (Seq::<char>::empty(), JsonView::Null)
                    },
            ),
        ),
    }
}

impl View for JsonValue {
    type V = JsonView;

    open spec fn view(&self) -> JsonView {
        json_view(self)
    }
}

/// The text serde_json prints for a floating-point zero, positive or negative.
pub open spec fn is_float_zero(t: Seq<char>) -> bool {
    t == "0.0"@ || t == "-0.0"@
}

/// Equality of JSON numbers given by their printed text: the same text, or both
/// a floating-point zero (`0.0 == -0.0`).
pub open spec fn same_number(a: Seq<char>, b: Seq<char>) -> bool {
    a == b || (is_float_zero(a) && is_float_zero(b))
}

/// Equality of JSON values: the same kind with equal contents; arrays element by
/// element, objects member by member in order.
pub open spec fn same_value(a: JsonView, b: JsonView) -> bool
    decreases a,
{
    match (a, b) {
        (JsonView::Null, JsonView::Null) => true,
        (JsonView::Bool(x), JsonView::Bool(y)) => x == y,
        (JsonView::Number(x), JsonView::Number(y)) => same_number(x, y),
        (JsonView::Str(x), JsonView::Str(y)) => x == y,
        (JsonView::Array(xs), JsonView::Array(ys)) => xs.len() == ys.len() && forall|i: int|
            0 <= i < xs.len() ==> same_value(xs[i], #[trigger] ys[i]),
        (JsonView::Object(xs), JsonView::Object(ys)) => xs.len() == ys.len() && forall|i: int|
            0 <= i < xs.len() ==> xs[i].0 == #[trigger] ys[i].0 && same_value(xs[i].1, ys[i].1),
        _ => false,
    }
}

/// The position of the first member of `entries` named `key`, or -1 when there is none.
pub open spec fn member_index(entries: Seq<(Seq<char>, JsonView)>, key: Seq<char>) -> int {
    if exists|i: int| 0 <= i < entries.len() && #[trigger] entries[i].0 == key {
        choose|i: int|
            0 <= i < entries.len() && #[trigger] entries[i].0 == key && forall|j: int|
                0 <= j < i ==> entries[j].0 != key
    } else {
        -1
    }
}

/// The value of member `key` of `v`, when `v` is an object that has one.
pub open spec fn member(v: JsonView, key: Seq<char>) -> Option<JsonView> {
    match v {
        JsonView::Object(entries) => {
            let i = member_index(entries, key);
            if i >= 0 {
                Some(entries[i].1)
            } else {
                None
            }
        },
        _ => None,
    }
}

/// The element at `index` of `v`, when `v` is an array that long.
pub open spec fn element(v: JsonView, index: int) -> Option<JsonView> {
    match v {
        JsonView::Array(items) => if 0 <= index < items.len() {
            Some(items[index])
        } else {
            None
        },
        _ => None,
    }
}

/// Position of the member named `key` in `entries`: the first match.
pub fn find_member(entries: &Vec<Member>, key: &String) -> (r: Option<usize>)
    ensures
        match r {
            Some(i) => i < entries.len() && entries@[i as int].key@ == key@ && forall|j: int|
                0 <= j < i ==> entries@[j].key@ != key@,
            None => forall|j: int| 0 <= j < entries.len() ==> entries@[j].key@ != key@,
        },
{
    let mut i: usize = 0;
    while i < entries.len()
        invariant
            i <= entries.len(),
            forall|j: int| 0 <= j < i ==> entries@[j].key@ != key@,
        decreases entries.len() - i,
    {
        if entries[i].key == *key {
            return Some(i);
        }
        i += 1;
    }
    None
}

/// A member found by `member_index` has the key.
pub proof fn lemma_member_index_key(entries: Seq<(Seq<char>, JsonView)>, key: Seq<char>)
    ensures
        member_index(entries, key) >= 0 ==> 0 <= member_index(entries, key) < entries.len()
            && entries[member_index(entries, key)].0 == key,
{
    if exists|i: int| 0 <= i < entries.len() && #[trigger] entries[i].0 == key {
        let i0 = choose|i: int| 0 <= i < entries.len() && #[trigger] entries[i].0 == key;
        assert(exists|c: int|
            0 <= c < entries.len() && #[trigger] entries[c].0 == key && forall|j: int|
                0 <= j < c ==> entries[j].0 != key) by {
            lemma_first_member(entries, key, i0);
        }
    }
}

/// Some member with the key comes first among those with it.
proof fn lemma_first_member(entries: Seq<(Seq<char>, JsonView)>, key: Seq<char>, i: int)
    requires
        0 <= i < entries.len(),
        entries[i].0 == key,
    ensures
        exists|c: int|
            0 <= c < entries.len() && #[trigger] entries[c].0 == key && forall|j: int|
                0 <= j < c ==> entries[j].0 != key,
    decreases i,
{
    if exists|j: int| 0 <= j < i && #[trigger] entries[j].0 == key {
        let j = choose|j: int| 0 <= j < i && #[trigger] entries[j].0 == key;
        lemma_first_member(entries, key, j);
    } else {
        assert(0 <= i < entries.len() && entries[i].0 == key && forall|j: int|
            0 <= j < i ==> entries[j].0 != key);
    }
}

/// `member_index` is the position of the first member with the key.
pub proof fn lemma_member_index_first(
    entries: Seq<(Seq<char>, JsonView)>,
    key: Seq<char>,
    i: int,
)
    requires
        -1 <= i < entries.len(),
        i >= 0 ==> entries[i].0 == key,
        forall|j: int| 0 <= j < entries.len() && (i < 0 || j < i) ==> entries[j].0 != key,
    ensures
        member_index(entries, key) == i,
{
    if i >= 0 {
        let c = member_index(entries, key);
        assert(0 <= c < entries.len() && entries[c].0 == key && forall|j: int|
            0 <= j < c ==> entries[j].0 != key);
        if c < i {
        } else if c > i {
            assert(entries[i].0 != key);
        }
    }
}

/// The view of an object lists its members' keys and views in order.
pub proof fn lemma_object_view(v: &JsonValue)
    requires
        v is Object,
    ensures
        v@ is Object,
        v@->Object_0.len() == v->Object_0@.len(),
        forall|i: int|
            0 <= i < v->Object_0@.len() ==> #[trigger] v@->Object_0[i] == (
                v->Object_0@[i].key@,
                v->Object_0@[i].value@,
            ),
{
}

/// The view of an array lists its elements' views in order.
pub proof fn lemma_array_view(v: &JsonValue)
    requires
        v is Array,
    ensures
        v@ is Array,
        v@->Array_0.len() == v->Array_0@.len(),
        forall|i: int|
            0 <= i < v->Array_0@.len() ==> #[trigger] v@->Array_0[i] == v->Array_0@[i]@,
{
}

impl JsonValue {
    /// The value of member `key` when this is an object that has one.
    pub fn get_member(&self, key: &String) -> (r: Option<&JsonValue>)
        ensures
            match r {
                Some(v) => member(self@, key@) == Some(v@),
                None => member(self@, key@) is None,
            },
    {
        match self {
            JsonValue::Object(entries) => {
                let found = find_member(entries, key);
                let ghost ev = self@->Object_0;
                proof {
                    assert(ev.len() == entries.len());
                    match found {
                        Some(i) => {
                            lemma_member_index_first(ev, key@, i as int);
                        },
                        None => {
                            lemma_member_index_first(ev, key@, -1);
                        },
                    }
                }
                match found {
                    Some(i) => Some(&entries[i].value),
                    None => None,
                }
            },
            _ => None,
        }
    }

    /// The element at `index` when this is an array that long.
    pub fn get_element(&self, index: usize) -> (r: Option<&JsonValue>)
        ensures
            match r {
                Some(v) => element(self@, index as int) == Some(v@),
                None => element(self@, index as int) is None,
            },
    {
        match self {
            JsonValue::Array(items) => {
                if index < items.len() {
                    Some(&items[index])
                } else {
                    None
                }
            },
            _ => None,
        }
    }
}

/// Is `t` the text of a floating-point zero?
fn number_is_float_zero(t: &String) -> (r: bool)
    ensures
        r == is_float_zero(t@),
{
    let cs = crate::text::chars_of(t.as_str());
    let pos = cs.len() == 3 && cs[0] == '0' && cs[1] == '.' && cs[2] == '0';
    let neg = cs.len() == 4 && cs[0] == '-' && cs[1] == '0' && cs[2] == '.' && cs[3] == '0';
    proof {
        if pos {
            assert(cs@ =~= "0.0"@) by {
                reveal_strlit("0.0");
            }
        }
        if neg {
            assert(cs@ =~= "-0.0"@) by {
                reveal_strlit("-0.0");
            }
        }
        reveal_strlit("0.0");
        reveal_strlit("-0.0");
    }
    pos || neg
}

/// Value equality, as serde_json's `==` on its values decides it.
pub fn values_equal(a: &JsonValue, b: &JsonValue) -> (r: bool)
    ensures
        r == same_value(a@, b@),
    decreases a,
{
    match (a, b) {
        (JsonValue::Null, JsonValue::Null) => true,
        (JsonValue::Bool(x), JsonValue::Bool(y)) => *x == *y,
        (JsonValue::Number(x), JsonValue::Number(y)) => {
            x.text == y.text || (number_is_float_zero(&x.text) && number_is_float_zero(&y.text))
        },
        (JsonValue::Str(x), JsonValue::Str(y)) => *x == *y,
        (JsonValue::Array(xs), JsonValue::Array(ys)) => {
            if xs.len() != ys.len() {
                return false;
            }
            let mut i: usize = 0;
            while i < xs.len()
                invariant
                    *a == JsonValue::Array(*xs),
                    *b == JsonValue::Array(*ys),
                    i <= xs.len() == ys.len(),
                    forall|j: int| 0 <= j < i ==> same_value(xs@[j]@, ys@[j]@),
                decreases xs.len() - i,
            {
                proof {
                    assert(decreases_to!(a => a->Array_0));
                    assert(decreases_to!(a->Array_0 => (a->Array_0)@));
                    assert(decreases_to!((a->Array_0)@ => (a->Array_0)@[i as int]));
                }
                if !values_equal(&xs[i], &ys[i]) {
                    assert(!same_value(a@, b@)) by {
                        assert(a@->Array_0[i as int] == xs@[i as int]@);
                        assert(b@->Array_0[i as int] == ys@[i as int]@);
                    }
                    return false;
                }
                i += 1;
            }
            assert(same_value(a@, b@)) by {
                assert forall|j: int| 0 <= j < xs.len() implies same_value(
                    a@->Array_0[j],
                    #[trigger] b@->Array_0[j],
                ) by {
                    assert(a@->Array_0[j] == xs@[j]@);
                    assert(b@->Array_0[j] == ys@[j]@);
                }
            }
            true
        },
        (JsonValue::Object(xs), JsonValue::Object(ys)) => {
            if xs.len() != ys.len() {
                return false;
            }
            let mut i: usize = 0;
            while i < xs.len()
                invariant
                    *a == JsonValue::Object(*xs),
                    *b == JsonValue::Object(*ys),
                    i <= xs.len() == ys.len(),
                    forall|j: int|
                        0 <= j < i ==> xs@[j].key@ == ys@[j].key@ && same_value(xs@[j].value@, ys@[j].value@),
                decreases xs.len() - i,
            {
                proof {
                    assert(decreases_to!(a => a->Object_0));
                    assert(decreases_to!(a->Object_0 => (a->Object_0)@));
                    assert(decreases_to!((a->Object_0)@ => (a->Object_0)@[i as int]));
                    assert(decreases_to!((a->Object_0)@[i as int] => (a->Object_0)@[i as int].value));
                }
                if xs[i].key != ys[i].key || !values_equal(&xs[i].value, &ys[i].value) {
                    assert(!same_value(a@, b@)) by {
                        lemma_object_view(a);
                        lemma_object_view(b);
                        assert(a@->Object_0[i as int] == (xs@[i as int].key@, xs@[i as int].value@));
                        assert(b@->Object_0[i as int] == (ys@[i as int].key@, ys@[i as int].value@));
                        assert(a@->Object_0[i as int].0 != b@->Object_0[i as int].0 || !same_value(
                            a@->Object_0[i as int].1,
                            b@->Object_0[i as int].1,
                        ));
                        if same_value(a@, b@) {
                            assert(a@->Object_0[i as int].0 == b@->Object_0[i as int].0);
                            assert(same_value(a@->Object_0[i as int].1, b@->Object_0[i as int].1));
                        }
                    }
                    return false;
                }
                i += 1;
            }
            assert(same_value(a@, b@)) by {
                assert forall|j: int| 0 <= j < xs.len() implies a@->Object_0[j].0
                    == #[trigger] b@->Object_0[j].0 && same_value(
                    a@->Object_0[j].1,
                    b@->Object_0[j].1,
                ) by {
                    assert(a@->Object_0[j] == (xs@[j].key@, xs@[j].value@));
                    assert(b@->Object_0[j] == (ys@[j].key@, ys@[j].value@));
                }
            }
            true
        },
        _ => false,
    }
}

/// Every value equals itself.
pub proof fn lemma_same_value_reflexive(v: JsonView)
    ensures
        same_value(v, v),
    decreases v,
{
    match v {
        JsonView::Array(xs) => {
            assert forall|i: int| 0 <= i < xs.len() implies same_value(xs[i], #[trigger] xs[i]) by {
                assert(decreases_to!(v => v->Array_0));
                assert(decreases_to!(v->Array_0 => v->Array_0[i]));
                lemma_same_value_reflexive(xs[i]);
            }
        },
        JsonView::Object(es) => {
            assert forall|i: int| 0 <= i < es.len() implies same_value(#[trigger] es[i].1, es[i].1) by {
                assert(decreases_to!(v => v->Object_0));
                assert(decreases_to!(v->Object_0 => v->Object_0[i]));
                assert(decreases_to!(v->Object_0[i] => v->Object_0[i].1));
                lemma_same_value_reflexive(es[i].1);
            }
        },
        _ => {},
    }
}

/// Value equality does not depend on the order of its arguments.
pub proof fn lemma_same_value_symmetric(a: JsonView, b: JsonView)
    requires
        same_value(a, b),
    ensures
        same_value(b, a),
    decreases a,
{
    match (a, b) {
        (JsonView::Array(xs), JsonView::Array(ys)) => {
            assert forall|i: int| 0 <= i < ys.len() implies same_value(ys[i], #[trigger] xs[i]) by {
                let y = ys[i];
                assert(same_value(xs[i], y));
                assert(decreases_to!(a => a->Array_0));
                assert(decreases_to!(a->Array_0 => a->Array_0[i]));
                lemma_same_value_symmetric(xs[i], ys[i]);
            }
        },
        (JsonView::Object(xs), JsonView::Object(ys)) => {
            assert forall|i: int| 0 <= i < ys.len() implies same_value(#[trigger] ys[i].1, xs[i].1) by {
                let k = ys[i].0;
                assert(xs[i].0 == k);
                assert(same_value(xs[i].1, ys[i].1));
                assert(decreases_to!(a => a->Object_0));
                assert(decreases_to!(a->Object_0 => a->Object_0[i]));
                assert(decreases_to!(a->Object_0[i] => a->Object_0[i].1));
                lemma_same_value_symmetric(xs[i].1, ys[i].1);
            }
            assert forall|i: int| 0 <= i < ys.len() implies ys[i].0 == #[trigger] xs[i].0 by {
                let k = ys[i].0;
                assert(xs[i].0 == k);
            }
        },
        _ => {},
    }
}

/// Values equal to a common value are equal.
pub proof fn lemma_same_value_transitive(a: JsonView, b: JsonView, c: JsonView)
    requires
        same_value(a, b),
        same_value(b, c),
    ensures
        same_value(a, c),
    decreases a,
{
    match (a, b, c) {
        (JsonView::Array(xs), JsonView::Array(ys), JsonView::Array(zs)) => {
            assert forall|i: int| 0 <= i < xs.len() implies same_value(xs[i], #[trigger] zs[i]) by {
                let y = ys[i];
                let z = zs[i];
                assert(same_value(xs[i], y));
                assert(same_value(y, z));
                assert(decreases_to!(a => a->Array_0));
                assert(decreases_to!(a->Array_0 => a->Array_0[i]));
                lemma_same_value_transitive(xs[i], ys[i], zs[i]);
            }
        },
        (JsonView::Object(xs), JsonView::Object(ys), JsonView::Object(zs)) => {
            assert forall|i: int| 0 <= i < xs.len() implies same_value(#[trigger] xs[i].1, zs[i].1) by {
                let k = ys[i].0;
                let m = zs[i].0;
                assert(xs[i].0 == k);
                assert(ys[i].0 == m);
                assert(same_value(xs[i].1, ys[i].1));
                assert(same_value(ys[i].1, zs[i].1));
                assert(decreases_to!(a => a->Object_0));
                assert(decreases_to!(a->Object_0 => a->Object_0[i]));
                assert(decreases_to!(a->Object_0[i] => a->Object_0[i].1));
                lemma_same_value_transitive(xs[i].1, ys[i].1, zs[i].1);
            }
            assert forall|i: int| 0 <= i < xs.len() implies xs[i].0 == #[trigger] zs[i].0 by {
                let k = ys[i].0;
                let m = zs[i].0;
                assert(xs[i].0 == k);
                assert(ys[i].0 == m);
            }
        },
        _ => {},
    }
}

/// The number of direct parts of a value: elements of an array, members of an object.
pub open spec fn width(v: JsonView) -> nat {
    match v {
        JsonView::Array(xs) => xs.len(),
        JsonView::Object(es) => es.len(),
        _ => 0,
    }
}

/// The `i`-th direct part of a value: an array element or an object member's value.
pub open spec fn child(v: JsonView, i: int) -> JsonView {
    match v {
        JsonView::Array(xs) => xs[i],
        JsonView::Object(es) => es[i].1,
        _ => JsonView::Null,
    }
}

/// The number of values in a JSON value, itself included.
pub open spec fn json_size(v: JsonView) -> nat
    decreases v, width(v) + 1,
{
    1 + children_size(v, 0)
}

/// The number of values in the direct parts of `v` from the `i`-th on.
pub open spec fn children_size(v: JsonView, i: int) -> nat
    decreases v, width(v) - i,
{
    match v {
        JsonView::Array(xs) => if 0 <= i < xs.len() {
            json_size(xs[i]) + children_size(v, i + 1)
        } else {
            0
        },
        JsonView::Object(es) => if 0 <= i < es.len() {
            json_size(es[i].1) + children_size(v, i + 1)
        } else {
            0
        },
        _ => 0,
    }
}

/// Each part from the `i`-th on counts toward `children_size(v, i)`.
pub proof fn lemma_children_size(v: JsonView, i: int, j: int)
    requires
        0 <= i <= j < width(v),
    ensures
        json_size(child(v, j)) <= children_size(v, i),
        children_size(v, i) == json_size(child(v, i)) + children_size(v, i + 1),
    decreases j - i,
{
    if i < j {
        lemma_children_size(v, i + 1, j);
    }
}

/// Counting from an earlier part counts at least as many values.
pub proof fn lemma_children_size_mono(v: JsonView, i: int, j: int)
    requires
        0 <= i <= j,
    ensures
        children_size(v, j) <= children_size(v, i),
    decreases j - i,
{
    if i < j {
        lemma_children_size_mono(v, i + 1, j);
    }
}

/// The number of values in `v`, or `None` when it exceeds `usize::MAX`.
pub fn node_count(v: &JsonValue) -> (r: Option<usize>)
    ensures
        match r {
            Some(n) => n == json_size(v@),
            None => json_size(v@) > usize::MAX,
        },
    decreases v,
{
    match v {
        JsonValue::Array(items) => {
            proof {
                lemma_array_view(v);
            }
            let mut total: usize = 1;
            let mut i: usize = items.len();
            // Sum from the last element down, following `children_size`.
            while i > 0
                invariant
                    *v == JsonValue::Array(*items),
                    i <= items.len(),
                    v@->Array_0.len() == items@.len(),
                    forall|k: int| 0 <= k < items@.len() ==> v@->Array_0[k] == items@[k]@,
                    total == 1 + children_size(v@, i as int),
                decreases i,
            {
                i -= 1;
                proof {
                    assert(decreases_to!(v => v->Array_0));
                    assert(decreases_to!(v->Array_0 => (v->Array_0)@));
                    assert(decreases_to!((v->Array_0)@ => (v->Array_0)@[i as int]));
                }
                match node_count(&items[i]) {
                    Some(n) => {
                        match total.checked_add(n) {
                            Some(t) => {
                                total = t;
                            },
                            None => {
                                proof {
                                    lemma_children_size_mono(v@, 0, i as int);
                                }
                                return None;
                            },
                        }
                    },
                    None => {
                        proof {
                            lemma_children_size(v@, 0, i as int);
                        }
                        return None;
                    },
                }
            }
            Some(total)
        },
        JsonValue::Object(entries) => {
            proof {
                lemma_object_view(v);
            }
            let mut total: usize = 1;
            let mut i: usize = entries.len();
            while i > 0
                invariant
                    *v == JsonValue::Object(*entries),
                    i <= entries.len(),
                    v@->Object_0.len() == entries@.len(),
                    forall|k: int|
                        0 <= k < entries@.len() ==> v@->Object_0[k] == (
                            entries@[k].key@,
                            entries@[k].value@,
                        ),
                    total == 1 + children_size(v@, i as int),
                decreases i,
            {
                i -= 1;
                proof {
                    assert(decreases_to!(v => v->Object_0));
                    assert(decreases_to!(v->Object_0 => (v->Object_0)@));
                    assert(decreases_to!((v->Object_0)@ => (v->Object_0)@[i as int]));
                    assert(decreases_to!((v->Object_0)@[i as int] => (v->Object_0)@[i as int].value));
                }
                match node_count(&entries[i].value) {
                    Some(n) => {
                        match total.checked_add(n) {
                            Some(t) => {
                                total = t;
                            },
                            None => {
                                proof {
                                    lemma_children_size_mono(v@, 0, i as int);
                                }
                                return None;
                            },
                        }
                    },
                    None => {
                        proof {
                            lemma_children_size(v@, 0, i as int);
                        }
                        return None;
                    },
                }
            }
            Some(total)
        },
        _ => Some(1),
    }
}

impl JsonValue {
    /// A copy of the value.
    pub fn copy(&self) -> (r: JsonValue)
        ensures
            r@ == self@,
        decreases self,
    {
        match self {
            JsonValue::Null => JsonValue::Null,
            JsonValue::Bool(b) => JsonValue::Bool(*b),
            JsonValue::Number(n) => JsonValue::Number(JsonNumber { text: n.text.clone() }),
            JsonValue::Str(s) => JsonValue::Str(s.clone()),
            JsonValue::Array(items) => {
                proof {
                    lemma_array_view(self);
                }
                let mut out: Vec<JsonValue> = Vec::new();
                let mut i: usize = 0;
                while i < items.len()
                    invariant
                        *self == JsonValue::Array(*items),
                        i <= items.len(),
                        out@.len() == i,
                        forall|k: int| 0 <= k < i ==> #[trigger] out@[k]@ == items@[k]@,
                    decreases items.len() - i,
                {
                    proof {
                        assert(decreases_to!(self => self->Array_0));
                        assert(decreases_to!(self->Array_0 => (self->Array_0)@));
                        assert(decreases_to!((self->Array_0)@ => (self->Array_0)@[i as int]));
                    }
                    out.push(items[i].copy());
                    i += 1;
                }
                let r = JsonValue::Array(out);
                proof {
                    lemma_array_view(&r);
                    assert(r@->Array_0 =~= self@->Array_0);
                }
                r
            },
            JsonValue::Object(entries) => {
                proof {
                    lemma_object_view(self);
                }
                let mut out: Vec<Member> = Vec::new();
                let mut i: usize = 0;
                while i < entries.len()
                    invariant
                        *self == JsonValue::Object(*entries),
                        i <= entries.len(),
                        out@.len() == i,
                        forall|k: int|
                            0 <= k < i ==> #[trigger] out@[k].key@ == entries@[k].key@
                                && out@[k].value@ == entries@[k].value@,
                    decreases entries.len() - i,
                {
                    proof {
                        assert(decreases_to!(self => self->Object_0));
                        assert(decreases_to!(self->Object_0 => (self->Object_0)@));
                        assert(decreases_to!((self->Object_0)@ => (self->Object_0)@[i as int]));
                        assert(decreases_to!((self->Object_0)@[i as int] => (self->Object_0)@[i as int].value));
                    }
                    out.push(Member { key: entries[i].key.clone(), value: entries[i].value.copy() });
                    i += 1;
                }
                let r = JsonValue::Object(out);
                proof {
                    lemma_object_view(&r);
                    assert(r@->Object_0 =~= self@->Object_0);
                }
                r
            },
        }
    }
}

// ----------------------------------------------------------------------------
// serde_json's values
// ----------------------------------------------------------------------------
#[verifier::external_type_specification]
#[verifier::external_body]
pub struct ExSerdeJsonValue(serde_json::Value);

/// Builds the library's value from a `serde_json::Value`, variant by variant;
/// numbers keep serde_json's printed text and object members keep its map's order.
#[verifier::external_body]
pub(crate) fn from_serde(v: &serde_json::Value) -> JsonValue {
    match v {
        serde_json::Value::Null => JsonValue::Null,
        serde_json::Value::Bool(b) => JsonValue::Bool(*b),
        serde_json::Value::Number(n) => JsonValue::Number(JsonNumber { text: n.to_string() }),
        serde_json::Value::String(s) => JsonValue::Str(s.clone()),
        serde_json::Value::Array(a) => JsonValue::Array(a.iter().map(from_serde).collect()),
        serde_json::Value::Object(m) => JsonValue::Object(
            m.iter().map(|(k, x)| Member { key: k.clone(), value: from_serde(x) }).collect(),
        ),
    }
}

/// Builds a `serde_json::Value` from the library's value, variant by variant; a
/// number is read back from its text.
#[verifier::external_body]
pub(crate) fn to_serde(v: &JsonValue) -> serde_json::Value {
    match v {
        JsonValue::Null => serde_json::Value::Null,
        JsonValue::Bool(b) => serde_json::Value::Bool(*b),
        JsonValue::Number(n) => n.text.parse().map_or(serde_json::Value::Null, serde_json::Value::Number),
        JsonValue::Str(s) => serde_json::Value::String(s.clone()),
        JsonValue::Array(a) => serde_json::Value::Array(a.iter().map(to_serde).collect()),
        JsonValue::Object(m) => serde_json::Value::Object(
            m.iter().map(|e| (e.key.clone(), to_serde(&e.value))).collect(),
        ),
    }
}

/// The compact JSON text that serde_json prints for a value (`Value::to_string`).
pub uninterp spec fn serde_json_text(v: JsonView) -> Seq<char>;

/// `serde_json::Value::to_string`: the compact JSON text of the value. It is the
/// name `serde_json_text` of the value; for `null`, booleans and numbers the text is
/// `null`, `true`, `false` and the number's own text. How strings are escaped and
/// how arrays and objects are laid out is not stated.
#[verifier::external_body]
fn compact_json_text(v: &JsonValue) -> (s: String)
    ensures
        s@ == serde_json_text(v@),
        v@ is Null ==> s@ == "null"@,
        v@ == JsonView::Bool(true) ==> s@ == "true"@,
        v@ == JsonView::Bool(false) ==> s@ == "false"@,
        v@ is Number ==> s@ == v@->Number_0,
{
    to_serde(v).to_string()
}

/// The text of a value in messages: a string's own characters, any other value's
/// compact JSON text.
pub open spec fn value_text(v: JsonView) -> Seq<char> {
    match v {
        JsonView::Str(s) => s,
        _ => serde_json_text(v),
    }
}

/// The text of a value in messages.
pub fn value_to_string(value: &JsonValue) -> (s: String)
    ensures
        s@ == value_text(value@),
        value@ is Null ==> s@ == "null"@,
        value@ == JsonView::Bool(true) ==> s@ == "true"@,
        value@ == JsonView::Bool(false) ==> s@ == "false"@,
        value@ is Number ==> s@ == value@->Number_0,
{
    match value {
        JsonValue::Str(s) => s.clone(),
        _ => compact_json_text(value),
    }
}

} // verus!
