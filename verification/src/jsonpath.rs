//! A small JSONPath dialect: `field`, `.field`, `[*]` and `[n]`, chained.
use vstd::prelude::*;

use crate::json::{element_path, member_path};
use crate::text::{chars_of, decimal, digit_char};
use crate::value::{element, lemma_member_index_key, member, member_index, JsonValue, JsonView};
use crate::walk::{index_path, key_path};

verus! {

/// One step of a path.
#[derive(Debug, Clone, PartialEq)]
pub enum Segment {
    /// Access a field by name: `.foo`
    Field(String),
    /// Access all array elements: `[*]`
    Wildcard,
    /// Access a specific index: `[0]`
    Index(usize),
}

/// The view of a step.
pub enum SegmentView {
    Field(Seq<char>),
    Wildcard,
    Index(nat),
}

impl View for Segment {
    type V = SegmentView;

    open spec fn view(&self) -> SegmentView {
        match self {
            Segment::Field(name) => SegmentView::Field(name@),
            Segment::Wildcard => SegmentView::Wildcard,
            Segment::Index(i) => SegmentView::Index(*i as nat),
        }
    }
}

/// A parsed JSONPath expression
#[derive(Debug, Clone, PartialEq)]
pub struct JsonPath {
    segments: Vec<Segment>,
}

impl View for JsonPath {
    type V = Seq<SegmentView>;

    closed spec fn view(&self) -> Seq<SegmentView> {
        self.segments@.map_values(|s: Segment| s@)
    }
}

/// Why a path does not parse.
#[derive(Debug)]
pub enum JsonPathError {
    UnexpectedChar(char),
    EmptyField,
    InvalidBracket(String),
}

/// The view of a path error.
pub enum JsonPathErrorView {
    UnexpectedChar(char),
    EmptyField,
    InvalidBracket(Seq<char>),
}

impl View for JsonPathError {
    type V = JsonPathErrorView;

    open spec fn view(&self) -> JsonPathErrorView {
        match self {
            JsonPathError::UnexpectedChar(c) => JsonPathErrorView::UnexpectedChar(*c),
            JsonPathError::EmptyField => JsonPathErrorView::EmptyField,
            JsonPathError::InvalidBracket(s) => JsonPathErrorView::InvalidBracket(s@),
        }
    }
}

/// The message of a path error.
pub open spec fn path_error_text(e: JsonPathErrorView) -> Seq<char> {
    match e {
        JsonPathErrorView::UnexpectedChar(c) => "unexpected character: "@.push(c),
        JsonPathErrorView::EmptyField => "empty field name"@,
        JsonPathErrorView::InvalidBracket(s) => "invalid bracket content: "@ + s,
    }
}

impl JsonPathError {
    /// The error's message.
    pub fn message(&self) -> (m: String)
        ensures
            m@ == path_error_text(self@),
    {
        match self {
            JsonPathError::UnexpectedChar(c) => {
                let mut m = crate::text::string_of("unexpected character: ");
                m.push(*c);
                m
            },
            JsonPathError::EmptyField => crate::text::string_of("empty field name"),
            JsonPathError::InvalidBracket(s) => {
                let mut m = crate::text::string_of("invalid bracket content: ");
                m.append(s.as_str());
                m
            },
        }
    }
}

// ----------------------------------------------------------------------------
// Parsing
// ----------------------------------------------------------------------------
/// The end of a field name starting at `i`: the first `.` or `[` or the end.
pub open spec fn field_end(cs: Seq<char>, i: int) -> int
    decreases cs.len() - i,
{
    if 0 <= i < cs.len() && cs[i] != '.' && cs[i] != '[' {
        field_end(cs, i + 1)
    } else {
        i
    }
}

/// The position of the `]` closing a bracket whose content starts at `i`, or the end.
pub open spec fn bracket_close(cs: Seq<char>, i: int) -> int
    decreases cs.len() - i,
{
    if 0 <= i < cs.len() && cs[i] != ']' {
        bracket_close(cs, i + 1)
    } else {
        i
    }
}

pub proof fn lemma_field_end(cs: Seq<char>, i: int)
    requires
        0 <= i <= cs.len(),
    ensures
        i <= field_end(cs, i) <= cs.len(),
        forall|k: int| i <= k < field_end(cs, i) ==> cs[k] != '.' && cs[k] != '[',
        field_end(cs, i) < cs.len() ==> cs[field_end(cs, i)] == '.' || cs[field_end(cs, i)]
            == '[',
    decreases cs.len() - i,
{
    if i < cs.len() && cs[i] != '.' && cs[i] != '[' {
        lemma_field_end(cs, i + 1);
    }
}

pub proof fn lemma_bracket_close(cs: Seq<char>, i: int)
    requires
        0 <= i <= cs.len(),
    ensures
        i <= bracket_close(cs, i) <= cs.len(),
        forall|k: int| i <= k < bracket_close(cs, i) ==> cs[k] != ']',
        bracket_close(cs, i) < cs.len() ==> cs[bracket_close(cs, i)] == ']',
    decreases cs.len() - i,
{
    if i < cs.len() && cs[i] != ']' {
        lemma_bracket_close(cs, i + 1);
    }
}

/// Is `c` an ASCII decimal digit?
pub open spec fn is_digit(c: char) -> bool {
    '0' <= c <= '9'
}

/// The number a sequence of decimal digits denotes.
pub open spec fn digits_value(ds: Seq<char>) -> nat
    decreases ds.len(),
{
    if ds.len() == 0 {
        0
    } else {
        digits_value(ds.drop_last()) * 10 + ((ds.last() as int - '0' as int) as nat)
    }
}

/// The text after an optional leading `+`.
pub open spec fn unsigned_part(cs: Seq<char>) -> Seq<char> {
    if cs.len() > 0 && cs[0] == '+' {
        cs.drop_first()
    } else {
        cs
    }
}

/// Every character is a decimal digit.
pub open spec fn all_digits(ds: Seq<char>) -> bool {
    forall|k: int| 0 <= k < ds.len() ==> is_digit(#[trigger] ds[k])
}

/// `str::parse::<usize>`: an optional `+`, then one or more decimal digits whose
/// value fits in a `usize`.
pub open spec fn parse_usize_spec(cs: Seq<char>) -> Option<nat> {
    let ds = unsigned_part(cs);
    if ds.len() > 0 && all_digits(ds) && digits_value(ds) <= usize::MAX {
        Some(digits_value(ds))
    } else {
        None
    }
}

/// The step that bracket content denotes.
pub open spec fn bracket_segment(content: Seq<char>) -> Result<SegmentView, JsonPathErrorView> {
    if content == seq!['*'] {
        Ok(SegmentView::Wildcard)
    } else {
        match parse_usize_spec(content) {
            Some(n) => Ok(SegmentView::Index(n)),
            None => Err(JsonPathErrorView::InvalidBracket(content)),
        }
    }
}

/// Parses the rest of a path from `i`, after the steps `segs`.
pub open spec fn parse_path_from(cs: Seq<char>, i: int, segs: Seq<SegmentView>) -> Result<
    Seq<SegmentView>,
    JsonPathErrorView,
>
    decreases cs.len() - i,
{
    if i < 0 || i >= cs.len() {
        Ok(segs)
    } else if cs[i] == '.' {
        let j = field_end(cs, i + 1);
        proof {
            lemma_field_end(cs, i + 1);
        }
        if j <= i + 1 {
            Err(JsonPathErrorView::EmptyField)
        } else {
            parse_path_from(cs, j, segs.push(SegmentView::Field(cs.subrange(i + 1, j))))
        }
    } else if cs[i] == '[' {
        let j = bracket_close(cs, i + 1);
        proof {
            lemma_bracket_close(cs, i + 1);
        }
        match bracket_segment(cs.subrange(i + 1, j)) {
            Ok(seg) => parse_path_from(
                cs,
                if j < cs.len() {
                    j + 1
                } else {
                    j
                },
                segs.push(seg),
            ),
            Err(e) => Err(e),
        }
    } else if segs.len() == 0 {
        let j = field_end(cs, i);
        proof {
            lemma_field_end(cs, i);
        }
        if j <= i {
            Err(JsonPathErrorView::EmptyField)
        } else {
            parse_path_from(cs, j, segs.push(SegmentView::Field(cs.subrange(i, j))))
        }
    } else {
        Err(JsonPathErrorView::UnexpectedChar(cs[i]))
    }
}

/// Parses a path.
pub open spec fn parse_path(text: Seq<char>) -> Result<Seq<SegmentView>, JsonPathErrorView> {
    parse_path_from(text, 0, seq![])
}

/// Reads the decimal number in `cs[from..to]` as `str::parse::<usize>` does.
pub(crate) fn parse_usize(cs: &Vec<char>, from: usize, to: usize) -> (r: Option<usize>)
    requires
        from <= to <= cs.len(),
    ensures
        match r {
            Some(n) => parse_usize_spec(cs@.subrange(from as int, to as int)) == Some(n as nat),
            None => parse_usize_spec(cs@.subrange(from as int, to as int)) is None,
        },
{
    let ghost content = cs@.subrange(from as int, to as int);
    let mut start = from;
    if start < to && cs[start] == '+' {
        start += 1;
    }
    let ghost ds = cs@.subrange(start as int, to as int);
    assert(ds == unsigned_part(content));
    if start == to {
        assert(ds.len() == 0);
        return None;
    }
    let mut acc: usize = 0;
    let mut k = start;
    let mut overflow = false;
    while k < to
        invariant
            start <= k <= to <= cs.len(),
            ds == cs@.subrange(start as int, to as int),
            content == cs@.subrange(from as int, to as int),
            ds == unsigned_part(content),
            forall|m: int| start <= m < k ==> is_digit(#[trigger] cs@[m]),
            !overflow ==> acc == digits_value(cs@.subrange(start as int, k as int)),
            overflow ==> digits_value(cs@.subrange(start as int, k as int)) > usize::MAX,
        decreases to - k,
    {
        let c = cs[k];
        if !('0' <= c && c <= '9') {
            assert(ds[k - start] == c);
            assert(!is_digit(ds[k - start]));
            assert(!all_digits(ds));
            assert(parse_usize_spec(content) is None);
            return None;
        }
        let d = (c as u32 - '0' as u32) as usize;
        let ghost prefix = cs@.subrange(start as int, k + 1);
        assert(prefix.drop_last() == cs@.subrange(start as int, k as int));
        assert(prefix.last() == c);
        if !overflow {
            match acc.checked_mul(10) {
                Some(t) => match t.checked_add(d) {
                    Some(u) => {
                        acc = u;
                    },
                    None => {
                        overflow = true;
                    },
                },
                None => {
                    overflow = true;
                },
            }
        }
        k += 1;
    }
    proof {
        assert(cs@.subrange(start as int, k as int) == ds);
        assert forall|m: int| 0 <= m < ds.len() implies is_digit(#[trigger] ds[m]) by {
            assert(ds[m] == cs@[start + m]);
        }
        assert(all_digits(ds));
    }
    if overflow {
        None
    } else {
        Some(acc)
    }
}

impl JsonPath {
    /// Parse a JSONPath string like "nodes[*].name"
    pub fn parse(path: &str) -> (r: Result<JsonPath, JsonPathError>)
        ensures
            match r {
                Ok(p) => parse_path(path@) == Ok::<Seq<SegmentView>, JsonPathErrorView>(p@),
                Err(e) => parse_path(path@) == Err::<Seq<SegmentView>, JsonPathErrorView>(e@),
            },
    {
        let cs = chars_of(path);
        let mut segments: Vec<Segment> = Vec::new();
        let mut i: usize = 0;
        assert(segments@.map_values(|s: Segment| s@) =~= Seq::<SegmentView>::empty());
        while i < cs.len()
            invariant
                cs@ == path@,
                i <= cs.len(),
                parse_path_from(cs@, i as int, segments@.map_values(|s: Segment| s@)) == parse_path(
                    path@,
                ),
            decreases cs.len() - i,
        {
            let ghost segs = segments@.map_values(|s: Segment| s@);
            let c = cs[i];
            if c == '.' {
                let (field, j) = Self::parse_field(&cs, i + 1);
                proof {
                    lemma_field_end(cs@, i + 1);
                }
                if j == i + 1 {
                    return Err(JsonPathError::EmptyField);
                }
                segments.push(Segment::Field(field));
                assert(segments@.map_values(|s: Segment| s@) == segs.push(
                    SegmentView::Field(cs@.subrange(i + 1, j as int)),
                ));
                i = j;
            } else if c == '[' {
                let (seg, j) = Self::parse_bracket(&cs, i + 1);
                match seg {
                    Ok(seg) => {
                        segments.push(seg);
                        assert(segments@.map_values(|s: Segment| s@) == segs.push(seg@));
                        i = j;
                    },
                    Err(e) => {
                        return Err(e);
                    },
                }
            } else if segments.len() == 0 {
                let (field, j) = Self::parse_field(&cs, i);
                assert(j > i) by {
                    lemma_field_end(cs@, i + 1);
                }
                segments.push(Segment::Field(field));
                assert(segments@.map_values(|s: Segment| s@) == segs.push(
                    SegmentView::Field(cs@.subrange(i as int, j as int)),
                ));
                i = j;
            } else {
                return Err(JsonPathError::UnexpectedChar(c));
            }
        }
        let p = JsonPath { segments };
        assert(p@ == segments@.map_values(|s: Segment| s@));
        Ok(p)
    }

    /// The field name starting at `from`, and where it ends.
    fn parse_field(cs: &Vec<char>, from: usize) -> (r: (String, usize))
        requires
            from <= cs.len(),
        ensures
            r.1 == field_end(cs@, from as int),
            r.0@ == cs@.subrange(from as int, r.1 as int),
            r.1 <= cs.len(),
    {
        proof {
            lemma_field_end(cs@, from as int);
        }
        let mut j = from;
        while j < cs.len() && cs[j] != '.' && cs[j] != '['
            invariant
                from <= j <= cs.len(),
                field_end(cs@, j as int) == field_end(cs@, from as int),
            decreases cs.len() - j,
        {
            j += 1;
        }
        let mut field = String::new();
        crate::text::push_chars(&mut field, cs, from, j);
        (field, j)
    }

    /// The step of bracket content starting at `from`, and where the bracket ends.
    fn parse_bracket(cs: &Vec<char>, from: usize) -> (r: (Result<Segment, JsonPathError>, usize))
        requires
            from <= cs.len(),
        ensures
            from <= r.1 <= cs.len(),
            ({
                let j = bracket_close(cs@, from as int);
                &&& r.1 == if j < cs.len() {
                    j + 1
                } else {
                    j
                }
                &&& match r.0 {
                    Ok(s) => bracket_segment(cs@.subrange(from as int, j)) == Ok::<
                        SegmentView,
                        JsonPathErrorView,
                    >(s@),
                    Err(e) => bracket_segment(cs@.subrange(from as int, j)) == Err::<
                        SegmentView,
                        JsonPathErrorView,
                    >(e@),
                }
            }),
    {
        proof {
            lemma_bracket_close(cs@, from as int);
        }
        let mut j = from;
        while j < cs.len() && cs[j] != ']'
            invariant
                from <= j <= cs.len(),
                bracket_close(cs@, j as int) == bracket_close(cs@, from as int),
            decreases cs.len() - j,
        {
            j += 1;
        }
        let next = if j < cs.len() {
            j + 1
        } else {
            j
        };
        let ghost content = cs@.subrange(from as int, j as int);
        if j > from && j - from == 1 && cs[from] == '*' {
            assert(content == seq!['*']);
            return (Ok(Segment::Wildcard), next);
        }
        assert(content != seq!['*']) by {
            if content == seq!['*'] {
                assert(content.len() == 1);
                assert(content[0] == cs@[from as int]);
            }
        }
        match parse_usize(cs, from, j) {
            Some(n) => (Ok(Segment::Index(n)), next),
            None => {
                let mut content_text = String::new();
                crate::text::push_chars(&mut content_text, cs, from, j);
                (Err(JsonPathError::InvalidBracket(content_text)), next)
            },
        }
    }
}

// ----------------------------------------------------------------------------
// Evaluation
// ----------------------------------------------------------------------------
/// A matched value with its path
#[derive(Debug, Clone)]
pub struct PathMatch<'a> {
    pub value: &'a JsonValue,
    pub path: String,
}

impl<'a> View for PathMatch<'a> {
    type V = (JsonView, Seq<char>);

    open spec fn view(&self) -> (JsonView, Seq<char>) {
        (self.value@, self.path@)
    }
}

/// The matches that one step yields from one match.
pub open spec fn step_match(m: (JsonView, Seq<char>), seg: SegmentView) -> Seq<(JsonView, Seq<char>)> {
    match seg {
        SegmentView::Field(name) => match member(m.0, name) {
            Some(v) => seq![(v, key_path(m.1, name))],
            None => seq![],
        },
        SegmentView::Wildcard => match m.0 {
            JsonView::Array(xs) => Seq::new(xs.len(), |i: int| (xs[i], index_path(m.1, i as nat))),
            _ => seq![],
        },
        SegmentView::Index(n) => match element(m.0, n as int) {
            Some(v) => seq![(v, index_path(m.1, n))],
            None => seq![],
        },
    }
}

/// The matches that one step yields from each of `ms`, in order.
pub open spec fn step_all(ms: Seq<(JsonView, Seq<char>)>, seg: SegmentView) -> Seq<
    (JsonView, Seq<char>),
>
    decreases ms.len(),
{
    if ms.len() == 0 {
        seq![]
    } else {
        step_all(ms.drop_last(), seg) + step_match(ms.last(), seg)
    }
}

/// The matches of a path in a value: the value itself at the empty path, then each
/// step applied in turn.
pub open spec fn eval_path(segs: Seq<SegmentView>, v: JsonView) -> Seq<(JsonView, Seq<char>)>
    decreases segs.len(),
{
    if segs.len() == 0 {
        seq![(v, Seq::<char>::empty())]
    } else {
        step_all(eval_path(segs.drop_last(), v), segs.last())
    }
}

/// `p` is the path of a value that some path finds in `data`.
pub open spec fn found_path(data: JsonView, p: Seq<char>) -> bool {
    exists|segs: Seq<SegmentView>, k: int|
        0 <= k < eval_path(segs, data).len() && (#[trigger] eval_path(segs, data)[k]).1 == p
}

/// A step from one match yields what a step from that match alone yields.
pub proof fn lemma_step_all_single(m: (JsonView, Seq<char>), seg: SegmentView)
    ensures
        step_all(seq![m], seg) == step_match(m, seg),
{
    assert(seq![m].drop_last() == Seq::<(JsonView, Seq<char>)>::empty());
    assert(seq![m].last() == m);
    assert(step_all(Seq::<(JsonView, Seq<char>)>::empty(), seg) == Seq::<(JsonView, Seq<char>)>::empty());
    assert(Seq::<(JsonView, Seq<char>)>::empty() + step_match(m, seg) =~= step_match(m, seg));
}

/// The views of a list of matches.
pub open spec fn matches_view<'a>(ms: Seq<PathMatch<'a>>) -> Seq<(JsonView, Seq<char>)> {
    ms.map_values(|m: PathMatch<'a>| m@)
}

impl JsonPath {
    /// The steps of the path.
    pub fn segments(&self) -> (s: &Vec<Segment>)
        ensures
            s@.map_values(|x: Segment| x@) == self@,
    {
        &self.segments
    }

    /// Appends to `out` the matches that `seg` yields from `current`.
    fn step<'a>(seg: &Segment, current: &PathMatch<'a>, out: &mut Vec<PathMatch<'a>>)
        ensures
            matches_view(final(out)@) == matches_view(old(out)@) + step_match(current@, seg@),
    {
        let ghost before = matches_view(out@);
        match seg {
            Segment::Field(name) => {
                match current.value.get_member(name) {
                    Some(v) => {
                        let path = member_path(&current.path, name);
                        out.push(PathMatch { value: v, path });
                        assert(matches_view(out@) == before + step_match(current@, seg@));
                    },
                    None => {
                        assert(matches_view(out@) == before + step_match(current@, seg@));
                    },
                }
            },
            Segment::Wildcard => {
                match current.value {
                    JsonValue::Array(items) => {
                        proof {
                            crate::value::lemma_array_view(current.value);
                        }
                        let ghost xs = current.value@->Array_0;
                        let mut i: usize = 0;
                        while i < items.len()
                            invariant
                                *current.value == JsonValue::Array(*items),
                                xs == current.value@->Array_0,
                                xs.len() == items@.len(),
                                forall|k: int| 0 <= k < items@.len() ==> #[trigger] xs[k] == items@[k]@,
                                i <= items.len(),
                                matches_view(out@) == before + Seq::new(
                                    i as nat,
                                    |k: int| (xs[k], index_path(current.path@, k as nat)),
                                ),
                            decreases items.len() - i,
                        {
                            let path = element_path(&current.path, i);
                            let ghost prev = out@;
                            let m = PathMatch { value: &items[i], path };
                            out.push(m);
                            assert(matches_view(out@) =~= matches_view(prev).push(m@));
                            assert(m@ == (xs[i as int], index_path(current.path@, i as nat)));
                            assert(matches_view(out@) =~= before + Seq::new(
                                (i + 1) as nat,
                                |k: int| (xs[k], index_path(current.path@, k as nat)),
                            ));
                            i += 1;
                        }
                        assert(matches_view(out@) =~= before + step_match(current@, seg@));
                    },
                    _ => {
                        assert(matches_view(out@) =~= before + step_match(current@, seg@));
                    },
                }
            },
            Segment::Index(i) => {
                match current.value.get_element(*i) {
                    Some(v) => {
                        let path = element_path(&current.path, *i);
                        out.push(PathMatch { value: v, path });
                        assert(matches_view(out@) == before + step_match(current@, seg@));
                    },
                    None => {
                        assert(matches_view(out@) == before + step_match(current@, seg@));
                    },
                }
            },
        }
    }

    /// Evaluate this path against a JSON value, returning all matching values
    pub fn evaluate<'a>(&self, value: &'a JsonValue) -> (r: Vec<PathMatch<'a>>)
        ensures
            matches_view(r@) == eval_path(self@, value@),
    {
        let mut results: Vec<PathMatch<'a>> = Vec::new();
        results.push(PathMatch { value, path: String::new() });
        let ghost segs = self@;
        assert(matches_view(results@) =~= eval_path(segs.take(0), value@));
        let mut s: usize = 0;
        while s < self.segments.len()
            invariant
                segs == self@,
                segs == self.segments@.map_values(|x: Segment| x@),
                s <= self.segments.len(),
                matches_view(results@) == eval_path(segs.take(s as int), value@),
            decreases self.segments.len() - s,
        {
            let segment = &self.segments[s];
            let mut next_results: Vec<PathMatch<'a>> = Vec::new();
            let ghost cur = matches_view(results@);
            let mut k: usize = 0;
            assert(matches_view(next_results@) =~= step_all(cur.take(0), segment@));
            while k < results.len()
                invariant
                    cur == matches_view(results@),
                    k <= results.len(),
                    matches_view(next_results@) == step_all(cur.take(k as int), segment@),
                decreases results.len() - k,
            {
                Self::step(segment, &results[k], &mut next_results);
                assert(cur.take(k + 1).drop_last() == cur.take(k as int));
                k += 1;
            }
            assert(cur.take(k as int) == cur);
            assert(segs.take(s + 1).drop_last() == segs.take(s as int));
            results = next_results;
            s += 1;
        }
        assert(segs.take(s as int) == segs);
        results
    }
}

// ----------------------------------------------------------------------------
// The path of a match, read back
// ----------------------------------------------------------------------------
/// The decimal text of a number reads back as that number.
pub proof fn lemma_decimal_digits(n: nat)
    ensures
        decimal(n).len() > 0,
        all_digits(decimal(n)),
        digits_value(decimal(n)) == n,
    decreases n,
{
    if n < 10 {
        assert(digit_char(n) as int == 48 + n);
        assert(decimal(n).drop_last() =~= Seq::<char>::empty());
        assert(digits_value(decimal(n).drop_last()) == 0);
        assert(decimal(n).last() == digit_char(n));
        assert(digits_value(decimal(n)) == (digit_char(n) as int - '0' as int) as nat);
    } else {
        lemma_decimal_digits(n / 10);
        let d = (n % 10) as nat;
        assert(digit_char(d) as int == 48 + d);
        let s = decimal(n / 10);
        assert(decimal(n).drop_last() == s);
        assert(n == (n / 10) * 10 + n % 10) by (nonlinear_arith);
        assert(decimal(n).last() == digit_char(d));
        assert(digits_value(decimal(n)) == digits_value(s) * 10 + ((digit_char(d) as int - '0' as int) as nat));
        assert forall|k: int| 0 <= k < decimal(n).len() implies is_digit(#[trigger] decimal(n)[k]) by {
            if k < s.len() {
                assert(decimal(n)[k] == s[k]);
            }
        }
    }
}

/// The path of the match that following the field and index steps of `r` gives.
pub open spec fn route_path(r: Seq<SegmentView>) -> Seq<char>
    decreases r.len(),
{
    if r.len() == 0 {
        Seq::empty()
    } else {
        match r.last() {
            SegmentView::Field(name) => key_path(route_path(r.drop_last()), name),
            SegmentView::Index(n) => index_path(route_path(r.drop_last()), n),
            SegmentView::Wildcard => route_path(r.drop_last()),
        }
    }
}

/// A field name that a path reads back: not empty, and without `.` or `[`.
pub open spec fn plain_name(name: Seq<char>) -> bool {
    name.len() > 0 && forall|k: int| 0 <= k < name.len() ==> name[k] != '.' && name[k] != '['
}

/// Every field step names a plain field, and every index fits in a `usize`.
pub open spec fn plain_steps(segs: Seq<SegmentView>) -> bool {
    forall|i: int|
        0 <= i < segs.len() ==> match #[trigger] segs[i] {
            SegmentView::Field(name) => plain_name(name),
            SegmentView::Index(n) => n <= usize::MAX,
            SegmentView::Wildcard => true,
        }
}

/// A path of plain field steps and indices that fit in a `usize`.
pub open spec fn plain_route(r: Seq<SegmentView>) -> bool {
    plain_steps(r) && forall|i: int| 0 <= i < r.len() ==> !(#[trigger] r[i] is Wildcard)
}

/// The path of a route with more steps extends the path of the shorter one.
pub proof fn lemma_route_prefix(r: Seq<SegmentView>, j: int, m: int)
    requires
        plain_route(r),
        0 <= j <= m <= r.len(),
    ensures
        route_path(r.take(j)).len() <= route_path(r.take(m)).len(),
        route_path(r.take(m)).take(route_path(r.take(j)).len() as int) == route_path(r.take(j)),
        m > 0 ==> route_path(r.take(m)).len() > 0,
        j < m ==> route_path(r.take(j)).len() < route_path(r.take(m)).len(),
    decreases m - j,
{
    if j < m {
        lemma_route_prefix(r, j, m - 1);
        let a = r.take(m);
        assert(a.drop_last() == r.take(m - 1));
        assert(a.last() == r[m - 1]);
        let p = route_path(r.take(m - 1));
        let n = route_path(r.take(j)).len() as int;
        match r[m - 1] {
            SegmentView::Field(name) => {
                assert(plain_name(name));
                if p.len() == 0 {
                    assert(n == 0);
                } else {
                    assert((p + seq!['.'] + name).take(n) == p.take(n));
                }
            },
            SegmentView::Index(i) => {
                assert((p + seq!['['] + decimal(i) + seq![']']).take(n) == p.take(n));
            },
            SegmentView::Wildcard => {
                assert(false);
            },
        }
    }
}

/// `field_end` stops at the first `.` or `[`, or at the end.
proof fn lemma_field_end_at(cs: Seq<char>, i: int, e: int)
    requires
        0 <= i <= e <= cs.len(),
        forall|k: int| i <= k < e ==> cs[k] != '.' && cs[k] != '[',
        e == cs.len() || cs[e] == '.' || cs[e] == '[',
    ensures
        field_end(cs, i) == e,
    decreases e - i,
{
    if i < e {
        lemma_field_end_at(cs, i + 1, e);
    }
}

/// `bracket_close` stops at the first `]`.
proof fn lemma_bracket_close_at(cs: Seq<char>, i: int, e: int)
    requires
        0 <= i <= e < cs.len(),
        forall|k: int| i <= k < e ==> cs[k] != ']',
        cs[e] == ']',
    ensures
        bracket_close(cs, i) == e,
    decreases e - i,
{
    if i < e {
        lemma_bracket_close_at(cs, i + 1, e);
    }
}

/// What follows the path of the first `j` steps of a route in the route's path: a
/// `.` or a `[`, or nothing.
proof fn lemma_route_next(r: Seq<SegmentView>, j: int)
    requires
        plain_route(r),
        1 <= j <= r.len(),
    ensures
        ({
            let cs = route_path(r);
            let q = route_path(r.take(j));
            &&& q.len() <= cs.len()
            &&& cs.take(q.len() as int) == q
            &&& q.len() == cs.len() || cs[q.len() as int] == '.' || cs[q.len() as int] == '['
        }),
{
    let cs = route_path(r);
    let q = route_path(r.take(j));
    assert(r.take(r.len() as int) == r);
    lemma_route_prefix(r, j, r.len() as int);
    lemma_route_prefix(r, j, j);
    if j < r.len() {
        lemma_route_prefix(r, j, j + 1);
        lemma_route_prefix(r, j + 1, r.len() as int);
        let q2 = route_path(r.take(j + 1));
        assert(r.take(j + 1).drop_last() == r.take(j));
        assert(r.take(j + 1).last() == r[j]);
        assert(q2[q.len() as int] == '.' || q2[q.len() as int] == '[') by {
            match r[j] {
                SegmentView::Field(name) => {
                    assert(q2 == q + seq!['.'] + name);
                },
                SegmentView::Index(n) => {
                    assert(q2 == q + seq!['['] + decimal(n) + seq![']']);
                },
                SegmentView::Wildcard => {},
            }
        }
        assert(cs.take(q2.len() as int)[q.len() as int] == q2[q.len() as int]);
    }
}

/// Reading the path of a route: once the parser is past the path of the first `j`
/// steps, it has read those steps.
proof fn lemma_parse_route(r: Seq<SegmentView>, j: int)
    requires
        plain_route(r),
        0 <= j <= r.len(),
    ensures
        parse_path(route_path(r)) == parse_path_from(
            route_path(r),
            route_path(r.take(j)).len() as int,
            r.take(j),
        ),
    decreases j,
{
    let cs = route_path(r);
    if j == 0 {
        assert(r.take(0) == Seq::<SegmentView>::empty());
    } else {
        lemma_parse_route(r, j - 1);
        let p = route_path(r.take(j - 1));
        let q = route_path(r.take(j));
        let i = p.len() as int;
        lemma_route_prefix(r, j - 1, j);
        lemma_route_prefix(r, j - 1, j - 1);
        lemma_route_next(r, j);
        assert(r.take(j).drop_last() == r.take(j - 1));
        assert(r.take(j).last() == r[j - 1]);
        assert(r.take(j - 1).push(r[j - 1]) == r.take(j));
        assert forall|k: int| 0 <= k < q.len() implies cs[k] == #[trigger] q[k] by {
            assert(cs.take(q.len() as int)[k] == cs[k]);
        }
        match r[j - 1] {
            SegmentView::Field(name) => {
                assert(plain_name(name));
                if p.len() == 0 {
                    assert(q == name);
                    assert(r.take(j - 1).len() == 0);
                    assert forall|k: int| 0 <= k < q.len() implies cs[k] != '.' && cs[k] != '[' by {
                        assert(q[k] == name[k]);
                    }
                    lemma_field_end_at(cs, 0, q.len() as int);
                    assert(cs.subrange(0, q.len() as int) == name);
                } else {
                    assert(q == p + seq!['.'] + name);
                    assert(q[i] == '.');
                    assert(cs[i] == '.');
                    assert forall|k: int| i + 1 <= k < q.len() implies cs[k] != '.' && cs[k] != '[' by {
                        assert(q[k] == name[k - i - 1]);
                    }
                    lemma_field_end_at(cs, i + 1, q.len() as int);
                    assert forall|k: int| 0 <= k < name.len() implies #[trigger] cs.subrange(
                        i + 1,
                        q.len() as int,
                    )[k] == name[k] by {
                        assert(q[i + 1 + k] == name[k]);
                        assert(cs[i + 1 + k] == q[i + 1 + k]);
                    }
                    assert(cs.subrange(i + 1, q.len() as int) =~= name);
                }
            },
            SegmentView::Index(n) => {
                let d = decimal(n);
                lemma_decimal_digits(n);
                assert(q == p + seq!['['] + d + seq![']']);
                assert(q[i] == '[');
                assert(cs[i] == '[');
                let e = q.len() - 1;
                assert forall|k: int| i + 1 <= k < e implies cs[k] != ']' by {
                    assert(q[k] == d[k - i - 1]);
                    assert(is_digit(d[k - i - 1]));
                }
                assert(cs[e] == q[e]);
                lemma_bracket_close_at(cs, i + 1, e);
                let content = cs.subrange(i + 1, e);
                assert forall|k: int| 0 <= k < d.len() implies #[trigger] content[k] == d[k] by {
                    assert(q[i + 1 + k] == d[k]);
                    assert(cs[i + 1 + k] == q[i + 1 + k]);
                }
                assert(content =~= d);
                assert(is_digit(d[0]));
                assert(d != seq!['*']) by {
                    if d == seq!['*'] {
                        assert(d[0] == '*');
                    }
                }
                assert(unsigned_part(d) == d);
                assert(parse_usize_spec(d) == Some(n));
                assert(bracket_segment(content) == Ok::<SegmentView, JsonPathErrorView>(SegmentView::Index(n)));
            },
            SegmentView::Wildcard => {},
        }
    }
}

/// The path of a route reads back as the route.
pub proof fn lemma_route_reads_back(r: Seq<SegmentView>)
    requires
        plain_route(r),
    ensures
        parse_path(route_path(r)) == Ok::<Seq<SegmentView>, JsonPathErrorView>(r),
{
    lemma_parse_route(r, r.len() as int);
    assert(r.take(r.len() as int) == r);
}

/// Every array in the value has at most `usize::MAX + 1` elements, so that each of
/// its indices fits in a `usize`.
pub open spec fn indices_fit(v: JsonView) -> bool
    decreases v,
{
    match v {
        JsonView::Array(xs) => xs.len() <= usize::MAX + 1 && forall|i: int|
            0 <= i < xs.len() ==> indices_fit(#[trigger] xs[i]),
        JsonView::Object(es) => forall|i: int| 0 <= i < es.len() ==> indices_fit(#[trigger] es[i].1),
        _ => true,
    }
}

/// Where a match of a step over several matches comes from.
proof fn lemma_step_all_source(ms: Seq<(JsonView, Seq<char>)>, seg: SegmentView, k: int) -> (ij: (
    int,
    int,
))
    requires
        0 <= k < step_all(ms, seg).len(),
    ensures
        0 <= ij.0 < ms.len(),
        0 <= ij.1 < step_match(ms[ij.0], seg).len(),
        step_all(ms, seg)[k] == step_match(ms[ij.0], seg)[ij.1],
    decreases ms.len(),
{
    let front = ms.drop_last();
    let a = step_all(front, seg);
    let c = step_match(ms.last(), seg);
    assert(step_all(ms, seg) == a + c);
    if k < a.len() {
        let (i, j) = lemma_step_all_source(front, seg, k);
        assert(front[i] == ms[i]);
        (i, j)
    } else {
        (ms.len() - 1, k - a.len())
    }
}

/// A match of a path is the one match of a route of fields and indices, whose path
/// is the match's path.
proof fn lemma_match_route(segs: Seq<SegmentView>, v: JsonView, k: int) -> (r: Seq<SegmentView>)
    requires
        0 <= k < eval_path(segs, v).len(),
        plain_steps(segs),
        indices_fit(v),
    ensures
        plain_route(r),
        route_path(r) == eval_path(segs, v)[k].1,
        eval_path(r, v) == seq![eval_path(segs, v)[k]],
        indices_fit(eval_path(segs, v)[k].0),
    decreases segs.len(),
{
    if segs.len() == 0 {
        Seq::empty()
    } else {
        let front = segs.drop_last();
        let seg = segs.last();
        let ms = eval_path(front, v);
        assert forall|t: int| 0 <= t < front.len() implies match #[trigger] front[t] {
            SegmentView::Field(name) => plain_name(name),
            SegmentView::Index(n) => n <= usize::MAX,
            SegmentView::Wildcard => true,
        } by {
            assert(front[t] == segs[t]);
        }
        assert(seg == segs[segs.len() - 1]);
        let (i, j) = lemma_step_all_source(ms, seg, k);
        let r0 = lemma_match_route(front, v, i);
        let m0 = ms[i];
        let m = eval_path(segs, v)[k];
        assert(m == step_match(m0, seg)[j]);
        let x = match seg {
            SegmentView::Field(name) => SegmentView::Field(name),
            SegmentView::Wildcard => SegmentView::Index(j as nat),
            SegmentView::Index(n) => SegmentView::Index(n),
        };
        let r = r0.push(x);
        assert(r.drop_last() == r0);
        assert(step_match(m0, x) == seq![m]) by {
            match seg {
                SegmentView::Field(name) => {
                    let es = m0.0->Object_0;
                    lemma_member_index_key(es, name);
                },
                SegmentView::Wildcard => {},
                SegmentView::Index(n) => {},
            }
        }
        assert(indices_fit(m.0)) by {
            match seg {
                SegmentView::Field(name) => {
                    let es = m0.0->Object_0;
                    lemma_member_index_key(es, name);
                    assert(m.0 == es[member_index(es, name)].1);
                },
                SegmentView::Wildcard => {
                    assert(m.0 == m0.0->Array_0[j]);
                },
                SegmentView::Index(n) => {
                    assert(m.0 == m0.0->Array_0[n as int]);
                },
            }
        }
        assert(seq![m0].drop_last() == Seq::<(JsonView, Seq<char>)>::empty());
        assert(seq![m0].last() == m0);
        assert(step_all(Seq::<(JsonView, Seq<char>)>::empty(), x) == Seq::<(JsonView, Seq<char>)>::empty());
        assert(Seq::<(JsonView, Seq<char>)>::empty() + step_match(m0, x) =~= step_match(m0, x));
        assert(step_all(seq![m0], x) == step_match(m0, x));
        assert(eval_path(r, v) == step_all(eval_path(r0, v), x));
        assert(plain_route(r)) by {
            assert forall|t: int| 0 <= t < r.len() implies !(#[trigger] r[t] is Wildcard) && match r[t] {
                SegmentView::Field(name) => plain_name(name),
                SegmentView::Index(n) => n <= usize::MAX,
                SegmentView::Wildcard => true,
            } by {
                if t < r0.len() {
                    assert(r[t] == r0[t]);
                } else {
                    if seg is Wildcard {
                        assert(m0.0 is Array);
                        assert(j < m0.0->Array_0.len());
                    }
                }
            }
        }
        r
    }
}

/// Reading back the path of a match and evaluating it finds that match again, and
/// nothing else, when the path's field names are not empty and hold no `.` or `[`
/// and its indices, and those of the value's arrays, fit in a `usize`.
pub proof fn law_match_path_reads_back(segs: Seq<SegmentView>, v: JsonView, k: int)
    requires
        0 <= k < eval_path(segs, v).len(),
        plain_steps(segs),
        indices_fit(v),
    ensures
        parse_path(eval_path(segs, v)[k].1) matches Ok(q) && eval_path(q, v) == seq![
            eval_path(segs, v)[k],
        ],
{
    let r = lemma_match_route(segs, v, k);
    lemma_route_reads_back(r);
}

/// The parser from `i` keeps the steps plain.
proof fn lemma_parsed_plain(cs: Seq<char>, i: int, segs: Seq<SegmentView>)
    requires
        plain_steps(segs),
    ensures
        parse_path_from(cs, i, segs) matches Ok(out) ==> plain_steps(out),
    decreases cs.len() - i,
{
    if 0 <= i < cs.len() {
        if cs[i] == '.' || (cs[i] != '[' && segs.len() == 0) {
            let from = if cs[i] == '.' {
                i + 1
            } else {
                i
            };
            let j = field_end(cs, from);
            lemma_field_end(cs, from);
            if j > from {
                let name = cs.subrange(from, j);
                assert(plain_name(name)) by {
                    assert forall|k: int| 0 <= k < name.len() implies name[k] != '.' && name[k] != '[' by {
                        assert(name[k] == cs[from + k]);
                    }
                }
                let next = segs.push(SegmentView::Field(name));
                assert forall|t: int| 0 <= t < next.len() implies match #[trigger] next[t] {
                    SegmentView::Field(name) => plain_name(name),
                    SegmentView::Index(n) => n <= usize::MAX,
                    SegmentView::Wildcard => true,
                } by {
                    if t < segs.len() {
                        assert(next[t] == segs[t]);
                    }
                }
                lemma_parsed_plain(cs, j, next);
            }
        } else if cs[i] == '[' {
            let j = bracket_close(cs, i + 1);
            lemma_bracket_close(cs, i + 1);
            match bracket_segment(cs.subrange(i + 1, j)) {
                Ok(seg) => {
                    let next = segs.push(seg);
                    assert forall|t: int| 0 <= t < next.len() implies match #[trigger] next[t] {
                        SegmentView::Field(name) => plain_name(name),
                        SegmentView::Index(n) => n <= usize::MAX,
                        SegmentView::Wildcard => true,
                    } by {
                        if t < segs.len() {
                            assert(next[t] == segs[t]);
                        }
                    }
                    lemma_parsed_plain(
                        cs,
                        if j < cs.len() {
                            j + 1
                        } else {
                            j
                        },
                        next,
                    );
                },
                Err(_) => {},
            }
        }
    }
}

/// Every path that parses has plain field names (not empty, without `.` or `[`)
/// and indices that fit in a `usize`.
pub proof fn law_parsed_steps_plain(text: Seq<char>)
    ensures
        parse_path(text) matches Ok(segs) ==> plain_steps(segs),
{
    lemma_parsed_plain(text, 0, seq![]);
}

/// A route finds at most one match, at the route's path.
pub proof fn lemma_route_eval(r: Seq<SegmentView>, v: JsonView)
    requires
        plain_route(r),
    ensures
        eval_path(r, v).len() <= 1,
        eval_path(r, v).len() == 1 ==> eval_path(r, v)[0].1 == route_path(r),
    decreases r.len(),
{
    if r.len() > 0 {
        let front = r.drop_last();
        assert forall|t: int| 0 <= t < front.len() implies !(#[trigger] front[t] is Wildcard) && match front[t] {
            SegmentView::Field(name) => plain_name(name),
            SegmentView::Index(n) => n <= usize::MAX,
            SegmentView::Wildcard => true,
        } by {
            assert(front[t] == r[t]);
        }
        lemma_route_eval(front, v);
        let ms = eval_path(front, v);
        let x = r.last();
        assert(x == r[r.len() - 1]);
        if ms.len() == 0 {
            assert(step_all(ms, x) == Seq::<(JsonView, Seq<char>)>::empty());
        } else {
            let m0 = ms[0];
            assert(ms == seq![m0]);
            assert(ms.drop_last() == Seq::<(JsonView, Seq<char>)>::empty());
            assert(step_all(Seq::<(JsonView, Seq<char>)>::empty(), x) == Seq::<(JsonView, Seq<char>)>::empty());
            assert(Seq::<(JsonView, Seq<char>)>::empty() + step_match(m0, x) =~= step_match(m0, x));
            assert(step_all(ms, x) == step_match(m0, x));
        }
    }
}

/// The decimal text of a number that fits in a `usize` parses as that number.
pub proof fn lemma_decimal_parses(n: nat)
    requires
        n <= usize::MAX,
    ensures
        parse_usize_spec(decimal(n)) == Some(n),
        decimal(n).len() > 0,
        forall|k: int| 0 <= k < decimal(n).len() ==> is_digit(#[trigger] decimal(n)[k]),
{
    lemma_decimal_digits(n);
    assert(is_digit(decimal(n)[0]));
    assert(unsigned_part(decimal(n)) == decimal(n));
}

} // verus!
