//! JSON documents: parsing, and the source map that locates every value of a
//! parsed document in its text.
use vstd::prelude::*;

use crate::source_map::{make_span, span_at, valid_line_table, SourceMap, SourceSpan};
use crate::jsonpath::{eval_path, found_path, step_all, step_match, SegmentView};
use crate::walk::{
    has_path, included, lemma_apply_has_path, lemma_elements_find,
    lemma_included_has_path, lemma_included_refl, lemma_included_trans, lemma_members_find,
    lemma_value_reads_parts, members_found, value_reads, lemma_apply_dom, lemma_value_paths,
    paths_found, sole_match,
    apply_inserts, bytes_left, index_path, key_path, lemma_apply_inserts_concat,
    lemma_apply_inserts_push, lemma_apply_located, lemma_elements_done, lemma_value_located,
    lemma_elements_step, lemma_members_done, lemma_members_step, lemma_value_container,
    lemma_value_scalar, map_elements_spec, map_members_spec, map_value_spec, reach, span_of,
};
use crate::text::push_decimal;
use crate::value::{
    lemma_member_index_key, member, child, children_size, json_size, lemma_array_view, lemma_children_size,
    lemma_children_size_mono, lemma_member_index_first, lemma_object_view, member_index,
    find_member, from_serde, node_count, JsonValue, JsonView,
};
use crate::source_map::{build_line_offsets, lemma_line_offsets_valid, line_offsets_of};
use vstd::string::StringSliceAdditionalSpecFns;


verus! {

/// `char::from_u32` gives the character with that scalar value, or `None` for a
/// surrogate or a value above U+10FFFF.
pub assume_specification[ char::from_u32 ](i: u32) -> (r: Option<char>)
    ensures
        r == (if i < 0xD800 || (0xE000 <= i && i <= 0x10FFFF) {
            Some(i as char)
        } else {
            None
        }),
;

// ----------------------------------------------------------------------------
// Scanning the source bytes
// ----------------------------------------------------------------------------
/// JSON whitespace: space, tab, newline, carriage return.
pub open spec fn is_ws(c: u8) -> bool {
    c == 32u8 || c == 9u8 || c == 10u8 || c == 13u8
}

/// The first position at or after `pos` that does not hold whitespace.
pub open spec fn skip_ws_spec(b: Seq<u8>, pos: int) -> int
    decreases b.len() - pos,
{
    if 0 <= pos < b.len() && is_ws(b[pos]) {
        skip_ws_spec(b, pos + 1)
    } else {
        pos
    }
}

/// One past `pos` when `pos` holds `expected`, else `pos`.
pub open spec fn expect_spec(b: Seq<u8>, pos: int, expected: u8) -> int {
    if 0 <= pos < b.len() && b[pos] == expected {
        pos + 1
    } else {
        pos
    }
}

/// The value of a hexadecimal digit byte, or -1.
pub open spec fn hex_value(c: u8) -> int {
    if 48 <= c <= 57 {
        c - 48
    } else if 97 <= c <= 102 {
        c - 87
    } else if 65 <= c <= 70 {
        c - 55
    } else {
        -1
    }
}

/// The code of the four bytes after a `\u` escape, read as `u32::from_str_radix`
/// reads them in base 16: four hex digits, or `+` and three hex digits.
pub open spec fn hex4(b: Seq<u8>, at: int) -> Option<int> {
    let h0 = hex_value(b[at]);
    let h1 = hex_value(b[at + 1]);
    let h2 = hex_value(b[at + 2]);
    let h3 = hex_value(b[at + 3]);
    if b[at] == 43u8 && h1 >= 0 && h2 >= 0 && h3 >= 0 {
        Some(h1 * 256 + h2 * 16 + h3)
    } else if h0 >= 0 && h1 >= 0 && h2 >= 0 && h3 >= 0 {
        Some(h0 * 4096 + h1 * 256 + h2 * 16 + h3)
    } else {
        None
    }
}

/// Whether a code below 0x10000 is a Unicode scalar value (not a surrogate).
pub open spec fn is_scalar(code: int) -> bool {
    code < 0xD800 || 0xE000 <= code
}

/// The low surrogate of a `\u` escape that directly follows the `\u` escape whose
/// letter is at `j`, when there is one.
pub open spec fn low_surrogate_after(b: Seq<u8>, j: int) -> Option<int> {
    if j + 10 < b.len() && b[j + 5] == 92u8 && b[j + 6] == 117u8 {
        match hex4(b, j + 7) {
            Some(low) => if 0xDC00 <= low < 0xE000 {
                Some(low)
            } else {
                None
            },
            None => None,
        }
    } else {
        None
    }
}

/// The characters that the escape whose letter is at `j` adds, and the position of
/// its last byte. A `\u` escape of a high surrogate followed by a `\u` escape of a low
/// surrogate adds the one character that the pair encodes.
pub open spec fn escape_spec(b: Seq<u8>, j: int) -> (Seq<char>, int) {
    let c = b[j];
    if c == 34u8 {
        (seq!['"'], j)
    } else if c == 92u8 {
        (seq!['\\'], j)
    } else if c == 47u8 {
        (seq!['/'], j)
    } else if c == 110u8 {
        (seq!['\n'], j)
    } else if c == 114u8 {
        (seq!['\r'], j)
    } else if c == 116u8 {
        (seq!['\t'], j)
    } else if c == 98u8 {
        (seq!['\u{8}'], j)
    } else if c == 102u8 {
        (seq!['\u{c}'], j)
    } else if c == 117u8 {
        if j + 4 < b.len() {
            match hex4(b, j + 1) {
                Some(code) => if 0xD800 <= code < 0xDC00 && low_surrogate_after(b, j) is Some {
                    let low = low_surrogate_after(b, j)->0;
                    (seq![((0x10000 + (code - 0xD800) * 1024 + (low - 0xDC00)) as u32) as char], j + 10)
                } else if is_scalar(code) {
                    (seq![(code as u32) as char], j + 4)
                } else {
                    (seq![], j + 4)
                },
                None => (seq![], j + 4),
            }
        } else {
            (seq![], j)
        }
    } else {
        (seq!['\\', c as char], j)
    }
}

/// Is byte `k` a UTF-8 continuation byte?
pub open spec fn is_cont(b: Seq<u8>, k: int) -> bool {
    0 <= k < b.len() && 0x80 <= b[k] <= 0xBF
}

/// The six bits that continuation byte `k` carries.
pub open spec fn cont_bits(b: Seq<u8>, k: int) -> int {
    b[k] - 0x80
}

/// The character that the UTF-8 sequence starting at `i` encodes, and its length in
/// bytes, when a well-formed sequence of two to four bytes starts there.
pub open spec fn utf8_at(b: Seq<u8>, i: int) -> Option<(int, int)> {
    let c = b[i];
    if 0xC2 <= c <= 0xDF && is_cont(b, i + 1) {
        Some(((c - 0xC0) * 64 + cont_bits(b, i + 1), 2))
    } else if 0xE0 <= c <= 0xEF && is_cont(b, i + 1) && is_cont(b, i + 2) {
        let code = (c - 0xE0) * 4096 + cont_bits(b, i + 1) * 64 + cont_bits(b, i + 2);
        if 0x800 <= code && is_scalar(code) {
            Some((code, 3))
        } else {
            None
        }
    } else if 0xF0 <= c <= 0xF4 && is_cont(b, i + 1) && is_cont(b, i + 2) && is_cont(b, i + 3) {
        let code = (c - 0xF0) * 262144 + cont_bits(b, i + 1) * 4096 + cont_bits(b, i + 2) * 64
            + cont_bits(b, i + 3);
        if 0x10000 <= code <= 0x10FFFF {
            Some((code, 4))
        } else {
            None
        }
    } else {
        None
    }
}

pub proof fn lemma_utf8_at(b: Seq<u8>, i: int)
    requires
        0 <= i < b.len(),
    ensures
        utf8_at(b, i) matches Some((code, n)) ==> 2 <= n <= 4 && i + n <= b.len() && 0 <= code
            <= 0x10FFFF && (code < 0xD800 || 0xE000 <= code),
{
}

/// Reads string content from `i` up to and past the closing quote: the characters
/// read (a UTF-8 sequence gives the character it encodes; any other byte, the
/// character of the same number) and the position after the string.
pub open spec fn scan_string(b: Seq<u8>, i: int) -> (Seq<char>, int)
    decreases b.len() - i,
{
    if i < 0 || i >= b.len() {
        (seq![], i)
    } else if b[i] == 34u8 {
        (seq![], i + 1)
    } else if b[i] == 92u8 {
        if i + 1 < b.len() {
            let (out, k) = escape_spec(b, i + 1);
            let (rest, e) = scan_string(b, k + 1);
            (out + rest, e)
        } else {
            (seq![], i + 2)
        }
    } else {
        proof {
            lemma_utf8_at(b, i);
        }
        match utf8_at(b, i) {
            Some((code, n)) => {
                let (rest, e) = scan_string(b, i + n);
                (seq![(code as u32) as char] + rest, e)
            },
            None => {
                let (rest, e) = scan_string(b, i + 1);
                (seq![b[i] as char] + rest, e)
            },
        }
    }
}

/// The string starting at the opening quote at `pos`.
pub open spec fn string_at(b: Seq<u8>, pos: int) -> (Seq<char>, int) {
    scan_string(b, pos + 1)
}

pub proof fn lemma_scan_string_bounds(b: Seq<u8>, i: int)
    requires
        0 <= i,
    ensures
        scan_string(b, i).1 >= i,
        scan_string(b, i).1 <= if i > b.len() + 1 {
            i
        } else {
            b.len() + 1int
        },
    decreases b.len() - i,
{
    if i < b.len() {
        if b[i] == 34u8 {
        } else if b[i] == 92u8 {
            if i + 1 < b.len() {
                let k = escape_spec(b, i + 1).1;
                lemma_scan_string_bounds(b, k + 1);
            }
        } else {
            lemma_utf8_at(b, i);
            match utf8_at(b, i) {
                Some((code, n)) => lemma_scan_string_bounds(b, i + n),
                None => lemma_scan_string_bounds(b, i + 1),
            }
        }
    }
}

/// The end of a number: an optional minus, then digits, `.`, `e`, `E`, `+`, `-`.
pub open spec fn number_body_end(b: Seq<u8>, pos: int) -> int
    decreases b.len() - pos,
{
    if 0 <= pos < b.len() && ((48 <= b[pos] <= 57) || b[pos] == 46u8 || b[pos] == 101u8
        || b[pos] == 69u8 || b[pos] == 43u8 || b[pos] == 45u8) {
        number_body_end(b, pos + 1)
    } else {
        pos
    }
}

pub open spec fn number_end(b: Seq<u8>, pos: int) -> int {
    if 0 <= pos < b.len() && b[pos] == 45u8 {
        number_body_end(b, pos + 1)
    } else {
        number_body_end(b, pos)
    }
}

/// One or more ASCII digits.
pub open spec fn digit_run(s: Seq<u8>) -> bool {
    s.len() > 0 && forall|k: int| 0 <= k < s.len() ==> 48 <= #[trigger] s[k] <= 57
}

/// The integer part of a JSON number: `0`, or a non-zero digit and more digits.
pub open spec fn number_int_part(s: Seq<u8>) -> bool {
    digit_run(s) && (s[0] != 48u8 || s.len() == 1)
}

/// The fraction of a JSON number: nothing, or `.` and one or more digits.
pub open spec fn number_fraction(s: Seq<u8>) -> bool {
    s.len() == 0 || (s[0] == 46u8 && digit_run(s.drop_first()))
}

/// The exponent of a JSON number: nothing, or `e` or `E`, an optional sign, and one
/// or more digits.
pub open spec fn number_exponent(s: Seq<u8>) -> bool {
    s.len() == 0 || ((s[0] == 101u8 || s[0] == 69u8) && (digit_run(s.drop_first()) || (s.len() > 1
        && (s[1] == 43u8 || s[1] == 45u8) && digit_run(s.skip(2)))))
}

/// A byte that may follow a JSON value inside a document: white space, `,`, `}` or `]`.
pub open spec fn value_follower(c: u8) -> bool {
    c == 32u8 || c == 9u8 || c == 10u8 || c == 13u8 || c == 44u8 || c == 125u8 || c == 93u8
}

proof fn lemma_number_body_end_at(b: Seq<u8>, i: int, e: int)
    requires
        0 <= i <= e <= b.len(),
        forall|k: int|
            i <= k < e ==> {
                let c = #[trigger] b[k];
                (48 <= c <= 57) || c == 46u8 || c == 101u8 || c == 69u8 || c == 43u8 || c == 45u8
            },
        e == b.len() || value_follower(b[e]),
    ensures
        number_body_end(b, i) == e,
    decreases e - i,
{
    if i < e {
        lemma_number_body_end_at(b, i + 1, e);
    }
}

/// The end of a number found in a document is the end of its JSON text: a number
/// spelled as JSON (optional minus, integer part, optional fraction, optional
/// exponent) and followed by white space, `,`, `}`, `]` or the end ends exactly there.
pub proof fn law_number_end_spans_number(
    b: Seq<u8>,
    pos: int,
    sign: Seq<u8>,
    int_part: Seq<u8>,
    frac: Seq<u8>,
    exp: Seq<u8>,
)
    requires
        sign == Seq::<u8>::empty() || sign == seq![45u8],
        number_int_part(int_part),
        number_fraction(frac),
        number_exponent(exp),
        0 <= pos,
        pos + (sign + int_part + frac + exp).len() <= b.len(),
        b.subrange(pos, pos + (sign + int_part + frac + exp).len()) == sign + int_part + frac + exp,
        pos + (sign + int_part + frac + exp).len() == b.len() || value_follower(
            b[pos + (sign + int_part + frac + exp).len()],
        ),
    ensures
        number_end(b, pos) == pos + (sign + int_part + frac + exp).len(),
{
    let t = sign + int_part + frac + exp;
    let e = pos + t.len();
    let start = pos + sign.len();
    assert forall|k: int| sign.len() <= k < t.len() implies {
        let c = #[trigger] t[k];
        (48 <= c <= 57) || c == 46u8 || c == 101u8 || c == 69u8 || c == 43u8 || c == 45u8
    } by {
        let a = sign.len() as int;
        let bi = a + int_part.len();
        let bf = bi + frac.len();
        if k < bi {
            assert(t[k] == int_part[k - a]);
        } else if k < bf {
            assert(t[k] == frac[k - bi]);
            if k > bi {
                assert(frac[k - bi] == frac.drop_first()[k - bi - 1]);
            }
        } else {
            assert(t[k] == exp[k - bf]);
            if k - bf >= 2 {
                assert(exp[k - bf] == exp.drop_first()[k - bf - 1]);
                assert(exp[k - bf] == exp.skip(2)[k - bf - 2]);
            } else if k - bf == 1 {
                assert(exp[1] == exp.drop_first()[0]);
            }
        }
    }
    assert forall|k: int| start <= k < e implies {
        let c = #[trigger] b[k];
        (48 <= c <= 57) || c == 46u8 || c == 101u8 || c == 69u8 || c == 43u8 || c == 45u8
    } by {
        assert(b.subrange(pos, e)[k - pos] == b[k]);
        assert(t[k - pos] == b[k]);
    }
    lemma_number_body_end_at(b, start, e);
    if sign.len() == 1 {
        assert(b.subrange(pos, e)[0] == b[pos]);
        assert(t[0] == 45u8);
    } else {
        assert(int_part[0] == t[0]);
        assert(b.subrange(pos, e)[0] == b[pos]);
        assert(b[pos] != 45u8);
    }
}

/// The position after the bracket that closes nesting `depth`, skipping strings.
pub open spec fn balanced_end(b: Seq<u8>, pos: int, depth: nat, open: u8, close: u8) -> int
    decreases b.len() + 2 - pos,
{
    if !(0 <= pos < b.len() && depth > 0) {
        pos
    } else if b[pos] == 34u8 {
        proof {
            lemma_scan_string_bounds(b, pos + 1);
        }
        balanced_end(b, string_at(b, pos).1, depth, open, close)
    } else if b[pos] == open {
        balanced_end(b, pos + 1, depth + 1, open, close)
    } else if b[pos] == close {
        balanced_end(b, pos + 1, (depth - 1) as nat, open, close)
    } else {
        balanced_end(b, pos + 1, depth, open, close)
    }
}

/// The position after the JSON value that starts at or after `pos`, found from its
/// first byte alone.
pub open spec fn value_end(b: Seq<u8>, pos: int) -> int {
    let p = skip_ws_spec(b, pos);
    if p >= b.len() {
        p
    } else if b[p] == 34u8 {
        string_at(b, p).1
    } else if b[p] == 123u8 {
        balanced_end(b, p + 1, 1, 123u8, 125u8)
    } else if b[p] == 91u8 {
        balanced_end(b, p + 1, 1, 91u8, 93u8)
    } else if b[p] == 116u8 {
        p + 4
    } else if b[p] == 102u8 {
        p + 5
    } else if b[p] == 110u8 {
        p + 4
    } else {
        number_end(b, p)
    }
}

pub proof fn lemma_skip_ws_bounds(b: Seq<u8>, pos: int)
    requires
        0 <= pos,
    ensures
        pos <= skip_ws_spec(b, pos),
        skip_ws_spec(b, pos) <= if pos > b.len() {
            pos
        } else {
            b.len() as int
        },
        skip_ws_spec(b, pos) < b.len() ==> !is_ws(b[skip_ws_spec(b, pos)]),
    decreases b.len() - pos,
{
    if 0 <= pos < b.len() && is_ws(b[pos]) {
        lemma_skip_ws_bounds(b, pos + 1);
    }
}

pub proof fn lemma_number_body_end_bounds(b: Seq<u8>, pos: int)
    requires
        0 <= pos,
    ensures
        pos <= number_body_end(b, pos) <= if pos > b.len() {
            pos
        } else {
            b.len() as int
        },
    decreases b.len() - pos,
{
    if 0 <= pos < b.len() && ((48 <= b[pos] <= 57) || b[pos] == 46u8 || b[pos] == 101u8
        || b[pos] == 69u8 || b[pos] == 43u8 || b[pos] == 45u8) {
        lemma_number_body_end_bounds(b, pos + 1);
    }
}

pub proof fn lemma_balanced_end_bounds(b: Seq<u8>, pos: int, depth: nat, open: u8, close: u8)
    requires
        0 <= pos,
    ensures
        pos <= balanced_end(b, pos, depth, open, close) <= if pos > b.len() + 1 {
            pos
        } else {
            b.len() + 1int
        },
    decreases b.len() + 2 - pos,
{
    if 0 <= pos < b.len() && depth > 0 {
        if b[pos] == 34u8 {
            lemma_scan_string_bounds(b, pos + 1);
            lemma_balanced_end_bounds(b, string_at(b, pos).1, depth, open, close);
        } else if b[pos] == open {
            lemma_balanced_end_bounds(b, pos + 1, depth + 1, open, close);
        } else if b[pos] == close {
            lemma_balanced_end_bounds(b, pos + 1, (depth - 1) as nat, open, close);
        } else {
            lemma_balanced_end_bounds(b, pos + 1, depth, open, close);
        }
    }
}

pub proof fn lemma_value_end_bounds(b: Seq<u8>, pos: int)
    requires
        0 <= pos,
    ensures
        pos <= value_end(b, pos) <= if pos > b.len() {
            pos
        } else {
            b.len() + 5int
        },
{
    let p = skip_ws_spec(b, pos);
    lemma_skip_ws_bounds(b, pos);
    if p < b.len() {
        lemma_scan_string_bounds(b, p + 1);
        lemma_balanced_end_bounds(b, p + 1, 1, 123u8, 125u8);
        lemma_balanced_end_bounds(b, p + 1, 1, 91u8, 93u8);
        lemma_number_body_end_bounds(b, p);
        lemma_number_body_end_bounds(b, p + 1);
    }
}

fn skip_whitespace(bytes: &[u8], pos: usize) -> (r: usize)
    ensures
        r == skip_ws_spec(bytes@, pos as int),
{
    let ghost start = pos;
    let mut pos = pos;
    while pos < bytes.len() && (bytes[pos] == 32u8 || bytes[pos] == 9u8 || bytes[pos] == 10u8
        || bytes[pos] == 13u8)
        invariant
            skip_ws_spec(bytes@, pos as int) == skip_ws_spec(bytes@, start as int),
        decreases bytes.len() - pos,
    {
        pos += 1;
    }
    pos
}

fn expect_byte(bytes: &[u8], pos: usize, expected: u8) -> (r: usize)
    ensures
        r == expect_spec(bytes@, pos as int, expected),
{
    if pos < bytes.len() && bytes[pos] == expected {
        pos + 1
    } else {
        pos
    }
}

fn hex_digit(c: u8) -> (r: Option<u32>)
    ensures
        match r {
            Some(v) => hex_value(c) == v as int && v < 16,
            None => hex_value(c) < 0,
        },
{
    if 48u8 <= c && c <= 57u8 {
        Some((c - 48u8) as u32)
    } else if 97u8 <= c && c <= 102u8 {
        Some((c - 87u8) as u32)
    } else if 65u8 <= c && c <= 70u8 {
        Some((c - 55u8) as u32)
    } else {
        None
    }
}

/// Reads the four bytes after a `\u` escape as a code.
fn read_hex4(bytes: &[u8], at: usize) -> (r: Option<u32>)
    requires
        at + 4 <= bytes.len(),
    ensures
        match r {
            Some(v) => hex4(bytes@, at as int) == Some(v as int) && v < 0x10000,
            None => hex4(bytes@, at as int) is None,
        },
{
    let d1 = hex_digit(bytes[at + 1]);
    let d2 = hex_digit(bytes[at + 2]);
    let d3 = hex_digit(bytes[at + 3]);
    match (d1, d2, d3) {
        (Some(h1), Some(h2), Some(h3)) => {
            if bytes[at] == 43u8 {
                Some(h1 * 256 + h2 * 16 + h3)
            } else {
                match hex_digit(bytes[at]) {
                    Some(h0) => Some(h0 * 4096 + h1 * 256 + h2 * 16 + h3),
                    None => None,
                }
            }
        },
        _ => None,
    }
}

/// Is byte `k` a UTF-8 continuation byte?
fn continuation(bytes: &[u8], k: usize) -> (r: bool)
    ensures
        r == is_cont(bytes@, k as int),
{
    k < bytes.len() && 0x80u8 <= bytes[k] && bytes[k] <= 0xBFu8
}

/// The character that the UTF-8 sequence at `i` encodes, and its length.
fn utf8_char(bytes: &[u8], i: usize) -> (r: Option<(char, usize)>)
    requires
        i < bytes.len(),
    ensures
        match utf8_at(bytes@, i as int) {
            Some((code, n)) => r == Some(((code as u32) as char, n as usize)),
            None => r is None,
        },
{
    let c = bytes[i] as u32;
    if 0xC2 <= c && c <= 0xDF && i + 1 < bytes.len() && continuation(bytes, i + 1) {
        let code = (c - 0xC0) * 64 + (bytes[i + 1] as u32 - 0x80);
        match char::from_u32(code) {
            Some(ch) => Some((ch, 2)),
            None => None,
        }
    } else if 0xE0 <= c && c <= 0xEF && bytes.len() - i > 2 && continuation(bytes, i + 1)
        && continuation(bytes, i + 2) {
        let code = (c - 0xE0) * 4096 + (bytes[i + 1] as u32 - 0x80) * 64 + (bytes[i + 2] as u32
            - 0x80);
        if 0x800 <= code && (code < 0xD800 || 0xE000 <= code) {
            match char::from_u32(code) {
                Some(ch) => Some((ch, 3)),
                None => None,
            }
        } else {
            None
        }
    } else if 0xF0 <= c && c <= 0xF4 && bytes.len() - i > 3 && continuation(bytes, i + 1)
        && continuation(bytes, i + 2) && continuation(bytes, i + 3) {
        let code = (c - 0xF0) * 262144 + (bytes[i + 1] as u32 - 0x80) * 4096 + (bytes[i + 2] as u32
            - 0x80) * 64 + (bytes[i + 3] as u32 - 0x80);
        if 0x10000 <= code && code <= 0x10FFFF {
            match char::from_u32(code) {
                Some(ch) => Some((ch, 4)),
                None => None,
            }
        } else {
            None
        }
    } else {
        None
    }
}

/// Parse a JSON string starting at `pos` (which should point to the opening `"`).
/// Returns (the string content, byte position after the closing `"`).
fn parse_string_raw(bytes: &[u8], pos: usize) -> (r: (String, usize))
    requires
        pos < usize::MAX,
        bytes@.len() + 2 < usize::MAX,
    ensures
        r.0@ == string_at(bytes@, pos as int).0,
        r.1 == string_at(bytes@, pos as int).1,
{
    let ghost b = bytes@;
    let mut i = pos + 1;
    let mut s = String::new();
    while i < bytes.len()
        invariant
            b == bytes@,
            b.len() + 2 < usize::MAX,
            pos + 1 <= i,
            s@ + scan_string(b, i as int).0 == scan_string(b, pos + 1).0,
            scan_string(b, i as int).1 == scan_string(b, pos + 1).1,
        decreases bytes.len() + 2 - i,
    {
        let c = bytes[i];
        let ghost before = s@;
        if c == 34u8 {
            assert(s@ + Seq::<char>::empty() == s@);
            return (s, i + 1);
        } else if c == 92u8 {
            let j = i + 1;
            if j < bytes.len() {
                let e = bytes[j];
                let mut k = j;
                if e == 34u8 {
                    s.push('"');
                } else if e == 92u8 {
                    s.push('\\');
                } else if e == 47u8 {
                    s.push('/');
                } else if e == 110u8 {
                    s.push('\n');
                } else if e == 114u8 {
                    s.push('\r');
                } else if e == 116u8 {
                    s.push('\t');
                } else if e == 98u8 {
                    s.push('\u{8}');
                } else if e == 102u8 {
                    s.push('\u{c}');
                } else if e == 117u8 {
                    if j + 4 < bytes.len() {
                        k = j + 4;
                        match read_hex4(bytes, j + 1) {
                            Some(code) => {
                                let mut paired = false;
                                if 0xD800 <= code && code < 0xDC00 && bytes.len() - j > 10
                                    && bytes[j + 5] == 92u8 && bytes[j + 6] == 117u8 {
                                    match read_hex4(bytes, j + 7) {
                                        Some(low) => {
                                            if 0xDC00 <= low && low < 0xE000 {
                                                let full = 0x10000 + (code - 0xD800) * 1024 + (low
                                                    - 0xDC00);
                                                match char::from_u32(full) {
                                                    Some(ch) => {
                                                        s.push(ch);
                                                    },
                                                    None => {},
                                                }
                                                k = j + 10;
                                                paired = true;
                                            }
                                        },
                                        None => {},
                                    }
                                }
                                if !paired {
                                    match char::from_u32(code) {
                                        Some(ch) => {
                                            s.push(ch);
                                        },
                                        None => {},
                                    }
                                }
                            },
                            None => {},
                        }
                    }
                } else {
                    s.push('\\');
                    s.push(e as char);
                }
                assert(s@ == before + escape_spec(b, j as int).0);
                assert(k == escape_spec(b, j as int).1);
                assert(s@ + scan_string(b, k + 1).0 == before + scan_string(b, i as int).0);
                i = k + 1;
            } else {
                assert(s@ + scan_string(b, j + 1).0 == before + scan_string(b, i as int).0);
                i = j + 1;
            }
        } else {
            proof {
                lemma_utf8_at(b, i as int);
            }
            match utf8_char(bytes, i) {
                Some((ch, n)) => {
                    s.push(ch);
                    assert(s@ + scan_string(b, i + n).0 == before + scan_string(b, i as int).0);
                    i += n;
                },
                None => {
                    s.push(c as char);
                    assert(s@ + scan_string(b, i + 1).0 == before + scan_string(b, i as int).0);
                    i += 1;
                },
            }
        }
    }
    assert(s@ + Seq::<char>::empty() == s@);
    (s, i)
}

fn skip_number(bytes: &[u8], pos: usize) -> (r: usize)
    ensures
        r == number_end(bytes@, pos as int),
{
    let mut pos = pos;
    if pos < bytes.len() && bytes[pos] == 45u8 {
        pos += 1;
    }
    let ghost start = pos;
    while pos < bytes.len() && ((48u8 <= bytes[pos] && bytes[pos] <= 57u8) || bytes[pos] == 46u8
        || bytes[pos] == 101u8 || bytes[pos] == 69u8 || bytes[pos] == 43u8 || bytes[pos] == 45u8)
        invariant
            number_body_end(bytes@, pos as int) == number_body_end(bytes@, start as int),
        decreases bytes.len() - pos,
    {
        pos += 1;
    }
    pos
}

/// Skip an entire JSON value (for keys we don't care about).
fn skip_json_value(bytes: &[u8], pos: usize) -> (r: usize)
    requires
        bytes@.len() + 6 < usize::MAX,
    ensures
        r == value_end(bytes@, pos as int),
{
    let pos = skip_whitespace(bytes, pos);
    if pos >= bytes.len() {
        return pos;
    }
    let c = bytes[pos];
    if c == 34u8 {
        parse_string_raw(bytes, pos).1
    } else if c == 123u8 {
        skip_balanced(bytes, pos, 123u8, 125u8)
    } else if c == 91u8 {
        skip_balanced(bytes, pos, 91u8, 93u8)
    } else if c == 116u8 {
        pos + 4
    } else if c == 102u8 {
        pos + 5
    } else if c == 110u8 {
        pos + 4
    } else {
        skip_number(bytes, pos)
    }
}

/// The position after the bracket that matches the one at `pos`, skipping strings.
fn skip_balanced(bytes: &[u8], pos: usize, open: u8, close: u8) -> (r: usize)
    requires
        pos < bytes@.len(),
        bytes@.len() + 2 < usize::MAX,
    ensures
        r == balanced_end(bytes@, pos + 1, 1, open, close),
{
    let ghost b = bytes@;
    // Each increase of the depth consumes a byte, so the depth stays below the position.
    let mut depth: usize = 1;
    let mut pos = pos + 1;
    let ghost first = pos;
    while pos < bytes.len() && depth > 0
        invariant
            b == bytes@,
            b.len() + 2 < usize::MAX,
            1 <= first <= pos,
            depth <= pos,
            balanced_end(b, pos as int, depth as nat, open, close) == balanced_end(
                b,
                first as int,
                1,
                open,
                close,
            ),
        decreases b.len() + 2 - pos,
    {
        let c = bytes[pos];
        if c == 34u8 {
            proof {
                lemma_scan_string_bounds(b, pos + 1);
            }
            pos = parse_string_raw(bytes, pos).1;
            continue ;
        }
        if c == open {
            depth += 1;
        } else if c == close {
            depth -= 1;
        }
        pos += 1;
    }
    pos
}

/// The path of member `key` below `path`.
pub(crate) fn member_path(path: &String, key: &String) -> (r: String)
    ensures
        r@ == key_path(path@, key@),
{
    if path.as_str().is_empty() {
        key.clone()
    } else {
        let mut r = path.clone();
        r.push('.');
        r.append(key.as_str());
        r
    }
}

/// The path of element `i` below `path`.
pub(crate) fn element_path(path: &String, i: usize) -> (r: String)
    ensures
        r@ == index_path(path@, i as nat),
{
    let mut r = path.clone();
    r.push('[');
    push_decimal(&mut r, i);
    r.push(']');
    r
}

/// Walk the parsed JSON value and the source string in parallel to find
/// the byte offset of each value in the source.
fn map_value(
    value: &JsonValue,
    path: &String,
    bytes: &[u8],
    start: usize,
    line_offsets: &[usize],
    source_map: &mut SourceMap,
) -> (end: usize)
    requires
        valid_line_table(line_offsets@),
        line_offsets@[0] == 0,
        reach(bytes@.len() as int, start as int, value@) + 2 < usize::MAX,
    ensures
        end == map_value_spec(value@, path@, bytes@, start as int, line_offsets@).0,
        final(source_map)@ == apply_inserts(
            old(source_map)@,
            map_value_spec(value@, path@, bytes@, start as int, line_offsets@).1,
        ),
        start <= end <= reach(bytes@.len() as int, start as int, value@),
    decreases value, 3nat,
{
    let ghost b = bytes@;
    let ghost len = b.len() as int;
    let ghost top = reach(len, start as int, value@);
    proof {
        lemma_skip_ws_bounds(b, start as int);
        lemma_apply_inserts_push(source_map@, Seq::empty(), (Seq::empty(), SourceSpan { start: 0, end: 0, line: 0, column: 0 }));
        if value@ is Object || value@ is Array {
            lemma_value_container(value@, path@, b, start as int, line_offsets@);
        } else {
            lemma_value_scalar(value@, path@, b, start as int, line_offsets@);
        }
    }
    let mut pos = skip_whitespace(bytes, start);
    match value {
        JsonValue::Object(_) | JsonValue::Array(_) => {
            proof {
                lemma_skip_ws_bounds(b, pos + 1);
            }
            let container_start = pos;
            let inner = skip_whitespace(bytes, pos + 1);
            let ghost m0 = source_map@;
            let ghost walked = if value is Object {
                map_members_spec(value@, path@, b, inner as int, true, line_offsets@)
            } else {
                map_elements_spec(value@, path@, b, inner as int, 0, line_offsets@)
            };
            pos = if let JsonValue::Object(_) = value {
                map_object_members(value, path, bytes, inner, line_offsets, source_map, Ghost(top))
            } else {
                map_array_elements(value, path, bytes, inner, line_offsets, source_map, Ghost(start as int))
            };
            if pos < bytes.len() {
                pos += 1;
            }
            if !path.as_str().is_empty() {
                let span = make_span(container_start, pos, line_offsets);
                source_map.insert(path.clone(), span);
                proof {
                    lemma_apply_inserts_push(m0, walked.1, (path@, span));
                }
            }
            pos
        },
        JsonValue::Str(_) => {
            proof {
                lemma_scan_string_bounds(b, pos + 1);
            }
            parse_string_raw(bytes, pos).1
        },
        JsonValue::Number(_) => {
            proof {
                lemma_number_body_end_bounds(b, pos as int);
                lemma_number_body_end_bounds(b, pos + 1);
            }
            skip_number(bytes, pos)
        },
        JsonValue::Bool(x) => {
            if *x {
                pos + 4
            } else {
                pos + 5
            }
        },
        JsonValue::Null => pos + 4,
    }
}

/// The member loop of an object whose opening brace has been read.
#[verifier::rlimit(40)]
fn map_object_members(
    value: &JsonValue,
    path: &String,
    bytes: &[u8],
    start: usize,
    line_offsets: &[usize],
    source_map: &mut SourceMap,
    Ghost(top): Ghost<int>,
) -> (end: usize)
    requires
        value is Object,
        valid_line_table(line_offsets@),
        line_offsets@[0] == 0,
        bytes@.len() + 5 <= top,
        bytes@.len() + 1 + 5 * (json_size(value@) - 1) <= top,
        start <= top,
        top + 2 < usize::MAX,
    ensures
        end == map_members_spec(value@, path@, bytes@, start as int, true, line_offsets@).0,
        final(source_map)@ == apply_inserts(
            old(source_map)@,
            map_members_spec(value@, path@, bytes@, start as int, true, line_offsets@).1,
        ),
        start <= end <= top,
    decreases value, 2nat,
{
    let ghost b = bytes@;
    let ghost offs = line_offsets@;
    let ghost v = value@;
    let ghost total = map_members_spec(v, path@, b, start as int, true, offs);
    let ghost m0 = source_map@;
    let ghost mut done: Seq<(Seq<char>, SourceSpan)> = seq![];
    let mut pos = start;
    let mut first = true;
    assert(done + total.1 == total.1);
    proof {
        lemma_apply_inserts_push(m0, Seq::empty(), (Seq::empty(), SourceSpan { start: 0, end: 0, line: 0, column: 0 }));
    }
    while pos < bytes.len() && bytes[pos] != 125u8
        invariant
            b == bytes@,
            offs == line_offsets@,
            v == value@,
            value is Object,
            valid_line_table(offs),
            offs[0] == 0,
            b.len() + 5 <= top,
            b.len() + 1 + 5 * (json_size(v) - 1) <= top,
            top + 2 < usize::MAX,
            start <= pos <= top,
            map_members_spec(v, path@, b, pos as int, first, offs).0 == total.0,
            done + map_members_spec(v, path@, b, pos as int, first, offs).1 == total.1,
            source_map@ == apply_inserts(m0, done),
        decreases bytes_left(b, pos as int),
    {
        let ghost pos_before = pos;
        let ghost first_before = first;
        let (next, ins1) = map_member(value, path, bytes, pos, first, line_offsets, source_map, Ghost(top));
        proof {
            lemma_apply_inserts_concat(m0, done, ins1@);
            assert((done + ins1@) + map_members_spec(v, path@, b, next as int, false, offs).1 == done
                + (ins1@ + map_members_spec(v, path@, b, next as int, false, offs).1));
            done = done + ins1@;
        }
        pos = next;
        first = false;
    }
    proof {
        lemma_members_done(v, path@, b, pos as int, first, offs);
    }
    assert(done + Seq::<(Seq<char>, SourceSpan)>::empty() == done);
    pos
}

/// The key of one member of an object's member loop starting at `pos`, and the
/// position of its value.
fn read_member_key(bytes: &[u8], pos: usize, first: bool) -> (r: (String, usize))
    requires
        pos < bytes@.len(),
        bytes@.len() + 5 < usize::MAX,
    ensures
        ({
            let p0 = if first {
                pos as int
            } else {
                skip_ws_spec(bytes@, expect_spec(bytes@, pos as int, 44u8))
            };
            let (key, kend) = string_at(bytes@, p0);
            &&& r.0@ == key
            &&& r.1 == skip_ws_spec(bytes@, expect_spec(bytes@, skip_ws_spec(bytes@, kend), 58u8))
            &&& pos < kend <= r.1 <= bytes@.len() + 1
        }),
{
    let ghost b = bytes@;
    let mut p = pos;
    if !first {
        p = expect_byte(bytes, p, 44u8);
        proof {
            lemma_skip_ws_bounds(b, p as int);
        }
        p = skip_whitespace(bytes, p);
    }
    proof {
        lemma_scan_string_bounds(b, p + 1);
    }
    let (key, key_end) = parse_string_raw(bytes, p);
    proof {
        lemma_skip_ws_bounds(b, key_end as int);
    }
    p = skip_whitespace(bytes, key_end);
    p = expect_byte(bytes, p, 58u8);
    proof {
        lemma_skip_ws_bounds(b, p as int);
    }
    p = skip_whitespace(bytes, p);
    (key, p)
}

/// Walks the value of member `key` at `p1` when the object has such a member, else
/// skips the value.
#[verifier::rlimit(40)]
fn map_member_value(
    value: &JsonValue,
    path: &String,
    key: &String,
    bytes: &[u8],
    p1: usize,
    line_offsets: &[usize],
    source_map: &mut SourceMap,
    Ghost(top): Ghost<int>,
) -> (r: (usize, Ghost<Seq<(Seq<char>, SourceSpan)>>))
    requires
        value is Object,
        valid_line_table(line_offsets@),
        line_offsets@[0] == 0,
        p1 <= bytes@.len() + 1,
        bytes@.len() + 5 <= top,
        bytes@.len() + 1 + 5 * (json_size(value@) - 1) <= top,
        top + 2 < usize::MAX,
    ensures
        p1 <= r.0 <= top,
        ({
            let idx = member_index(value@->Object_0, key@);
            if 0 <= idx < value@->Object_0.len() {
                let cp = key_path(path@, key@);
                let sub = map_value_spec(value@->Object_0[idx].1, cp, bytes@, p1 as int, line_offsets@);
                &&& r.0 == sub.0
                &&& r.1@ == if cp.len() > 0 {
                    sub.1.push((cp, span_of(p1 as int, sub.0, line_offsets@)))
                } else {
                    sub.1
                }
            } else {
                &&& r.0 == value_end(bytes@, p1 as int)
                &&& r.1@ == Seq::<(Seq<char>, SourceSpan)>::empty()
            }
        }),
        final(source_map)@ == apply_inserts(old(source_map)@, r.1@),
    decreases value, 0nat,
{
    let ghost b = bytes@;
    let ghost offs = line_offsets@;
    let ghost v = value@;
    let entries = match value {
        JsonValue::Object(entries) => entries,
        _ => {
            proof {
                assert(false);
            }
            return (p1, Ghost(Seq::empty()));
        },
    };
    proof {
        lemma_object_view(value);
        lemma_apply_inserts_push(source_map@, Seq::empty(), (Seq::empty(), SourceSpan { start: 0, end: 0, line: 0, column: 0 }));
    }
    let found = find_member(entries, key);
    proof {
        match found {
            Some(i) => {
                lemma_member_index_first(v->Object_0, key@, i as int);
            },
            None => {
                lemma_member_index_first(v->Object_0, key@, -1);
            },
        }
    }
    match found {
        Some(i) => {
            proof {
                assert(decreases_to!(value => value->Object_0));
                assert(decreases_to!(value->Object_0 => (value->Object_0)@));
                assert(decreases_to!((value->Object_0)@ => (value->Object_0)@[i as int]));
                assert(decreases_to!((value->Object_0)@[i as int] => (value->Object_0)@[i as int].value));
                lemma_children_size(v, 0, i as int);
                assert(child(v, i as int) == entries@[i as int].value@);
            }
            let child_path = member_path(path, key);
            let ghost cmap = source_map@;
            let end = map_value(&entries[i].value, &child_path, bytes, p1, line_offsets, source_map);
            let ghost sub = map_value_spec(entries@[i as int].value@, child_path@, b, p1 as int, offs);
            if !child_path.as_str().is_empty() {
                let span = make_span(p1, end, line_offsets);
                source_map.insert(child_path, span);
                proof {
                    lemma_apply_inserts_push(cmap, sub.1, (key_path(path@, key@), span_of(p1 as int, end as int, offs)));
                }
                (end, Ghost(sub.1.push((key_path(path@, key@), span_of(p1 as int, end as int, offs)))))
            } else {
                (end, Ghost(sub.1))
            }
        },
        None => {
            proof {
                lemma_value_end_bounds(b, p1 as int);
            }
            (skip_json_value(bytes, p1), Ghost(Seq::empty()))
        },
    }
}

/// One `key: value` pair of an object's member loop, starting at `pos`.
#[verifier::spinoff_prover]
#[verifier::rlimit(100)]
fn map_member(
    value: &JsonValue,
    path: &String,
    bytes: &[u8],
    pos: usize,
    first: bool,
    line_offsets: &[usize],
    source_map: &mut SourceMap,
    Ghost(top): Ghost<int>,
) -> (r: (usize, Ghost<Seq<(Seq<char>, SourceSpan)>>))
    requires
        value is Object,
        valid_line_table(line_offsets@),
        line_offsets@[0] == 0,
        pos < bytes@.len(),
        bytes@[pos as int] != 125u8,
        bytes@.len() + 5 <= top,
        bytes@.len() + 1 + 5 * (json_size(value@) - 1) <= top,
        top + 2 < usize::MAX,
    ensures
        pos < r.0 <= top,
        map_members_spec(value@, path@, bytes@, pos as int, first, line_offsets@) == (
            map_members_spec(value@, path@, bytes@, r.0 as int, false, line_offsets@).0,
            r.1@ + map_members_spec(value@, path@, bytes@, r.0 as int, false, line_offsets@).1,
        ),
        final(source_map)@ == apply_inserts(old(source_map)@, r.1@),
    decreases value, 1nat,
{
    let ghost b = bytes@;
    let (key, p1) = read_member_key(bytes, pos, first);
    let (p2, ins1) = map_member_value(value, path, &key, bytes, p1, line_offsets, source_map, Ghost(top));
    proof {
        lemma_skip_ws_bounds(b, p2 as int);
    }
    let p = skip_whitespace(bytes, p2);
    proof {
        lemma_members_step(value@, path@, b, pos as int, first, line_offsets@, p2 as int, ins1@);
    }
    (p, ins1)
}

/// The element loop of an array whose opening bracket has been read; `start0` is
/// where the walk of the whole array began.
fn map_array_elements(
    value: &JsonValue,
    path: &String,
    bytes: &[u8],
    start: usize,
    line_offsets: &[usize],
    source_map: &mut SourceMap,
    Ghost(start0): Ghost<int>,
) -> (end: usize)
    requires
        value is Array,
        valid_line_table(line_offsets@),
        line_offsets@[0] == 0,
        0 <= start0,
        start <= (if start0 > bytes@.len() + 1 {
            start0
        } else {
            bytes@.len() + 1int
        }) + 1,
        reach(bytes@.len() as int, start0, value@) + 2 < usize::MAX,
    ensures
        end == map_elements_spec(value@, path@, bytes@, start as int, 0, line_offsets@).0,
        final(source_map)@ == apply_inserts(
            old(source_map)@,
            map_elements_spec(value@, path@, bytes@, start as int, 0, line_offsets@).1,
        ),
        start <= end <= reach(bytes@.len() as int, start0, value@) - 4,
    decreases value, 1nat,
{
    let ghost b = bytes@;
    let ghost offs = line_offsets@;
    let ghost v = value@;
    let ghost len = b.len() as int;
    let ghost base = if start0 > len + 1 {
        start0
    } else {
        len + 1
    };
    let ghost total = map_elements_spec(v, path@, b, start as int, 0, offs);
    let ghost m0 = source_map@;
    let ghost mut done: Seq<(Seq<char>, SourceSpan)> = seq![];
    let items = match value {
        JsonValue::Array(items) => items,
        _ => {
            proof {
                assert(false);
            }
            return start;
        },
    };
    proof {
        lemma_array_view(value);
    }
    let mut pos = start;
    let mut i: usize = 0;
    assert(done + total.1 == total.1);
    proof {
        lemma_apply_inserts_push(m0, Seq::empty(), (Seq::empty(), SourceSpan { start: 0, end: 0, line: 0, column: 0 }));
    }
    while i < items.len()
        invariant
            b == bytes@,
            offs == line_offsets@,
            v == value@,
            len == b.len(),
            *value == JsonValue::Array(*items),
            v is Array,
            v->Array_0.len() == items@.len(),
            forall|k: int| 0 <= k < items@.len() ==> #[trigger] v->Array_0[k] == items@[k]@,
            valid_line_table(offs),
            offs[0] == 0,
            i <= items.len(),
            base == (if start0 > len + 1 {
                start0
            } else {
                len + 1
            }),
            reach(len, start0, v) + 2 < usize::MAX,
            start <= pos <= base + 1 + 5 * (children_size(v, 0) - children_size(v, i as int)),
            map_elements_spec(v, path@, b, pos as int, i as nat, offs).0 == total.0,
            done + map_elements_spec(v, path@, b, pos as int, i as nat, offs).1 == total.1,
            source_map@ == apply_inserts(m0, done),
        decreases items.len() - i,
    {
        let ghost pos_before = pos;
        proof {
            lemma_children_size(v, 0, i as int);
            lemma_children_size_mono(v, 0, i as int);
            lemma_children_size_mono(v, 0, i + 1);
        }
        let (next, ins1) = map_element(value, items, path, bytes, pos, i, line_offsets, source_map, Ghost(base + 1 + 5 * (children_size(v, 0) - children_size(v, i as int))));
        proof {
            lemma_apply_inserts_concat(m0, done, ins1@);
            assert((done + ins1@) + map_elements_spec(v, path@, b, next as int, (i + 1) as nat, offs).1
                == done + (ins1@ + map_elements_spec(v, path@, b, next as int, (i + 1) as nat, offs).1));
            done = done + ins1@;
        }
        pos = next;
        i += 1;
    }
    proof {
        lemma_elements_done(v, path@, b, pos as int, i as nat, offs);
        assert(done + Seq::<(Seq<char>, SourceSpan)>::empty() == done);
        lemma_children_size_mono(v, 0, i as int);
    }
    pos
}

/// Element `i` of an array's element loop, starting at `pos`.
#[verifier::spinoff_prover]
#[verifier::rlimit(100)]
fn map_element(
    value: &JsonValue,
    items: &Vec<JsonValue>,
    path: &String,
    bytes: &[u8],
    pos: usize,
    i: usize,
    line_offsets: &[usize],
    source_map: &mut SourceMap,
    Ghost(hi): Ghost<int>,
) -> (r: (usize, Ghost<Seq<(Seq<char>, SourceSpan)>>))
    requires
        *value == JsonValue::Array(*items),
        i < items.len(),
        valid_line_table(line_offsets@),
        line_offsets@[0] == 0,
        pos <= hi,
        bytes@.len() + 1 <= hi,
        hi + 5 * json_size(items@[i as int]@) + 2 < usize::MAX,
    ensures
        pos <= r.0 <= hi + 5 * json_size(items@[i as int]@),
        map_elements_spec(value@, path@, bytes@, pos as int, i as nat, line_offsets@) == (
            map_elements_spec(value@, path@, bytes@, r.0 as int, (i + 1) as nat, line_offsets@).0,
            r.1@ + map_elements_spec(value@, path@, bytes@, r.0 as int, (i + 1) as nat, line_offsets@).1,
        ),
        final(source_map)@ == apply_inserts(old(source_map)@, r.1@),
    decreases value, 0nat,
{
    let ghost b = bytes@;
    let ghost offs = line_offsets@;
    let ghost v = value@;
    proof {
        lemma_array_view(value);
    }
    let mut p = pos;
    if i > 0 {
        p = expect_byte(bytes, p, 44u8);
        proof {
            lemma_skip_ws_bounds(b, p as int);
        }
        p = skip_whitespace(bytes, p);
    }
    let ghost p0 = p;
    proof {
        assert(decreases_to!(value => value->Array_0));
        assert(decreases_to!(value->Array_0 => (value->Array_0)@));
        assert(decreases_to!((value->Array_0)@ => (value->Array_0)@[i as int]));
    }
    let child_path = element_path(path, i);
    let value_start = p;
    let ghost cmap = source_map@;
    p = map_value(&items[i], &child_path, bytes, p, line_offsets, source_map);
    let ghost sub = map_value_spec(items@[i as int]@, child_path@, b, p0 as int, offs);
    let span = make_span(value_start, p, line_offsets);
    source_map.insert(child_path, span);
    let ghost ins1 = sub.1.push((index_path(path@, i as nat), span_of(p0 as int, p as int, offs)));
    proof {
        lemma_apply_inserts_push(cmap, sub.1, (index_path(path@, i as nat), span_of(p0 as int, p as int, offs)));
        lemma_skip_ws_bounds(b, p as int);
    }
    p = skip_whitespace(bytes, p);
    proof {
        lemma_elements_step(v, path@, b, pos as int, i as nat, offs);
    }
    (p, Ghost(ins1))
}

// ----------------------------------------------------------------------------
// Parsing, and the source map of a document
// ----------------------------------------------------------------------------
/// Error from JSON parsing
#[derive(Debug)]
pub enum JsonError {
    Parse(String),
}

impl JsonError {
    /// The error's message: `JSON parse error: ` and the parser's own message.
    pub fn message(&self) -> (m: String)
        ensures
            m@ == "JSON parse error: "@ + self->Parse_0@,
    {
        match self {
            JsonError::Parse(detail) => {
                let mut m = crate::text::string_of("JSON parse error: ");
                m.append(detail.as_str());
                m
            },
        }
    }
}

/// What `serde_json::from_str::<serde_json::Value>` gives for a text: the value, or
/// the text of its error.
pub uninterp spec fn serde_json_parse(text: Seq<char>) -> Result<JsonView, Seq<char>>;

/// `serde_json::from_str::<serde_json::Value>`: parses JSON text. The outcome is
/// the name `serde_json_parse` of the text: the parsed value, or the `Display` text
/// of serde_json's error. Which texts it accepts is not stated.
#[verifier::external_body]
fn parse_with_serde_json(src: &str) -> (r: Result<JsonValue, String>)
    ensures
        match r {
            Ok(v) => serde_json_parse(src@) == Ok::<JsonView, Seq<char>>(v@),
            Err(e) => serde_json_parse(src@) == Err::<JsonView, Seq<char>>(e@),
        },
{
    match serde_json::from_str::<serde_json::Value>(src) {
        Ok(v) => Ok(from_serde(&v)),
        Err(e) => Err(e.to_string()),
    }
}

/// Parse JSON text into a value.
pub fn parse_json(src: &str) -> (r: Result<JsonValue, JsonError>)
    ensures
        match r {
            Ok(v) => serde_json_parse(src@) == Ok::<JsonView, Seq<char>>(v@),
            Err(JsonError::Parse(e)) => serde_json_parse(src@) == Err::<JsonView, Seq<char>>(e@),
        },
{
    match parse_with_serde_json(src) {
        Ok(v) => Ok(v),
        Err(e) => Err(JsonError::Parse(e)),
    }
}

/// The message for a document whose byte positions cannot all be held in a `usize`
/// while its values are located.
pub open spec fn too_large_message() -> Seq<char> {
    "document too large to locate its values"@
}

/// Whether the positions that the walk of `v` over `len` bytes can reach (at most
/// five bytes past the end of the source for every value) fit well inside a `usize`.
pub open spec fn locatable(len: nat, v: JsonView) -> bool {
    len + 8 < usize::MAX && json_size(v) < (usize::MAX - 8 - len) as int / 5
}

/// The source map of a value parsed from the bytes `b`: every (path, span) pair that
/// the walk from the start of the document records, later pairs replacing earlier
/// ones of the same path.
pub open spec fn json_source_map(v: JsonView, b: Seq<u8>) -> Map<Seq<char>, SourceSpan> {
    apply_inserts(
        Map::empty(),
        map_value_spec(v, Seq::empty(), b, 0, line_offsets_of(b)).1,
    )
}

/// Every span that the source map of a JSON document records carries the line and
/// column of its own start.
pub proof fn law_json_spans_located(v: JsonView, b: Seq<u8>)
    ensures
        forall|p: Seq<char>|
            #[trigger] json_source_map(v, b).dom().contains(p) ==> json_source_map(v, b)[p] == span_at(
                json_source_map(v, b)[p].start,
                json_source_map(v, b)[p].end,
                line_offsets_of(b),
            ),
{
    let offs = line_offsets_of(b);
    lemma_value_located(v, Seq::empty(), b, 0, offs);
    lemma_apply_located(Map::empty(), map_value_spec(v, Seq::empty(), b, 0, offs).1, offs);
}

/// Parse a JSON string into a value and a source map that maps
/// JSON paths back to byte offsets (and line/column) in the JSON source.
pub fn json_with_source_map(json_src: &str) -> (r: Result<(JsonValue, SourceMap), JsonError>)
    ensures
        match serde_json_parse(json_src@) {
            Err(e) => r matches Err(JsonError::Parse(m)) && m@ == e,
            Ok(v) => if locatable(json_src.spec_bytes().len(), v) {
                r matches Ok((value, map)) && value@ == v && map@ == json_source_map(
                    v,
                    json_src.spec_bytes(),
                )
            } else {
                r matches Err(JsonError::Parse(m)) && m@ == too_large_message()
            },
        },
{
    let value = match parse_with_serde_json(json_src) {
        Ok(v) => v,
        Err(e) => {
            return Err(JsonError::Parse(e));
        },
    };
    let bytes = json_src.as_bytes();
    let fits = match node_count(&value) {
        Some(n) => bytes.len() < usize::MAX - 8 && n < (usize::MAX - 8 - bytes.len()) / 5,
        None => false,
    };
    if !fits {
        return Err(JsonError::Parse(crate::text::string_of("document too large to locate its values")));
    }
    let line_offsets = build_line_offsets(json_src);
    proof {
        lemma_line_offsets_valid(bytes@);
        let x = (usize::MAX - 8 - bytes@.len()) as int;
        assert(5 * (x / 5) <= x) by (nonlinear_arith)
            requires
                x >= 0,
        ;
    }
    let mut source_map = SourceMap::new();
    let root = String::new();
    map_value(&value, &root, bytes, 0, line_offsets.as_slice(), &mut source_map);
    Ok((value, source_map))
}

// ----------------------------------------------------------------------------
// Every value that a path finds has its path recorded
// ----------------------------------------------------------------------------
/// The walk over the bytes `b` reads the value `v` back from them: in the text it
/// meets every member of every object under its key and every element of every
/// array, and reads each of their values back in turn. This is the link between a
/// text and its value that locating the value's parts needs; `serde_json_parse`
/// only names what the parser makes of a text.
pub open spec fn json_reads_back(v: JsonView, b: Seq<u8>) -> bool {
    value_reads(v, Seq::empty(), b, 0, line_offsets_of(b))
}

/// Match `m` is read back from position `s` of the text of `v`, and the walk of the
/// whole text records all that the walk of `m` from there records, and the path of
/// `m` when that is not empty.
spec fn read_at(v: JsonView, b: Seq<u8>, m: (JsonView, Seq<char>), s: int) -> bool {
    let offs = line_offsets_of(b);
    let all = map_value_spec(v, Seq::empty(), b, 0, offs).1;
    &&& value_reads(m.0, m.1, b, s, offs)
    &&& included(map_value_spec(m.0, m.1, b, s, offs).1, all)
    &&& m.1.len() > 0 ==> has_path(all, m.1)
}

spec fn read_in(v: JsonView, b: Seq<u8>, m: (JsonView, Seq<char>)) -> bool {
    exists|s: int| #[trigger] read_at(v, b, m, s)
}

/// One step from a match that is read back yields matches that are read back.
proof fn lemma_step_read(v: JsonView, b: Seq<u8>, m: (JsonView, Seq<char>), s: int, seg: SegmentView)
    requires
        read_at(v, b, m, s),
    ensures
        forall|k: int| 0 <= k < step_match(m, seg).len() ==> read_in(v, b, #[trigger] step_match(m, seg)[k]),
{
    let offs = line_offsets_of(b);
    let all = map_value_spec(v, Seq::empty(), b, 0, offs).1;
    let out = step_match(m, seg);
    lemma_value_reads_parts(m.0, m.1, b, s, offs);
    let inner = skip_ws_spec(b, skip_ws_spec(b, s) + 1);
    let mine = map_value_spec(m.0, m.1, b, s, offs).1;
    assert forall|k: int| 0 <= k < out.len() implies read_in(v, b, #[trigger] out[k]) by {
        match seg {
            SegmentView::Field(name) => {
                assert(out == match member(m.0, name) {
                    Some(c) => seq![(c, key_path(m.1, name))],
                    None => Seq::<(JsonView, Seq<char>)>::empty(),
                });
                assert(member(m.0, name) is Some);
                let es = m.0->Object_0;
                let idx = member_index(es, name);
                assert(m.0 is Object);
                assert(idx >= 0);
                lemma_member_index_key(es, name);
                assert(members_found(m.0, m.1, b, inner, true, offs).contains(es[idx].0));
                let q = lemma_members_find(m.0, m.1, b, inner, true, offs, name);
                let cp = key_path(m.1, name);
                let mem = map_members_spec(m.0, m.1, b, inner, true, offs).1;
                let sub = map_value_spec(es[idx].1, cp, b, q, offs).1;
                lemma_included_trans(sub, mem, mine);
                lemma_included_trans(sub, mine, all);
                if cp.len() > 0 {
                    lemma_included_has_path(mem, mine, cp);
                    lemma_included_has_path(mine, all, cp);
                }
                assert(out[k] == (es[idx].1, cp));
                assert(read_at(v, b, out[k], q));
            },
            SegmentView::Wildcard => {
                let xs = m.0->Array_0;
                assert(m.0 is Array && 0 <= k < xs.len());
                let q = lemma_elements_find(m.0, m.1, b, inner, 0, offs, k);
                let cp = index_path(m.1, k as nat);
                let els = map_elements_spec(m.0, m.1, b, inner, 0, offs).1;
                let sub = map_value_spec(xs[k], cp, b, q, offs).1;
                lemma_included_trans(sub, els, mine);
                lemma_included_trans(sub, mine, all);
                lemma_included_has_path(els, mine, cp);
                lemma_included_has_path(mine, all, cp);
                assert(out[k] == (xs[k], cp));
                assert(read_at(v, b, out[k], q));
            },
            SegmentView::Index(n) => {
                let xs = m.0->Array_0;
                let j = n as int;
                assert(m.0 is Array && 0 <= j < xs.len());
                let q = lemma_elements_find(m.0, m.1, b, inner, 0, offs, j);
                let cp = index_path(m.1, n);
                let els = map_elements_spec(m.0, m.1, b, inner, 0, offs).1;
                let sub = map_value_spec(xs[j], cp, b, q, offs).1;
                lemma_included_trans(sub, els, mine);
                lemma_included_trans(sub, mine, all);
                lemma_included_has_path(els, mine, cp);
                lemma_included_has_path(mine, all, cp);
                assert(out[k] == (xs[j], cp));
                assert(read_at(v, b, out[k], q));
            },
        }
    }
}

/// A step from matches that are read back yields matches that are read back.
proof fn lemma_step_all_read(v: JsonView, b: Seq<u8>, ms: Seq<(JsonView, Seq<char>)>, seg: SegmentView)
    requires
        forall|k: int| 0 <= k < ms.len() ==> read_in(v, b, #[trigger] ms[k]),
    ensures
        forall|k: int| 0 <= k < step_all(ms, seg).len() ==> read_in(v, b, #[trigger] step_all(ms, seg)[k]),
    decreases ms.len(),
{
    if ms.len() > 0 {
        let front = ms.drop_last();
        assert forall|k: int| 0 <= k < front.len() implies read_in(v, b, #[trigger] front[k]) by {
            assert(front[k] == ms[k]);
        }
        lemma_step_all_read(v, b, front, seg);
        let last = ms[ms.len() - 1];
        assert(read_in(v, b, last));
        let s = choose|s: int| #[trigger] read_at(v, b, last, s);
        lemma_step_read(v, b, last, s, seg);
        let a = step_all(front, seg);
        let c = step_match(last, seg);
        assert(step_all(ms, seg) == a + c);
        assert forall|k: int| 0 <= k < (a + c).len() implies read_in(v, b, #[trigger] (a + c)[k]) by {
            if k < a.len() {
                assert((a + c)[k] == a[k]);
            } else {
                assert((a + c)[k] == c[k - a.len()]);
            }
        }
    }
}

/// Every match of a path in a value that its text reads back is read back.
proof fn lemma_eval_read(v: JsonView, b: Seq<u8>, segs: Seq<SegmentView>)
    requires
        json_reads_back(v, b),
    ensures
        forall|k: int| 0 <= k < eval_path(segs, v).len() ==> read_in(v, b, #[trigger] eval_path(segs, v)[k]),
    decreases segs.len(),
{
    if segs.len() == 0 {
        let m = (v, Seq::<char>::empty());
        lemma_included_refl(map_value_spec(v, Seq::empty(), b, 0, line_offsets_of(b)).1);
        assert(read_at(v, b, m, 0));
        assert(eval_path(segs, v) == seq![m]);
    } else {
        lemma_eval_read(v, b, segs.drop_last());
        lemma_step_all_read(v, b, eval_path(segs.drop_last(), v), segs.last());
    }
}

/// Every value that a path finds in a JSON document, but the document itself, has
/// its path recorded in the document's source map, when the document's text reads
/// the value back.
pub proof fn law_json_paths_recorded(v: JsonView, b: Seq<u8>, segs: Seq<SegmentView>)
    requires
        json_reads_back(v, b),
    ensures
        forall|k: int|
            0 <= k < eval_path(segs, v).len() && eval_path(segs, v)[k].1.len() > 0
                ==> json_source_map(v, b).dom().contains(#[trigger] eval_path(segs, v)[k].1),
{
    let ms = eval_path(segs, v);
    let all = map_value_spec(v, Seq::empty(), b, 0, line_offsets_of(b)).1;
    lemma_eval_read(v, b, segs);
    assert forall|k: int| 0 <= k < ms.len() && ms[k].1.len() > 0 implies json_source_map(
        v,
        b,
    ).dom().contains(#[trigger] ms[k].1) by {
        assert(read_in(v, b, ms[k]));
        let s = choose|s: int| #[trigger] read_at(v, b, ms[k], s);
        assert(has_path(all, ms[k].1));
        lemma_apply_has_path(Map::empty(), all, ms[k].1);
    }
}

/// Every path that the source map of a JSON document records is the path of a value
/// of the document, not the document itself, that some path finds.
pub proof fn law_json_recorded_paths_found(v: JsonView, b: Seq<u8>)
    ensures
        forall|p: Seq<char>|
            #[trigger] json_source_map(v, b).dom().contains(p) ==> p.len() > 0 && found_path(v, p),
{
    let offs = line_offsets_of(b);
    let ins = map_value_spec(v, Seq::empty(), b, 0, offs).1;
    assert(eval_path(Seq::<SegmentView>::empty(), v) == seq![(v, Seq::<char>::empty())]);
    assert(sole_match(v, v, Seq::empty()));
    lemma_value_paths(v, v, Seq::empty(), b, 0, offs);
    assert forall|p: Seq<char>| #[trigger] json_source_map(v, b).dom().contains(p) implies p.len() > 0
        && found_path(v, p) by {
        lemma_apply_dom(Map::empty(), ins, p);
        let j = choose|j: int| 0 <= j < ins.len() && #[trigger] ins[j].0 == p;
        assert(paths_found(v, ins));
        assert(ins[j].0.len() > 0 && found_path(v, ins[j].0));
    }
}

/// The paths that the source map of a JSON document records are exactly the paths
/// of the values of the document, but the document itself, that some path finds,
/// when the document's text reads its value back.
pub proof fn law_json_source_map_paths(v: JsonView, b: Seq<u8>)
    requires
        json_reads_back(v, b),
    ensures
        forall|p: Seq<char>|
            #[trigger] json_source_map(v, b).dom().contains(p) <==> p.len() > 0 && found_path(v, p),
{
    law_json_recorded_paths_found(v, b);
    assert forall|p: Seq<char>| p.len() > 0 && found_path(v, p) implies #[trigger] json_source_map(
        v,
        b,
    ).dom().contains(p) by {
        let (segs, k) = choose|segs: Seq<SegmentView>, k: int|
            0 <= k < eval_path(segs, v).len() && (#[trigger] eval_path(segs, v)[k]).1 == p;
        law_json_paths_recorded(v, b, segs);
        assert(eval_path(segs, v)[k].1 == p);
    }
}

/// The walk of a number value ends where the number's JSON text ends, so the span
/// recorded for it covers exactly that text and the walk goes on right after it.
pub proof fn law_number_walk_ends_with_text(
    v: JsonView,
    path: Seq<char>,
    b: Seq<u8>,
    start: int,
    offs: Seq<usize>,
    sign: Seq<u8>,
    int_part: Seq<u8>,
    frac: Seq<u8>,
    exp: Seq<u8>,
)
    requires
        v is Number,
        sign == Seq::<u8>::empty() || sign == seq![45u8],
        number_int_part(int_part),
        number_fraction(frac),
        number_exponent(exp),
        0 <= skip_ws_spec(b, start),
        skip_ws_spec(b, start) + (sign + int_part + frac + exp).len() <= b.len(),
        b.subrange(skip_ws_spec(b, start), skip_ws_spec(b, start) + (sign + int_part + frac + exp).len())
            == sign + int_part + frac + exp,
        skip_ws_spec(b, start) + (sign + int_part + frac + exp).len() == b.len() || value_follower(
            b[skip_ws_spec(b, start) + (sign + int_part + frac + exp).len()],
        ),
    ensures
        map_value_spec(v, path, b, start, offs).0 == skip_ws_spec(b, start) + (sign + int_part + frac
            + exp).len(),
        map_value_spec(v, path, b, start, offs).1 == Seq::<(Seq<char>, SourceSpan)>::empty(),
{
    lemma_value_scalar(v, path, b, start, offs);
    law_number_end_spans_number(b, skip_ws_spec(b, start), sign, int_part, frac, exp);
}

} // verus!
