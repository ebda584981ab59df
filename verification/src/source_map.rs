//! Source locations of values in a document, and the line table that turns byte
//! offsets into 1-based line and column numbers.
use vstd::prelude::*;
use vstd::string::StringSliceAdditionalSpecFns;

verus! {

/// A source location in a document (JSON, TOML, etc.)
#[derive(Debug, Clone, Copy, PartialEq, Eq)]
pub struct SourceSpan {
    /// Byte offset of the start of the value
    pub start: usize,
    /// Byte offset of the end of the value (exclusive)
    pub end: usize,
    /// 1-indexed line number
    pub line: usize,
    /// 1-indexed column number
    pub column: usize,
}

/// Maps JSON paths (e.g. "users[0].name") to their source location.
///
/// Each path occurs at most once; inserting a path that is already present
/// replaces its span.
pub struct SourceMap {
    entries: Vec<(String, SourceSpan)>,
}

/// No path occurs twice among the entries.
pub open spec fn keys_distinct(entries: Seq<(String, SourceSpan)>) -> bool {
    forall|i: int, j: int|
        0 <= i < entries.len() && 0 <= j < entries.len() && i != j ==> entries[i].0@
            != entries[j].0@
}

impl SourceMap {
    #[verifier::type_invariant]
    spec fn inv(self) -> bool {
        keys_distinct(self.entries@)
    }

    /// The entries of the map, in insertion order of their first insertion.
    pub closed spec fn entries(self) -> Seq<(String, SourceSpan)> {
        self.entries@
    }

    /// The index of the entry for `key`, if any.
    pub closed spec fn index_of(self, key: Seq<char>) -> int {
        choose|i: int| 0 <= i < self.entries@.len() && self.entries@[i].0@ == key
    }
}

impl View for SourceMap {
    type V = Map<Seq<char>, SourceSpan>;

    closed spec fn view(&self) -> Map<Seq<char>, SourceSpan> {
        Map::new(
            |k: Seq<char>| exists|i: int| 0 <= i < self.entries@.len() && self.entries@[i].0@ == k,
            |k: Seq<char>| self.entries@[self.index_of(k)].1,
        )
    }
}

impl SourceMap {
    /// An empty source map.
    pub fn new() -> (m: SourceMap)
        ensures
            m@ == Map::<Seq<char>, SourceSpan>::empty(),
    {
        let m = SourceMap { entries: Vec::new() };
        assert(m@ =~= Map::<Seq<char>, SourceSpan>::empty());
        m
    }

    /// Position of the entry whose path equals `key`.
    fn find(&self, key: &String) -> (r: Option<usize>)
        ensures
            match r {
                Some(i) => i < self.entries@.len() && self.entries@[i as int].0@ == key@,
                None => !self@.dom().contains(key@),
            },
    {
        let mut i: usize = 0;
        while i < self.entries.len()
            invariant
                i <= self.entries@.len(),
                forall|j: int| 0 <= j < i ==> self.entries@[j].0@ != key@,
            decreases self.entries.len() - i,
        {
            if self.entries[i].0 == *key {
                return Some(i);
            }
            i += 1;
        }
        None
    }

    /// Records `span` for `key`, replacing any earlier span of the same path.
    pub fn insert(&mut self, key: String, span: SourceSpan)
        ensures
            final(self)@ == old(self)@.insert(key@, span),
    {
        proof {
            use_type_invariant(&*self);
        }
        let ghost before = self@;
        match self.find(&key) {
            Some(i) => {
                let ghost k = key@;
                let mut entries: Vec<(String, SourceSpan)> = Vec::new();
                std::mem::swap(&mut entries, &mut self.entries);
                entries.set(i, (key, span));
                std::mem::swap(&mut entries, &mut self.entries);
                proof {
                    assert forall|a: int, b: int|
                        0 <= a < self.entries@.len() && 0 <= b < self.entries@.len() && a
                            != b implies self.entries@[a].0@ != self.entries@[b].0@ by {
                        assert(self.entries@[a].0@ == old(self).entries@[a].0@);
                        assert(self.entries@[b].0@ == old(self).entries@[b].0@);
                    }
                }
                proof {
                    assert forall|k2: Seq<char>|
                        #![auto]
                        self@.dom().contains(k2) implies self@[k2] == before.insert(
                            k,
                            span,
                        )[k2] by {
                        let j = self.index_of(k2);
                        if k2 == k {
                            assert(self.entries@[i as int].0@ == k2);
                        } else {
                            assert(old(self).entries@[j].0@ == k2);
                        }
                    }
                    assert forall|k2: Seq<char>|
                        #![auto]
                        before.insert(k, span).dom().contains(k2) implies self@.dom().contains(
                            k2,
                        ) by {
                        if k2 == k {
                            assert(self.entries@[i as int].0@ == k2);
                        } else {
                            let j = old(self).index_of(k2);
                            assert(self.entries@[j].0@ == k2);
                        }
                    }
                    assert forall|k2: Seq<char>|
                        #![auto]
                        self@.dom().contains(k2) implies before.insert(k, span).dom().contains(
                            k2,
                        ) by {
                        let j = choose|j: int|
                            0 <= j < self.entries@.len() && self.entries@[j].0@ == k2;
                        if j != i {
                            assert(old(self).entries@[j].0@ == k2);
                        }
                    }
                    assert(self@ =~= before.insert(k, span));
                }
            },
            None => {
                let ghost k = key@;
                let mut entries: Vec<(String, SourceSpan)> = Vec::new();
                std::mem::swap(&mut entries, &mut self.entries);
                entries.push((key, span));
                std::mem::swap(&mut entries, &mut self.entries);
                proof {
                    let n = self.entries@.len() - 1;
                    assert forall|a: int, b: int|
                        0 <= a < self.entries@.len() && 0 <= b < self.entries@.len() && a
                            != b implies self.entries@[a].0@ != self.entries@[b].0@ by {
                        if a == n {
                            assert(!before.dom().contains(k));
                            assert(old(self).entries@[b].0@ != k);
                        } else if b == n {
                            assert(old(self).entries@[a].0@ != k);
                        }
                    }
                    assert forall|k2: Seq<char>|
                        #![auto]
                        self@.dom().contains(k2) implies self@[k2] == before.insert(
                            k,
                            span,
                        )[k2] by {
                        let j = self.index_of(k2);
                        if k2 == k {
                            assert(self.entries@[n].0@ == k2);
                        } else {
                            assert(old(self).entries@[j].0@ == k2);
                        }
                    }
                    assert forall|k2: Seq<char>|
                        #![auto]
                        before.insert(k, span).dom().contains(k2) implies self@.dom().contains(
                            k2,
                        ) by {
                        if k2 == k {
                            assert(self.entries@[n].0@ == k2);
                        } else {
                            let j = old(self).index_of(k2);
                            assert(self.entries@[j].0@ == k2);
                        }
                    }
                    assert(self@ =~= before.insert(k, span));
                }
            },
        }
    }

    /// The span recorded for `key`, if any.
    pub fn get(&self, key: &str) -> (r: Option<SourceSpan>)
        ensures
            r == (if self@.dom().contains(key@) {
                Some(self@[key@])
            } else {
                None
            }),
    {
        proof {
            use_type_invariant(self);
        }
        let k = crate::text::string_of(key);
        match self.find(&k) {
            Some(i) => {
                assert(self.index_of(key@) == i as int);
                Some(self.entries[i].1)
            },
            None => None,
        }
    }

    /// Whether a span is recorded for `key`.
    pub fn contains_key(&self, key: &str) -> (r: bool)
        ensures
            r == self@.dom().contains(key@),
    {
        self.get(key).is_some()
    }

    /// The number of recorded paths.
    pub fn len(&self) -> (n: usize)
        ensures
            n == self@.dom().len(),
    {
        proof {
            use_type_invariant(self);
            self.lemma_len();
        }
        self.entries.len()
    }

    proof fn lemma_len(&self)
        requires
            keys_distinct(self.entries@),
        ensures
            self@.dom().len() == self.entries@.len(),
            self@.dom().finite(),
    {
        let keys = self.entries@.map_values(|e: (String, SourceSpan)| e.0@);
        assert(keys.no_duplicates());
        assert(self@.dom() =~= keys.to_set()) by {
            assert forall|k: Seq<char>| self@.dom().contains(k) implies keys.to_set().contains(
                k,
            ) by {
                let i = choose|i: int| 0 <= i < self.entries@.len() && self.entries@[i].0@ == k;
                assert(keys[i] == k);
            }
            assert forall|k: Seq<char>| keys.to_set().contains(k) implies self@.dom().contains(
                k,
            ) by {
                let i = choose|i: int| 0 <= i < keys.len() && keys[i] == k;
                assert(self.entries@[i].0@ == k);
            }
        }
        keys.unique_seq_to_set();
    }
}

/// The start offsets of the lines of `bytes`: 0, then one past every newline byte
/// among the first `n` bytes.
pub open spec fn line_starts(bytes: Seq<u8>, n: nat) -> Seq<usize>
    decreases n,
{
    if n == 0 {
        seq![0usize]
    } else if bytes[n - 1] == 10u8 {
        line_starts(bytes, (n - 1) as nat).push(n as usize)
    } else {
        line_starts(bytes, (n - 1) as nat)
    }
}

/// The line table of a whole document.
pub open spec fn line_offsets_of(bytes: Seq<u8>) -> Seq<usize> {
    line_starts(bytes, bytes.len())
}

/// A line table: a non-empty, strictly increasing sequence of line starts.
pub open spec fn valid_line_table(offsets: Seq<usize>) -> bool {
    &&& offsets.len() > 0
    &&& forall|i: int, j: int| 0 <= i < j < offsets.len() ==> offsets[i] < offsets[j]
}

/// The 0-based index of the line that holds `offset`: the last line start at or
/// before it.
pub open spec fn line_index_of(offset: int, offsets: Seq<usize>) -> int {
    choose|k: int|
        0 <= k < offsets.len() && #[trigger] offsets[k] <= offset && (k + 1 == offsets.len() || offset
            < offsets[k + 1])
}

/// The 1-based (line, column) of `offset`.
pub open spec fn line_col(offset: int, offsets: Seq<usize>) -> (usize, usize) {
    let k = line_index_of(offset, offsets);
    ((k + 1) as usize, (offset - offsets[k] + 1) as usize)
}

proof fn lemma_line_starts(bytes: Seq<u8>, n: nat)
    requires
        n <= bytes.len(),
        n < usize::MAX,
    ensures
        line_starts(bytes, n).len() > 0,
        line_starts(bytes, n)[0] == 0,
        forall|i: int, j: int|
            0 <= i < j < line_starts(bytes, n).len() ==> line_starts(bytes, n)[i] < line_starts(
                bytes,
                n,
            )[j],
        forall|i: int| 0 <= i < line_starts(bytes, n).len() ==> line_starts(bytes, n)[i] <= n,
    decreases n,
{
    if n > 0 {
        lemma_line_starts(bytes, (n - 1) as nat);
        let prev = line_starts(bytes, (n - 1) as nat);
        if bytes[n - 1] == 10u8 {
            assert(line_starts(bytes, n) == prev.push(n as usize));
            assert forall|i: int, j: int|
                0 <= i < j < line_starts(bytes, n).len() implies line_starts(bytes, n)[i]
                < line_starts(bytes, n)[j] by {
                if j == prev.len() {
                    assert(prev[i] <= n - 1);
                } else {
                    assert(prev[i] < prev[j]);
                }
            }
        }
    }
}

/// The line table of any document is a valid line table.
pub proof fn lemma_line_offsets_valid(bytes: Seq<u8>)
    requires
        bytes.len() < usize::MAX,
    ensures
        valid_line_table(line_offsets_of(bytes)),
        line_offsets_of(bytes)[0] == 0,
        forall|i: int|
            0 <= i < line_offsets_of(bytes).len() ==> line_offsets_of(bytes)[i] <= bytes.len(),
{
    lemma_line_starts(bytes, bytes.len());
}

proof fn lemma_line_index_unique(offset: int, offsets: Seq<usize>, k: int)
    requires
        valid_line_table(offsets),
        0 <= k < offsets.len(),
        offsets[k] <= offset,
        k + 1 == offsets.len() || offset < offsets[k + 1],
    ensures
        line_index_of(offset, offsets) == k,
{
    let c = line_index_of(offset, offsets);
    assert(0 <= c < offsets.len() && offsets[c] <= offset && (c + 1 == offsets.len() || offset
        < offsets[c + 1]));
    if c < k {
        assert(offsets[c + 1] <= offsets[k]);
    } else if c > k {
        assert(offsets[k + 1] <= offsets[c]);
    }
}

/// Build a lookup table mapping line index to byte offset of the start of each line.
pub fn build_line_offsets(src: &str) -> (offsets: Vec<usize>)
    requires
        src.spec_bytes().len() < usize::MAX,
    ensures
        offsets@ == line_offsets_of(src.spec_bytes()),
{
    let bytes = src.as_bytes();
    let mut offsets: Vec<usize> = Vec::new();
    offsets.push(0);
    let mut i: usize = 0;
    while i < bytes.len()
        invariant
            i <= bytes@.len() < usize::MAX,
            bytes@ == src.spec_bytes(),
            offsets@ == line_starts(bytes@, i as nat),
        decreases bytes.len() - i,
    {
        if bytes[i] == 10u8 {
            offsets.push(i + 1);
        }
        i += 1;
    }
    offsets
}

/// Convert a byte offset to 1-indexed line and column numbers.
pub fn offset_to_line_col(offset: usize, line_offsets: &[usize]) -> (lc: (usize, usize))
    requires
        valid_line_table(line_offsets@),
        line_offsets@[0] <= offset < usize::MAX,
    ensures
        lc == line_col(offset as int, line_offsets@),
{
    // Binary search for the last line start that is at or before `offset`.
    let mut lo: usize = 0;
    let mut hi: usize = line_offsets.len();
    while lo + 1 < hi
        invariant
            valid_line_table(line_offsets@),
            0 <= lo < hi <= line_offsets@.len(),
            line_offsets@[lo as int] <= offset,
            hi == line_offsets@.len() || offset < line_offsets@[hi as int],
        decreases hi - lo,
    {
        let mid = lo + (hi - lo) / 2;
        if line_offsets[mid] <= offset {
            lo = mid;
        } else {
            hi = mid;
        }
    }
    proof {
        if lo + 1 < line_offsets@.len() {
            assert(hi == lo + 1);
        }
        lemma_line_index_unique(offset as int, line_offsets@, lo as int);
    }
    let col = offset - line_offsets[lo];
    (lo + 1, col + 1)
}

/// The span of a value from `start` to `end`, with the line and column of `start`.
pub open spec fn span_at(start: usize, end: usize, offsets: Seq<usize>) -> SourceSpan {
    SourceSpan {
        start,
        end,
        line: line_col(start as int, offsets).0,
        column: line_col(start as int, offsets).1,
    }
}

/// The span from `start` to `end`, located by the line table.
pub fn make_span(start: usize, end: usize, line_offsets: &[usize]) -> (span: SourceSpan)
    requires
        valid_line_table(line_offsets@),
        line_offsets@[0] <= start < usize::MAX,
    ensures
        span == span_at(start, end, line_offsets@),
{
    let (line, column) = offset_to_line_col(start, line_offsets);
    SourceSpan { start, end, line, column }
}

/// A line starts at column 1 of its own line: the `k`th line start lies on line
/// `k + 1`, column 1.
pub proof fn law_line_start_column_one(offsets: Seq<usize>, k: int)
    requires
        valid_line_table(offsets),
        0 <= k < offsets.len(),
    ensures
        line_col(offsets[k] as int, offsets) == ((k + 1) as usize, 1usize),
{
    lemma_line_index_unique(offsets[k] as int, offsets, k);
}

/// Later offsets are never on earlier lines.
pub proof fn law_lines_ordered(offsets: Seq<usize>, a: int, b: int)
    requires
        valid_line_table(offsets),
        offsets[0] <= a <= b,
    ensures
        line_index_of(a, offsets) <= line_index_of(b, offsets),
{
    lemma_line_index_exists(a, offsets);
    lemma_line_index_exists(b, offsets);
    let i = line_index_of(a, offsets);
    let j = line_index_of(b, offsets);
    if j < i {
        assert(offsets[j + 1] <= offsets[i]);
    }
}

proof fn lemma_line_index_exists(offset: int, offsets: Seq<usize>)
    requires
        valid_line_table(offsets),
        offsets[0] <= offset,
    ensures
        0 <= line_index_of(offset, offsets) < offsets.len(),
        offsets[line_index_of(offset, offsets)] <= offset,
        line_index_of(offset, offsets) + 1 == offsets.len() || offset < offsets[line_index_of(
            offset,
            offsets,
        ) + 1],
{
    let n = offsets.len() as int;
    if offsets[n - 1] <= offset {
        lemma_line_index_unique(offset, offsets, n - 1);
    } else {
        lemma_line_index_from(offset, offsets, 0);
    }
}

proof fn lemma_line_index_from(offset: int, offsets: Seq<usize>, k: int)
    requires
        valid_line_table(offsets),
        0 <= k < offsets.len(),
        offsets[k] <= offset < offsets[offsets.len() - 1],
    ensures
        0 <= line_index_of(offset, offsets) < offsets.len(),
        offsets[line_index_of(offset, offsets)] <= offset,
        line_index_of(offset, offsets) + 1 == offsets.len() || offset < offsets[line_index_of(
            offset,
            offsets,
        ) + 1],
    decreases offsets.len() - k,
{
    if offsets[k + 1] <= offset {
        lemma_line_index_from(offset, offsets, k + 1);
    } else {
        lemma_line_index_unique(offset, offsets, k);
    }
}

/// What a lookup gives back of an insertion: after `insert(key, span)`, `get(key)`
/// is `span`, and every other path keeps its span.
pub proof fn law_insert_then_get(m: Map<Seq<char>, SourceSpan>, key: Seq<char>, span: SourceSpan, other: Seq<char>)
    ensures
        m.insert(key, span).dom().contains(key),
        m.insert(key, span)[key] == span,
        other != key ==> (m.insert(key, span).dom().contains(other) == m.dom().contains(other)),
        other != key && m.dom().contains(other) ==> m.insert(key, span)[other] == m[other],
{
}

} // verus!
