//! Source files, the source map, and byte-offset spans.
//!
//! A [`SourceMap`] owns every [`Source`] the compiler has ingested; a
//! [`FileId`] is a stable cross-pass handle to one of them. A [`Span`] pairs
//! a file id with a half-open byte range — `lo` is inclusive, `hi` is
//! exclusive — over the file's text.

use vstd::prelude::*;
use vstd::string::*;
use vstd::utf8::*;

verus! {

/// Stable handle to one source file inside a [`SourceMap`].
#[derive(Clone, Copy, Debug, PartialEq, Eq, Hash, Structural)]
pub struct FileId(pub u32);

/// A half-open byte range inside the file identified by `file`.
#[derive(Clone, Copy, Debug, PartialEq, Eq, Hash, Structural)]
pub struct Span {
    /// The file this span refers to.
    pub file: FileId,
    /// Inclusive byte offset of the first character.
    pub lo: u32,
    /// Exclusive byte offset just past the last character.
    pub hi: u32,
}

/// The span from `lo` to `hi` of a file.
pub open spec fn span_at(file: FileId, lo: int, hi: int) -> Span {
    Span { file, lo: lo as u32, hi: hi as u32 }
}

/// The smallest span over two spans of one file; the first of two spans of different files.
pub open spec fn span_join(a: Span, b: Span) -> Span {
    if a.file != b.file {
        a
    } else {
        Span {
            file: a.file,
            lo: if a.lo <= b.lo { a.lo } else { b.lo },
            hi: if a.hi >= b.hi { a.hi } else { b.hi },
        }
    }
}

impl Span {
    /// Constructs a span. `lo <= hi` is required.
    pub fn new(file: FileId, lo: u32, hi: u32) -> (r: Span)
        requires
            lo <= hi,
        ensures
            r == (Span { file, lo, hi }),
    {
        Span { file, lo, hi }
    }

    /// A zero-width span at `lo` in `file`. Used for synthesized nodes.
    pub fn point(file: FileId, lo: u32) -> (r: Span)
        ensures
            r == (Span { file, lo, hi: lo }),
    {
        Span::new(file, lo, lo)
    }

    /// Widens `self` to cover both `self` and `other`. Both must refer to
    /// the same file; otherwise `self` is returned unchanged.
    pub fn join(self, other: Span) -> (r: Span)
        ensures
            r == span_join(self, other),
    {
        if self.file != other.file {
            return self;
        }
        let lo: u32 = if self.lo <= other.lo { self.lo } else { other.lo };
        let hi: u32 = if self.hi >= other.hi { self.hi } else { other.hi };
        Span { file: self.file, lo, hi }
    }
}

/// A joined span covers both of its parts where they lie in one file.
pub proof fn law_join_covers(a: Span, b: Span)
    requires
        a.file == b.file,
    ensures
        span_join(a, b).file == a.file,
        span_join(a, b).lo <= a.lo,
        span_join(a, b).lo <= b.lo,
        span_join(a, b).hi >= a.hi,
        span_join(a, b).hi >= b.hi,
        span_join(a, b) == span_join(b, a),
{
}

/// How many of the first `k` bytes are newlines.
pub open spec fn newlines(b: Seq<u8>, k: int) -> nat
    decreases k,
{
    if k <= 0 {
        0
    } else if k <= b.len() && b[k - 1] == 10 {
        newlines(b, k - 1) + 1
    } else {
        newlines(b, k - 1)
    }
}

/// Where the line that holds offset `k` starts: just past the last newline before it.
pub open spec fn line_start(b: Seq<u8>, k: int) -> int
    decreases k,
{
    if k <= 0 {
        0
    } else if k <= b.len() && b[k - 1] == 10 {
        k
    } else {
        line_start(b, k - 1)
    }
}

/// The offsets at which lines start, among the first `k` bytes.
pub open spec fn line_table(b: Seq<u8>, k: int) -> Seq<u32>
    decreases k,
{
    if k <= 0 {
        seq![0u32]
    } else if k <= b.len() && b[k - 1] == 10 {
        line_table(b, k - 1).push(k as u32)
    } else {
        line_table(b, k - 1)
    }
}

/// Whether line `line` (1-based) exists: there are `line - 1` newlines at least.
pub open spec fn has_line(b: Seq<u8>, line: int) -> bool {
    1 <= line <= newlines(b, b.len() as int) + 1
}

/// Whether the bytes from `lo` to `hi` are exactly line `line` (1-based), without its newline.
pub open spec fn is_line(b: Seq<u8>, line: int, lo: int, hi: int) -> bool {
    &&& 0 <= lo <= hi <= b.len()
    &&& newlines(b, lo) == line - 1
    &&& lo == 0 || b[lo - 1] == 10
    &&& hi == b.len() || b[hi] == 10
    &&& forall|i: int| lo <= i < hi ==> b[i] != 10
}

/// Whether some bytes are those of line `line`, without its newline.
pub open spec fn line_is(b: Seq<u8>, line: int, part: Seq<u8>) -> bool {
    exists|lo: int, hi: int| #[trigger] is_line(b, line, lo, hi) && part == b.subrange(lo, hi)
}

/// One source file: a logical name and its text.
#[derive(Clone, Debug)]
pub struct Source {
    /// Logical path or name — used in diagnostics, not opened on disk.
    pub name: String,
    /// File text. Byte offsets in spans index into this string.
    pub text: String,
    /// Cumulative line-start offsets; index `i` is the byte offset of
    /// the start of line `i + 1` (line numbers are 1-based).
    pub line_starts: Vec<u32>,
}

proof fn lemma_table(b: Seq<u8>, k: int)
    requires
        0 <= k <= b.len() <= u32::MAX,
    ensures
        line_table(b, k).len() == newlines(b, k) + 1,
        line_table(b, k)[0] == 0,
        newlines(b, k) <= k,
        line_table(b, k).last() == line_start(b, k),
        0 <= line_start(b, k) <= k,
        forall|i: int| 0 < i < line_table(b, k).len() ==> 0 < (#[trigger] line_table(b, k)[i]) <= k && b[line_table(b, k)[i] - 1] == 10,
        forall|i: int| 0 <= i < line_table(b, k).len() ==> newlines(b, #[trigger] line_table(b, k)[i] as int) == i,
        forall|i: int, j: int| 0 <= i < j < line_table(b, k).len() ==> line_table(b, k)[i] < line_table(b, k)[j],
    decreases k,
{
    if k > 0 {
        lemma_table(b, k - 1);
    }
}

proof fn lemma_newlines_mono(b: Seq<u8>, i: int, j: int)
    requires
        i <= j,
    ensures
        newlines(b, i) <= newlines(b, j),
        newlines(b, i) == newlines(b, j) ==> forall|k: int| 0 <= i <= k < j && k < b.len() ==> b[k] != 10,
    decreases j - i,
{
    if i < j {
        lemma_newlines_mono(b, i, j - 1);
        if newlines(b, i) == newlines(b, j) {
            assert forall|k: int| 0 <= i <= k < j && k < b.len() implies b[k] != 10 by {
                if k == j - 1 {
                }
            }
        }
    }
}

/// There are no more newlines than bytes.
pub proof fn lemma_newlines_bound(b: Seq<u8>, k: int)
    requires
        0 <= k,
    ensures
        newlines(b, k) <= k,
    decreases k,
{
    if k > 0 {
        lemma_newlines_bound(b, k - 1);
    }
}

/// Offsets past the end see every newline.
proof fn lemma_past_end(b: Seq<u8>, k: int)
    requires
        k >= b.len(),
    ensures
        newlines(b, k) == newlines(b, b.len() as int),
        line_start(b, k) == line_start(b, b.len() as int),
    decreases k,
{
    if k > b.len() {
        lemma_past_end(b, k - 1);
    }
}

proof fn lemma_line_start(b: Seq<u8>, k: int, s: int)
    requires
        0 <= s <= k,
        s == 0 || (s <= b.len() && b[s - 1] == 10),
        newlines(b, s) == newlines(b, k),
    ensures
        line_start(b, k) == s,
    decreases k,
{
    lemma_newlines_mono(b, s, k);
    if k > s {
        lemma_newlines_mono(b, s, k - 1);
        lemma_newlines_mono(b, k - 1, k);
        lemma_line_start(b, k - 1, s);
    }
}

proof fn lemma_boundary_after_ascii(b: Seq<u8>, i: int)
    requires
        valid_utf8(b),
        0 <= i < b.len(),
        is_char_boundary(b, i),
        b[i] < 0x80,
    ensures
        is_char_boundary(b, i + 1),
    decreases b.len(),
{
    reveal_with_fuel(is_char_boundary, 2);
    if i > 0 {
        let n = length_of_first_scalar(b);
        assert(is_char_boundary(pop_first_scalar(b), i - n));
        assert(i >= n);
        lemma_boundary_after_ascii(pop_first_scalar(b), i - n);
    }
}

proof fn lemma_boundary_inside(b: Seq<u8>, lo: int, hi: int)
    requires
        valid_utf8(b),
        0 <= lo <= hi <= b.len(),
        is_char_boundary(b, lo),
        is_char_boundary(b, hi),
    ensures
        is_char_boundary(b.subrange(lo, b.len() as int), hi - lo),
{
    let t = b.subrange(lo, b.len() as int);
    valid_utf8_split(b, lo);
    if hi == b.len() {
        is_char_boundary_start_end_of_seq(t);
    } else {
        is_char_boundary_iff_not_is_continuation_byte(b, hi);
        is_char_boundary_iff_not_is_continuation_byte(t, hi - lo);
    }
}

/// The part of a string between two character boundaries.
fn str_part(s: &str, lo: usize, hi: usize) -> (r: &str)
    requires
        lo <= hi <= s.spec_bytes().len(),
        is_char_boundary(s.spec_bytes(), lo as int),
        is_char_boundary(s.spec_bytes(), hi as int),
    ensures
        r.spec_bytes() == s.spec_bytes().subrange(lo as int, hi as int),
{
    let ghost b = s.spec_bytes();
    let (_, rest) = s.split_at(lo);
    proof {
        encode_utf8_valid_utf8(s@);
        lemma_boundary_inside(b, lo as int, hi as int);
    }
    let (part, _) = rest.split_at(hi - lo);
    assert(part.spec_bytes() =~= b.subrange(lo as int, hi as int));
    part
}

impl Source {
    /// The bytes of the text.
    pub open spec fn bytes(&self) -> Seq<u8> {
        encode_utf8(self.text@)
    }

    /// The line table fits the text, and offsets into the text fit `u32`.
    pub open spec fn wf(&self) -> bool {
        &&& self.bytes().len() <= u32::MAX
        &&& self.line_starts@ == line_table(self.bytes(), self.bytes().len() as int)
    }

    /// Constructs a [`Source`] and precomputes its line table.
    pub fn new(name: String, text: String) -> (r: Source)
        requires
            encode_utf8(text@).len() <= u32::MAX,
        ensures
            r.wf(),
            r.name == name,
            r.text == text,
    {
        let ghost b = encode_utf8(text@);
        let mut line_starts: Vec<u32> = Vec::new();
        line_starts.push(0);
        {
            let bytes = text.as_str().as_bytes();
            let mut i: usize = 0;
            assert(line_starts@ =~= line_table(b, 0));
            while i < bytes.len()
                invariant
                    bytes@ == b,
                    b.len() <= u32::MAX,
                    i <= b.len(),
                    line_starts@ == line_table(b, i as int),
                decreases bytes.len() - i,
            {
                if bytes[i] == 10 {
                    line_starts.push((i + 1) as u32);
                }
                i += 1;
            }
        }
        Source { name, text, line_starts }
    }

    /// The `(line, column)` 1-based location of `offset`.
    pub fn line_col(&self, offset: u32) -> (r: (u32, u32))
        requires
            self.wf(),
            offset < u32::MAX,
        ensures
            r.0 == newlines(self.bytes(), offset as int) + 1,
            r.1 == offset - line_start(self.bytes(), offset as int) + 1,
    {
        let ghost b = self.bytes();
        let n: usize = self.line_starts.len();
        let mut idx: usize = 1;
        proof {
            lemma_table(b, b.len() as int);
        }
        while idx < n && self.line_starts[idx] <= offset
            invariant
                1 <= idx <= n,
                n == self.line_starts@.len(),
                self.line_starts@[idx as int - 1] <= offset,
            ensures
                1 <= idx <= n,
                self.line_starts@[idx as int - 1] <= offset,
                idx == n || self.line_starts@[idx as int] > offset,
            decreases n - idx,
        {
            idx += 1;
        }
        let start: u32 = self.line_starts[idx - 1];
        proof {
            let t = line_table(b, b.len() as int);
            assert(newlines(b, t[idx as int - 1] as int) == idx - 1);
            lemma_newlines_mono(b, start as int, offset as int);
            if idx < n {
                assert(newlines(b, t[idx as int] as int) == idx);
                lemma_newlines_mono(b, offset as int, t[idx as int] - 1);
                assert(newlines(b, t[idx as int] as int) == newlines(b, t[idx as int] - 1) + 1);
            } else if offset < b.len() {
                lemma_newlines_mono(b, offset as int, b.len() as int);
            } else {
                lemma_past_end(b, offset as int);
            }
            assert(newlines(b, offset as int) == idx - 1);
            lemma_newlines_bound(b, offset as int);
            lemma_line_start(b, offset as int, start as int);
        }
        (idx as u32, offset - start + 1)
    }

    /// The full text of line `line` (1-based), without its trailing newline.
    pub fn line_text(&self, line: u32) -> (r: Option<&str>)
        requires
            self.wf(),
        ensures
            r is Some <==> has_line(self.bytes(), line as int),
            r is Some ==> line_is(self.bytes(), line as int, r->0.spec_bytes()),
    {
        let ghost b = self.bytes();
        proof {
            lemma_table(b, b.len() as int);
            encode_utf8_valid_utf8(self.text@);
            is_char_boundary_start_end_of_seq(b);
        }
        if line == 0 || line as usize > self.line_starts.len() {
            return None;
        }
        let start: usize = self.line_starts[line as usize - 1] as usize;
        let end: usize = if (line as usize) < self.line_starts.len() {
            self.line_starts[line as usize] as usize - 1
        } else {
            self.text.as_str().len()
        };
        proof {
            let t = line_table(b, b.len() as int);
            assert(newlines(b, t[line - 1] as int) == line - 1);
            if start > 0 {
                is_char_boundary_iff_not_is_continuation_byte(b, start - 1);
                lemma_boundary_after_ascii(b, start - 1);
            }
            if line < t.len() {
                is_char_boundary_iff_not_is_continuation_byte(b, end as int);
                assert(newlines(b, t[line as int] as int) == line);
                assert(newlines(b, end + 1) == newlines(b, end as int) + 1);
                lemma_newlines_mono(b, start as int, end as int);
            } else {
                lemma_newlines_mono(b, start as int, end as int);
            }
            assert(is_line(b, line as int, start as int, end as int));
        }
        Some(str_part(self.text.as_str(), start, end))
    }
}

/// Owns every source file the compiler has ingested.
#[derive(Debug)]
pub struct SourceMap {
    files: Vec<Source>,
}

impl SourceMap {
    /// The files, in the order in which they were added.
    pub closed spec fn files(&self) -> Seq<Source> {
        self.files@
    }

    /// An empty source map.
    pub fn new() -> (r: SourceMap)
        ensures
            r.files() == Seq::<Source>::empty(),
    {
        SourceMap { files: Vec::new() }
    }

    /// Ingests a source, returning its stable id.
    pub fn add(&mut self, source: Source) -> (id: FileId)
        requires
            old(self).files().len() <= u32::MAX,
        ensures
            id.0 == old(self).files().len(),
            final(self).files() == old(self).files().push(source),
    {
        let id = FileId(self.files.len() as u32);
        self.files.push(source);
        id
    }

    /// Borrows a previously-added source by id.
    pub fn get(&self, id: FileId) -> (r: &Source)
        requires
            id.0 < self.files().len(),
        ensures
            *r == self.files()[id.0 as int],
    {
        &self.files[id.0 as usize]
    }

    /// The number of files in the map.
    pub fn len(&self) -> (r: usize)
        ensures
            r == self.files().len(),
    {
        self.files.len()
    }

    /// Whether the map is empty.
    pub fn is_empty(&self) -> (r: bool)
        ensures
            r == (self.files().len() == 0),
    {
        self.files.len() == 0
    }

    /// Borrows the text of `span`, which lies on character boundaries of a file of the map.
    pub fn text(&self, span: Span) -> (r: &str)
        requires
            span.file.0 < self.files().len(),
            span.lo <= span.hi <= self.files()[span.file.0 as int].bytes().len(),
            is_char_boundary(self.files()[span.file.0 as int].bytes(), span.lo as int),
            is_char_boundary(self.files()[span.file.0 as int].bytes(), span.hi as int),
        ensures
            r.spec_bytes() == self.files()[span.file.0 as int].bytes().subrange(span.lo as int, span.hi as int),
    {
        str_part(self.get(span.file).text.as_str(), span.lo as usize, span.hi as usize)
    }
}

impl Default for SourceMap {
    /// An empty source map.
    fn default() -> (r: SourceMap)
        ensures
            r.files() == Seq::<Source>::empty(),
    {
        SourceMap::new()
    }
}

/// A source keeps its id and its text for good: later additions leave it where it is.
pub proof fn law_ids_are_stable(before: Seq<Source>, added: Source, id: FileId)
    requires
        id.0 < before.len(),
    ensures
        before.push(added)[id.0 as int] == before[id.0 as int],
{
}

/// The first `k` parts, with a newline between each two.
pub open spec fn joined(parts: Seq<Seq<u8>>, k: int) -> Seq<u8>
    decreases k,
{
    if k <= 0 {
        Seq::empty()
    } else if k == 1 {
        parts[0]
    } else {
        joined(parts, k - 1).push(10u8) + parts[k - 1]
    }
}

/// A newline counts behind it.
proof fn lemma_one_start(b: Seq<u8>, x: int, y: int)
    requires
        0 <= x < y <= b.len(),
        b[y - 1] == 10,
    ensures
        newlines(b, x) < newlines(b, y),
{
    lemma_newlines_mono(b, x, y - 1);
}

proof fn lemma_joined(b: Seq<u8>, parts: Seq<Seq<u8>>, k: int) -> (hi: int)
    requires
        parts.len() == newlines(b, b.len() as int) + 1,
        forall|i: int| 0 <= i < parts.len() ==> line_is(b, i + 1, #[trigger] parts[i]),
        1 <= k <= parts.len(),
    ensures
        0 <= hi <= b.len(),
        newlines(b, hi) == k - 1,
        hi == b.len() || b[hi] == 10,
        joined(parts, k) == b.take(hi),
    decreases k,
{
    assert(line_is(b, k - 1 + 1, parts[k - 1]));
    let (lo, hi) = choose|lo: int, hi: int| #[trigger] is_line(b, k - 1 + 1, lo, hi) && parts[k - 1] == b.subrange(lo, hi);
    lemma_newlines_mono(b, lo, hi);
    assert(newlines(b, hi) == k - 1) by {
        lemma_no_newline(b, lo, hi);
    }
    if k == 1 {
        if lo > 0 {
            lemma_newlines_mono(b, 0, lo - 1);
        }
        assert(b.subrange(lo, hi) =~= b.take(hi));
    } else {
        let end = lemma_joined(b, parts, k - 1);
        if end == b.len() {
            lemma_newlines_mono(b, lo, b.len() as int);
        }
        assert(newlines(b, end + 1) == k - 1);
        if lo == 0 {
            lemma_newlines_mono(b, 0, end + 1);
        } else if lo < end + 1 {
            lemma_one_start(b, lo, end + 1);
        } else if lo > end + 1 {
            lemma_one_start(b, end + 1, lo);
        }
        assert(lo == end + 1);
        assert(b.take(end).push(10u8) + b.subrange(lo, hi) =~= b.take(hi));
    }
    hi
}

proof fn lemma_no_newline(b: Seq<u8>, lo: int, hi: int)
    requires
        0 <= lo <= hi <= b.len(),
        forall|i: int| lo <= i < hi ==> b[i] != 10,
    ensures
        newlines(b, hi) == newlines(b, lo),
    decreases hi - lo,
{
    if lo < hi {
        lemma_no_newline(b, lo, hi - 1);
    }
}

/// The lines of a text, with newlines between them, are the text; no line holds a newline.
pub proof fn law_lines_make_the_text(b: Seq<u8>, parts: Seq<Seq<u8>>)
    requires
        parts.len() == newlines(b, b.len() as int) + 1,
        forall|i: int| 0 <= i < parts.len() ==> line_is(b, i + 1, #[trigger] parts[i]),
    ensures
        joined(parts, parts.len() as int) == b,
        forall|i: int| 0 <= i < parts.len() ==> !(#[trigger] parts[i]).contains(10u8),
{
    let hi = lemma_joined(b, parts, parts.len() as int);
    if hi < b.len() {
        lemma_newlines_mono(b, hi + 1, b.len() as int);
    }
    assert(b.take(hi) =~= b);
    assert forall|i: int| 0 <= i < parts.len() implies !(#[trigger] parts[i]).contains(10u8) by {
        assert(line_is(b, i + 1, parts[i]));
        let (lo, end) = choose|lo: int, end: int| #[trigger] is_line(b, i + 1, lo, end) && parts[i] == b.subrange(lo, end);
        if parts[i].contains(10u8) {
            let k = choose|k: int| 0 <= k < parts[i].len() && parts[i][k] == 10;
            assert(b[lo + k] == 10);
        }
    }
}

} // verus!
