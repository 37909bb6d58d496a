//! Byte spans, with and without a source identifier, and scalar positions.

use crate::encodings::{utf8_advance, utf8_count, ByteWiseEncoding, StringEncoding, Utf8};
use crate::filesystem::{FileSystem, SourceView};
use crate::lines_columns_indexes::{
    lemma_line_of_properties, lemma_line_start_after_newline, lemma_line_starts_len,
    lemma_line_starts_wf, line_of, line_starts_spec,
};
use crate::source_id::SourceId;
use vstd::prelude::*;
use vstd::string::StringSliceAdditionalSpecFns;
use vstd::utf8::{encode_utf8, is_char_boundary, valid_utf8};

verus! {

/// The UTF-8 bytes of the content of the source behind `sid`.
pub open spec fn source_bytes(fsv: Seq<SourceView>, sid: SourceId) -> Seq<u8> {
    encode_utf8(fsv[sid.0 - 1].content)
}

/// A start and end byte offset, `start <= end`, half-open. `T` carries the
/// trace of the original source (either nothing or a [`SourceId`]).
#[derive(PartialEq, Eq, Clone, Copy, Hash, Debug)]
pub struct BaseSpan<T> {
    pub start: u32,
    pub end: u32,
    pub source: T,
}

/// A byte range with no record of which source it came from.
pub type Span = BaseSpan<()>;

/// A byte range together with the source it points into.
pub type SpanWithSource = BaseSpan<SourceId>;

/// Types with a distinguished null value: the unit type, the null
/// [`SourceId`], and the null span built from them.
pub trait Nullable: Sized {
    spec fn is_null_spec(self) -> bool;

    fn null() -> (r: Self)
        ensures
            r.is_null_spec(),
    ;

    fn is_null(&self) -> (r: bool)
        ensures
            r == self.is_null_spec(),
    ;
}

impl Nullable for () {
    open spec fn is_null_spec(self) -> bool {
        true
    }

    fn null() -> (r: Self) {
        ()
    }

    fn is_null(&self) -> (r: bool) {
        true
    }
}

impl Nullable for SourceId {
    /// The null identifier is the integer 0.
    open spec fn is_null_spec(self) -> bool {
        self.0 == 0
    }

    fn null() -> (r: Self) {
        SourceId(0)
    }

    fn is_null(&self) -> (r: bool) {
        self.0 == 0
    }
}

impl<T: Nullable> Nullable for BaseSpan<T> {
    /// The null span starts and ends at 0 and carries the null source.
    open spec fn is_null_spec(self) -> bool {
        self.start == 0 && self.end == 0 && self.source.is_null_spec()
    }

    fn null() -> (r: Self) {
        BaseSpan { start: 0, end: 0, source: T::null() }
    }

    fn is_null(&self) -> (r: bool) {
        self.start == 0 && self.end == 0 && self.source.is_null()
    }
}

/// The byte offset a span starts at.
#[derive(Debug, Clone, Copy)]
pub struct Start(pub u32);

/// The byte offset a span ends before.
#[derive(Debug, Clone, Copy)]
pub struct End(pub u32);

impl Span {
    /// Whether the end of `self` is the start of a span beginning at
    /// `other`.
    pub fn is_adjacent_to(&self, other: Start) -> (r: bool)
        ensures
            r == (self.end == other.0),
    {
        self.end == other.0
    }

    /// A new [`Span`] which starts at the start of `self` and ends at
    /// `end`.
    pub fn union(&self, end: End) -> (r: Span)
        ensures
            r.start == self.start,
            r.end == end.0,
    {
        Span { start: self.start, end: end.0, source: () }
    }

    pub fn get_end(&self) -> (r: End)
        ensures
            r.0 == self.end,
    {
        End(self.end)
    }

    pub fn get_start(&self) -> (r: Start)
        ensures
            r.0 == self.start,
    {
        Start(self.start)
    }

    /// The same byte range, pointing into `source`.
    pub fn with_source(self, source: SourceId) -> (r: SpanWithSource)
        ensures
            r.start == self.start,
            r.end == self.end,
            r.source == source,
    {
        SpanWithSource { start: self.start, end: self.end, source }
    }
}

impl SpanWithSource {
    pub fn get_start(&self) -> (r: Position)
        ensures
            r.0 == self.start,
            r.1 == self.source,
    {
        Position(self.start, self.source)
    }

    pub fn get_end(&self) -> (r: Position)
        ensures
            r.0 == self.end,
            r.1 == self.source,
    {
        Position(self.end, self.source)
    }

    /// The same byte range with the source trace dropped.
    pub fn without_source(self) -> (r: Span)
        ensures
            r.start == self.start,
            r.end == self.end,
    {
        Span { start: self.start, end: self.end, source: () }
    }
}

impl Start {
    pub fn new(pos: u32) -> (r: Self)
        ensures
            r.0 == pos,
    {
        Start(pos)
    }

    /// The span of `len` bytes beginning here.
    pub fn with_length(&self, len: usize) -> (r: Span)
        requires
            self.0 + len <= u32::MAX,
        ensures
            r.start == self.0,
            r.end == self.0 + len,
    {
        Span { start: self.0, end: self.0 + len as u32, source: () }
    }

    /// The end of a span of `len` bytes beginning here.
    pub fn get_end_after(&self, len: usize) -> (r: End)
        requires
            self.0 + len <= u32::MAX,
        ensures
            r.0 == self.0 + len,
    {
        End(self.0 + len as u32)
    }

    /// The span from here to `end`.
    pub fn union(&self, end: End) -> (r: Span)
        ensures
            r.start == self.0,
            r.end == end.0,
    {
        Span { start: self.0, end: end.0, source: () }
    }
}

impl End {
    pub fn new(pos: u32) -> (r: Self)
        ensures
            r.0 == pos,
    {
        End(pos)
    }

    /// Whether this end is the start of a span beginning at `other`.
    pub fn is_adjacent_to(&self, other: Start) -> (r: bool)
        ensures
            r == (self.0 == other.0),
    {
        self.0 == other.0
    }
}

/// A scalar byte-wise position inside a source, zero based.
#[derive(PartialEq, Eq, Clone, Debug)]
pub struct Position(pub u32, pub SourceId);

/// Whether two half-open byte ranges share at least one byte.
pub open spec fn spans_intersect(a: Span, b: Span) -> bool {
    a.start < b.end && b.start < a.end
}

/// Spans that share a byte compare as equal under the span ordering:
/// neither comes strictly before the other. The ordering is therefore no
/// total order, and unfit as a key; it only moves non-overlapping spans
/// into textual order.
pub proof fn lemma_intersecting_spans_compare_equal(a: Span, b: Span)
    requires
        spans_intersect(a, b),
    ensures
        !span_strictly_before(a, b),
        !span_strictly_before(b, a),
        span_le(a, b) && span_le(b, a),
{
}

/// The span ordering of the sort: `a` comes strictly before `b` when the
/// two are disjoint, not identical, and `a` ends at or before the start
/// of `b`. Intersecting spans are treated as equal. This is not a total
/// order; it only moves non-overlapping spans into textual order.
pub open spec fn span_strictly_before(a: Span, b: Span) -> bool {
    a.end <= b.start && !(a.start == b.start && a.end == b.end)
}

/// The reflexive companion of [`span_strictly_before`]: `b` does not come
/// strictly before `a`.
pub open spec fn span_le(a: Span, b: Span) -> bool {
    !span_strictly_before(b, a)
}

fn span_strictly_before_exec(a: &Span, b: &Span) -> (r: bool)
    ensures
        r == span_strictly_before(*a, *b),
{
    a.end <= b.start && !(a.start == b.start && a.end == b.end)
}

/// Sorts spans under the span ordering: every span is `start <= end`, and
/// the result is a reordering of the input in which no span comes
/// strictly before its predecessor. Non-overlapping spans therefore come
/// out in textual order.
pub fn sort_spans(spans: Vec<Span>) -> (r: Vec<Span>)
    requires
        forall|i: int| 0 <= i < spans@.len() ==> (#[trigger] spans@[i]).start <= spans@[i].end,
    ensures
        r@.len() == spans@.len(),
        r@.to_multiset() == spans@.to_multiset(),
        forall|i: int| 0 <= i < r@.len() - 1 ==> span_le(#[trigger] r@[i], r@[i + 1]),
        forall|i: int| 0 <= i < r@.len() ==> (#[trigger] r@[i]).start <= r@[i].end,
{
    let mut out: Vec<Span> = Vec::new();
    let n = spans.len();
    let mut taken: usize = 0;
    proof {
        assert(spans@.subrange(0, 0) =~= out@);
    }
    while taken < n
        invariant
            taken <= n,
            n == spans@.len(),
            out@.len() == taken,
            out@.to_multiset() == spans@.subrange(0, taken as int).to_multiset(),
            forall|i: int| 0 <= i < spans@.len() ==> (#[trigger] spans@[i]).start <= spans@[i].end,
            forall|i: int| 0 <= i < out@.len() ==> (#[trigger] out@[i]).start <= out@[i].end,
            forall|i: int| 0 <= i < out@.len() - 1 ==> span_le(#[trigger] out@[i], out@[i + 1]),
        decreases n - taken,
    {
        let next = spans[taken];
        let ghost prefix = spans@.subrange(0, taken as int);
        // Walk back over the sorted part to find the insertion point.
        let mut at = out.len();
        let mut searching = true;
        while searching && at > 0
            invariant
                at <= out@.len(),
                next.start <= next.end,
                forall|i: int| 0 <= i < out@.len() ==> (#[trigger] out@[i]).start <= out@[i].end,
                forall|i: int|
                    at <= i < out@.len() ==> span_strictly_before(next, #[trigger] out@[i]),
                !searching ==> at > 0 && !span_strictly_before(next, out@[at - 1]),
            decreases at + (if searching { 1int } else { 0int }),
        {
            if span_strictly_before_exec(&next, &out[at - 1]) {
                at = at - 1;
            } else {
                searching = false;
            }
        }
        let ghost pre_insert = out@;
        out.insert(at, next);
        proof {
            let new_out = pre_insert.insert(at as int, next);
            assert(out@ == new_out);
            assert forall|i: int| 0 <= i < new_out.len() - 1 implies span_le(
                #[trigger] new_out[i],
                new_out[i + 1],
            ) by {
                if i < at - 1 {
                    assert(new_out[i] == pre_insert[i]);
                    assert(new_out[i + 1] == pre_insert[i + 1]);
                } else if i == at - 1 {
                    assert(new_out[i] == pre_insert[i]);
                    assert(new_out[i + 1] == next);
                    assert(!span_strictly_before(next, pre_insert[at - 1]));
                } else if i == at {
                    assert(new_out[i] == next);
                    assert(new_out[i + 1] == pre_insert[i]);
                    lemma_span_before_asymmetric(next, pre_insert[i]);
                } else {
                    assert(new_out[i] == pre_insert[i - 1]);
                    assert(new_out[i + 1] == pre_insert[i]);
                }
            }
            vstd::seq_lib::to_multiset_insert(pre_insert, at as int, next);
            vstd::seq_lib::to_multiset_build(prefix, next);
            assert(spans@.subrange(0, taken + 1int) =~= prefix.push(next));
        }
        taken = taken + 1;
    }
    proof {
        assert(spans@.subrange(0, n as int) =~= spans@);
    }
    out
}

/// A 0-based line and column inside a source, under the column
/// measurement that `T` selects.
#[derive(Debug, PartialEq, Eq, Clone)]
pub struct LineColumnPosition<T: StringEncoding> {
    pub line: u32,
    pub column: u32,
    pub source: SourceId,
    pub encoding: T,
}

/// A 0-based line/column range inside a source, under the column
/// measurement that `T` selects.
#[derive(Debug, PartialEq, Eq, Clone)]
pub struct LineColumnSpan<T: StringEncoding> {
    pub line_start: u32,
    pub column_start: u32,
    pub line_end: u32,
    pub column_end: u32,
    pub source: SourceId,
    pub encoding: T,
}

/// The line of `pos` and its column under `T`, read from a line-start
/// index that matches `bytes`.
fn line_and_column_under<T: StringEncoding>(
    bytes: &[u8],
    line_starts: &crate::lines_columns_indexes::LineStarts,
    pos: usize,
) -> (r: (u32, u32))
    requires
        line_starts@ == line_starts_spec(bytes@),
        line_starts.wf(),
        pos <= bytes@.len(),
        bytes@.len() <= u32::MAX,
    ensures
        r.0 == line_of(line_starts_spec(bytes@), pos as int),
        r.1 == T::length_of(
            bytes@.subrange(
                line_starts_spec(bytes@)[line_of(line_starts_spec(bytes@), pos as int)],
                pos as int,
            ),
        ),
{
    proof {
        lemma_line_starts_wf(bytes@);
        lemma_line_starts_len(bytes@);
    }
    let line = line_starts.get_line_pos_is_on(pos);
    let line_byte = line_starts.0[line];
    let column = T::encoded_length_range(bytes, line_byte, pos);
    (line as u32, column as u32)
}

/// The byte offset that `column` columns under `T` past the start of
/// line `line` reach.
fn byte_of_line_column<T: StringEncoding>(
    bytes: &[u8],
    line_starts: &crate::lines_columns_indexes::LineStarts,
    line: usize,
    column: usize,
) -> (r: usize)
    requires
        line_starts@ == line_starts_spec(bytes@),
        line_starts.wf(),
        (line as int) < line_starts_spec(bytes@).len(),
        line_starts_spec(bytes@)[line as int] + T::length_to_bytes(
            bytes@.skip(line_starts_spec(bytes@)[line as int]),
            column as nat,
        ) <= u32::MAX,
    ensures
        r == line_starts_spec(bytes@)[line as int] + T::length_to_bytes(
            bytes@.skip(line_starts_spec(bytes@)[line as int]),
            column as nat,
        ),
{
    proof {
        lemma_line_starts_wf(bytes@);
    }
    let line_byte = line_starts.0[line];
    T::advance_range(bytes, line_byte, column)
}

impl SpanWithSource {
    /// Resolves both endpoints to line/column pairs through the
    /// registry's line-start index for this span's source.
    pub fn into_line_column_span<T: StringEncoding, FS: FileSystem>(self, fs: &FS) -> (r:
        LineColumnSpan<T>)
        requires
            fs.wf(),
            1 <= self.source.0 <= fs.sources().len(),
            self.start <= source_bytes(fs.sources(), self.source).len(),
            self.end <= source_bytes(fs.sources(), self.source).len(),
            source_bytes(fs.sources(), self.source).len() <= u32::MAX,
        ensures
            ({
                let bytes = source_bytes(fs.sources(), self.source);
                let starts = line_starts_spec(bytes);
                &&& r.line_start == line_of(starts, self.start as int)
                &&& r.column_start == T::length_of(
                    bytes.subrange(starts[line_of(starts, self.start as int)], self.start as int),
                )
                &&& r.line_end == line_of(starts, self.end as int)
                &&& r.column_end == T::length_of(
                    bytes.subrange(starts[line_of(starts, self.end as int)], self.end as int),
                )
                &&& r.source == self.source
            }),
    {
        let content = fs.get_file_content(self.source);
        let line_starts = fs.get_line_starts(self.source);
        let bytes = content.as_str().as_bytes();
        proof {
            assert(bytes@ == source_bytes(fs.sources(), self.source));
        }
        let s = line_and_column_under::<T>(bytes, &line_starts, self.start as usize);
        let e = line_and_column_under::<T>(bytes, &line_starts, self.end as usize);
        LineColumnSpan {
            line_start: s.0,
            column_start: s.1,
            line_end: e.0,
            column_end: e.1,
            encoding: T::new(),
            source: self.source,
        }
    }
}

impl Position {
    /// Resolves this byte offset to a line/column pair through the
    /// registry's line-start index for its source.
    pub fn into_line_column_position<T: StringEncoding, FS: FileSystem>(self, fs: &FS) -> (r:
        LineColumnPosition<T>)
        requires
            fs.wf(),
            1 <= self.1.0 <= fs.sources().len(),
            self.0 <= source_bytes(fs.sources(), self.1).len(),
            source_bytes(fs.sources(), self.1).len() <= u32::MAX,
        ensures
            ({
                let bytes = source_bytes(fs.sources(), self.1);
                let starts = line_starts_spec(bytes);
                &&& r.line == line_of(starts, self.0 as int)
                &&& r.column == T::length_of(
                    bytes.subrange(starts[line_of(starts, self.0 as int)], self.0 as int),
                )
                &&& r.source == self.1
            }),
    {
        let content = fs.get_file_content(self.1);
        let line_starts = fs.get_line_starts(self.1);
        let bytes = content.as_str().as_bytes();
        proof {
            assert(bytes@ == source_bytes(fs.sources(), self.1));
        }
        let p = line_and_column_under::<T>(bytes, &line_starts, self.0 as usize);
        LineColumnPosition { line: p.0, column: p.1, encoding: T::new(), source: self.1 }
    }
}

impl<T: StringEncoding> LineColumnPosition<T> {
    /// The inverse of [`Position::into_line_column_position`]: advances
    /// `column` units under `T` from the start byte of `line`.
    pub fn into_scalar_position<FS: FileSystem>(self, fs: &FS) -> (r: Position)
        requires
            fs.wf(),
            1 <= self.source.0 <= fs.sources().len(),
            (self.line as int) < line_starts_spec(source_bytes(fs.sources(), self.source)).len(),
            ({
                let bytes = source_bytes(fs.sources(), self.source);
                let starts = line_starts_spec(bytes);
                starts[self.line as int] + T::length_to_bytes(
                    bytes.skip(starts[self.line as int]),
                    self.column as nat,
                ) <= u32::MAX
            }),
        ensures
            ({
                let bytes = source_bytes(fs.sources(), self.source);
                let starts = line_starts_spec(bytes);
                &&& r.0 == starts[self.line as int] + T::length_to_bytes(
                    bytes.skip(starts[self.line as int]),
                    self.column as nat,
                )
                &&& r.1 == self.source
            }),
    {
        let content = fs.get_file_content(self.source);
        let line_starts = fs.get_line_starts(self.source);
        let bytes = content.as_str().as_bytes();
        proof {
            assert(bytes@ == source_bytes(fs.sources(), self.source));
        }
        let pos = byte_of_line_column::<T>(bytes, &line_starts, self.line as usize,
            self.column as usize);
        Position(pos as u32, self.source)
    }
}

impl<T: StringEncoding> LineColumnSpan<T> {
    /// The inverse of [`SpanWithSource::into_line_column_span`]: advances
    /// each endpoint's column under `T` from its line's start byte.
    pub fn into_scalar_span<FS: FileSystem>(self, fs: &FS) -> (r: SpanWithSource)
        requires
            fs.wf(),
            1 <= self.source.0 <= fs.sources().len(),
            (self.line_start as int) < line_starts_spec(
                source_bytes(fs.sources(), self.source),
            ).len(),
            (self.line_end as int) < line_starts_spec(
                source_bytes(fs.sources(), self.source),
            ).len(),
            ({
                let bytes = source_bytes(fs.sources(), self.source);
                let starts = line_starts_spec(bytes);
                &&& starts[self.line_start as int] + T::length_to_bytes(
                    bytes.skip(starts[self.line_start as int]),
                    self.column_start as nat,
                ) <= u32::MAX
                &&& starts[self.line_end as int] + T::length_to_bytes(
                    bytes.skip(starts[self.line_end as int]),
                    self.column_end as nat,
                ) <= u32::MAX
            }),
        ensures
            ({
                let bytes = source_bytes(fs.sources(), self.source);
                let starts = line_starts_spec(bytes);
                &&& r.start == starts[self.line_start as int] + T::length_to_bytes(
                    bytes.skip(starts[self.line_start as int]),
                    self.column_start as nat,
                )
                &&& r.end == starts[self.line_end as int] + T::length_to_bytes(
                    bytes.skip(starts[self.line_end as int]),
                    self.column_end as nat,
                )
                &&& r.source == self.source
            }),
    {
        let content = fs.get_file_content(self.source);
        let line_starts = fs.get_line_starts(self.source);
        let bytes = content.as_str().as_bytes();
        proof {
            assert(bytes@ == source_bytes(fs.sources(), self.source));
        }
        let start = byte_of_line_column::<T>(bytes, &line_starts, self.line_start as usize,
            self.column_start as usize);
        let end = byte_of_line_column::<T>(bytes, &line_starts, self.line_end as usize,
            self.column_end as usize);
        SpanWithSource { start: start as u32, end: end as u32, source: self.source }
    }
}

/// The byte offset right after a newline byte, or offset 0, is a
/// character boundary of valid UTF-8 content.
proof fn lemma_line_start_is_boundary(bytes: Seq<u8>, s0: int)
    requires
        valid_utf8(bytes),
        0 <= s0 <= bytes.len(),
        s0 == 0 || bytes[s0 - 1] == 10,
    ensures
        is_char_boundary(bytes, s0),
{
    if s0 == 0 || s0 == bytes.len() {
        vstd::utf8::is_char_boundary_start_end_of_seq(bytes);
    } else {
        vstd::utf8::is_char_boundary_iff_not_is_continuation_byte(bytes, s0 - 1);
        assert(is_char_boundary(bytes, s0 - 1));
        vstd::utf8::valid_utf8_split(bytes, s0 - 1);
        let tail = bytes.subrange(s0 - 1, bytes.len() as int);
        assert(valid_utf8(tail));
        assert(tail[0] == 10);
        assert(vstd::utf8::valid_first_scalar(tail));
        assert(vstd::utf8::length_of_first_scalar(tail) == 1);
        let tail2 = vstd::utf8::pop_first_scalar(tail);
        assert(valid_utf8(tail2));
        assert(tail2 =~= bytes.subrange(s0, bytes.len() as int));
        assert(tail2.len() > 0);
        assert(vstd::utf8::valid_first_scalar(tail2));
        crate::encodings::lemma_first_scalar_shape(tail2);
        assert(tail2[0] == bytes[s0]);
        vstd::utf8::is_char_boundary_iff_not_is_continuation_byte(bytes, s0);
    }
}

/// Position round-trip under byte-wise columns: the line/column pair of
/// any byte offset maps back to the same offset.
pub proof fn lemma_position_round_trip_byte_wise(bytes: Seq<u8>, p: int)
    requires
        0 <= p <= bytes.len(),
    ensures
        ({
            let starts = line_starts_spec(bytes);
            let line = line_of(starts, p);
            starts[line] + ByteWiseEncoding::length_to_bytes(
                bytes.skip(starts[line]),
                ByteWiseEncoding::length_of(bytes.subrange(starts[line], p)),
            ) == p
        }),
{
    lemma_line_starts_wf(bytes);
    lemma_line_of_properties(line_starts_spec(bytes), p);
}

/// Position round-trip under code-point columns: the line/column pair of
/// any byte offset on a character boundary of valid UTF-8 content maps
/// back to the same offset.
pub proof fn lemma_position_round_trip_utf8(bytes: Seq<u8>, p: int)
    requires
        valid_utf8(bytes),
        is_char_boundary(bytes, p),
        0 <= p <= bytes.len(),
    ensures
        ({
            let starts = line_starts_spec(bytes);
            let line = line_of(starts, p);
            starts[line] + Utf8::length_to_bytes(
                bytes.skip(starts[line]),
                Utf8::length_of(bytes.subrange(starts[line], p)),
            ) == p
        }),
{
    lemma_line_starts_wf(bytes);
    lemma_line_of_properties(line_starts_spec(bytes), p);
    let starts = line_starts_spec(bytes);
    let line = line_of(starts, p);
    let s0 = starts[line];
    lemma_line_start_after_newline(bytes, line);
    lemma_line_start_is_boundary(bytes, s0);
    vstd::utf8::valid_utf8_split(bytes, s0);
    assert(bytes.skip(s0) =~= bytes.subrange(s0, bytes.len() as int));
    crate::encodings::lemma_boundary_in_suffix(bytes, s0, p);
    assert(bytes.subrange(s0, p) =~= bytes.skip(s0).take(p - s0));
    crate::encodings::lemma_utf8_advance_count(bytes.skip(s0), p - s0);
}

/// Two distinct well-formed spans cannot each be strictly before the
/// other.
proof fn lemma_span_before_asymmetric(a: Span, b: Span)
    requires
        a.start <= a.end,
        b.start <= b.end,
        span_strictly_before(a, b),
    ensures
        !span_strictly_before(b, a),
        span_le(a, b),
{
}

} // verus!
