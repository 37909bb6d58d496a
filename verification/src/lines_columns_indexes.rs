//! The per-source index of line starts: byte offset 0 followed by the byte
//! offset immediately after every newline byte of the content.

use vstd::prelude::*;
use vstd::string::StringSliceAdditionalSpecFns;

verus! {

/// The byte offsets, relative to a content that begins at byte `offset`,
/// immediately after each `\n` of `bytes`.
pub open spec fn newline_starts(bytes: Seq<u8>, offset: int) -> Seq<int>
    decreases bytes.len(),
{
    if bytes.len() == 0 {
        Seq::empty()
    } else {
        (if bytes[0] == 10 {
            seq![offset + 1]
        } else {
            Seq::empty()
        }) + newline_starts(bytes.drop_first(), offset + 1)
    }
}

/// The line-start offsets of a whole content: 0, then the offset after
/// every `\n`.
pub open spec fn line_starts_spec(bytes: Seq<u8>) -> Seq<int> {
    seq![0] + newline_starts(bytes, 0)
}

/// The line (0-indexed) that byte offset `pos` falls on: the largest `i`
/// with `starts[i] <= pos`.
pub open spec fn line_of(starts: Seq<int>, pos: int) -> int
    decreases starts.len(),
{
    if starts.len() <= 1 {
        0
    } else if starts.last() <= pos {
        starts.len() - 1
    } else {
        line_of(starts.drop_last(), pos)
    }
}

/// A well-formed line-start sequence: nonempty, begins at 0, strictly
/// increasing.
pub open spec fn wf_line_starts(starts: Seq<int>) -> bool {
    &&& starts.len() > 0
    &&& starts[0] == 0
    &&& forall|i: int, j: int| 0 <= i < j < starts.len() ==> starts[i] < starts[j]
}

pub proof fn lemma_newline_starts_snoc(bytes: Seq<u8>, offset: int, b: u8)
    ensures
        newline_starts(bytes.push(b), offset) =~= newline_starts(bytes, offset) + (if b == 10 {
            seq![offset + bytes.len() + 1]
        } else {
            Seq::<int>::empty()
        }),
    decreases bytes.len(),
{
    let p = bytes.push(b);
    assert(p[0] == if bytes.len() == 0 {
        b
    } else {
        bytes[0]
    });
    assert(newline_starts(p, offset) == (if p[0] == 10 {
        seq![offset + 1]
    } else {
        Seq::<int>::empty()
    }) + newline_starts(p.drop_first(), offset + 1));
    if bytes.len() == 0 {
        assert(p.drop_first() =~= Seq::<u8>::empty());
        assert(newline_starts(p.drop_first(), offset + 1) =~= Seq::<int>::empty());
    } else {
        lemma_newline_starts_snoc(bytes.drop_first(), offset + 1, b);
        assert(p.drop_first() =~= bytes.drop_first().push(b));
    }
}

pub proof fn lemma_newline_starts_concat(a: Seq<u8>, b: Seq<u8>, offset: int)
    ensures
        newline_starts(a + b, offset) =~= newline_starts(a, offset) + newline_starts(
            b,
            offset + a.len(),
        ),
    decreases a.len(),
{
    if a.len() == 0 {
        assert(a + b =~= b);
    } else {
        lemma_newline_starts_concat(a.drop_first(), b, offset + 1);
        assert((a + b).drop_first() =~= a.drop_first() + b);
        assert((a + b)[0] == a[0]);
    }
}

/// Every recorded offset lies in `(offset, offset + len]`, sits right
/// after a newline byte, and the sequence is strictly increasing.
pub proof fn lemma_newline_starts_range(bytes: Seq<u8>, offset: int)
    ensures
        forall|k: int|
            0 <= k < newline_starts(bytes, offset).len() ==> offset + 1 <= #[trigger] newline_starts(
                bytes,
                offset,
            )[k] <= offset + bytes.len(),
        forall|k: int, l: int|
            0 <= k < l < newline_starts(bytes, offset).len() ==> newline_starts(bytes, offset)[k]
                < newline_starts(bytes, offset)[l],
        forall|k: int|
            0 <= k < newline_starts(bytes, offset).len() ==> bytes[#[trigger] newline_starts(
                bytes,
                offset,
            )[k] - offset - 1] == 10,
    decreases bytes.len(),
{
    if bytes.len() == 0 {
    } else {
        lemma_newline_starts_range(bytes.drop_first(), offset + 1);
        let head: Seq<int> = if bytes[0] == 10 {
            seq![offset + 1]
        } else {
            Seq::empty()
        };
        let tail = newline_starts(bytes.drop_first(), offset + 1);
        let whole = newline_starts(bytes, offset);
        assert(whole == head + tail);
        assert(bytes.drop_first().len() == bytes.len() - 1);
        assert forall|k: int| 0 <= k < whole.len() implies offset + 1 <= #[trigger] whole[k]
            <= offset + bytes.len() by {
            if k >= head.len() {
                assert(whole[k] == tail[k - head.len()]);
            }
        }
        assert forall|k: int, l: int| 0 <= k < l < whole.len() implies whole[k] < whole[l] by {
            if k >= head.len() {
                assert(whole[k] == tail[k - head.len()]);
            }
            assert(whole[l] == tail[l - head.len()]);
        }
        assert forall|k: int| 0 <= k < whole.len() implies bytes[#[trigger] whole[k] - offset
            - 1] == 10 by {
            if k < head.len() {
                assert(whole[k] == offset + 1);
            } else {
                assert(whole[k] == tail[k - head.len()]);
                assert(bytes.drop_first()[whole[k] - (offset + 1) - 1] == 10);
            }
        }
    }
}

/// Every line start other than 0 sits right after a newline byte.
pub proof fn lemma_line_start_after_newline(bytes: Seq<u8>, k: int)
    requires
        0 <= k < line_starts_spec(bytes).len(),
    ensures
        line_starts_spec(bytes)[k] == 0 || bytes[line_starts_spec(bytes)[k] - 1] == 10,
{
    lemma_newline_starts_range(bytes, 0);
    if k > 0 {
        assert(line_starts_spec(bytes)[k] == newline_starts(bytes, 0)[k - 1]);
    }
}

/// The line-start index of any content is well formed, and every entry is
/// at most the content length. This is the monotonicity of line starts:
/// `starts[i] < starts[i + 1]` throughout.
pub proof fn lemma_line_starts_wf(bytes: Seq<u8>)
    ensures
        wf_line_starts(line_starts_spec(bytes)),
        forall|k: int|
            0 <= k < line_starts_spec(bytes).len() ==> #[trigger] line_starts_spec(bytes)[k]
                <= bytes.len(),
{
    lemma_newline_starts_range(bytes, 0);
}

proof fn lemma_newline_starts_len(bytes: Seq<u8>, offset: int)
    ensures
        newline_starts(bytes, offset).len() <= bytes.len(),
    decreases bytes.len(),
{
    if bytes.len() == 0 {
    } else {
        lemma_newline_starts_len(bytes.drop_first(), offset + 1);
    }
}

/// A content of `n` bytes has at most `n + 1` line starts.
pub proof fn lemma_line_starts_len(bytes: Seq<u8>)
    ensures
        line_starts_spec(bytes).len() <= bytes.len() + 1,
{
    lemma_newline_starts_len(bytes, 0);
}

/// Splitting the index of `a + b` at `a`'s entries: the index of the
/// concatenation is the index of `a` followed by the starts contributed
/// by `b` at offset `a.len()`.
pub proof fn lemma_line_starts_append(a: Seq<u8>, b: Seq<u8>)
    ensures
        line_starts_spec(a + b) =~= line_starts_spec(a) + newline_starts(b, a.len() as int),
{
    lemma_newline_starts_concat(a, b, 0);
}

/// The concatenation of the line contents `bytes[starts[0]..starts[1]]`,
/// ..., `bytes[starts[k-1]..starts[k]]`.
pub open spec fn concat_lines_upto(bytes: Seq<u8>, k: int) -> Seq<u8>
    decreases k,
{
    let starts = line_starts_spec(bytes);
    if k <= 0 {
        Seq::empty()
    } else {
        concat_lines_upto(bytes, k - 1) + bytes.subrange(starts[k - 1], starts[k])
    }
}

proof fn lemma_concat_lines_upto(bytes: Seq<u8>, k: int)
    requires
        0 <= k < line_starts_spec(bytes).len(),
    ensures
        concat_lines_upto(bytes, k) =~= bytes.subrange(0, line_starts_spec(bytes)[k]),
    decreases k,
{
    lemma_line_starts_wf(bytes);
    if k == 0 {
    } else {
        lemma_concat_lines_upto(bytes, k - 1);
    }
}

/// Concatenating the consecutive line substrings reconstructs the content
/// up to the final line start, and appending the final line reconstructs
/// the whole content.
pub proof fn lemma_line_starts_split(bytes: Seq<u8>)
    ensures
        concat_lines_upto(bytes, line_starts_spec(bytes).len() - 1) =~= bytes.subrange(
            0,
            line_starts_spec(bytes).last(),
        ),
        concat_lines_upto(bytes, line_starts_spec(bytes).len() - 1) + bytes.subrange(
            line_starts_spec(bytes).last(),
            bytes.len() as int,
        ) =~= bytes,
{
    lemma_line_starts_wf(bytes);
    lemma_concat_lines_upto(bytes, line_starts_spec(bytes).len() - 1);
}

/// `line_of` picks the unique bracketing index.
pub proof fn lemma_line_of_properties(starts: Seq<int>, pos: int)
    requires
        wf_line_starts(starts),
        pos >= 0,
    ensures
        0 <= line_of(starts, pos) < starts.len(),
        starts[line_of(starts, pos)] <= pos,
        line_of(starts, pos) + 1 < starts.len() ==> pos < starts[line_of(starts, pos) + 1],
    decreases starts.len(),
{
    if starts.len() <= 1 {
    } else if starts.last() <= pos {
    } else {
        let shorter = starts.drop_last();
        assert(wf_line_starts(shorter));
        lemma_line_of_properties(shorter, pos);
        assert(line_of(starts, pos) == line_of(shorter, pos));
        assert(starts[line_of(starts, pos)] == shorter[line_of(shorter, pos)]);
        if line_of(starts, pos) + 1 < starts.len() {
            if line_of(shorter, pos) + 1 < shorter.len() {
                assert(starts[line_of(starts, pos) + 1] == shorter[line_of(shorter, pos) + 1]);
            } else {
                assert(starts[line_of(starts, pos) + 1] == starts.last());
            }
        }
    }
}

/// Any index that brackets `pos` is `line_of`.
pub proof fn lemma_line_of_unique(starts: Seq<int>, pos: int, k: int)
    requires
        wf_line_starts(starts),
        pos >= 0,
        0 <= k < starts.len(),
        starts[k] <= pos,
        k + 1 < starts.len() ==> pos < starts[k + 1],
    ensures
        line_of(starts, pos) == k,
{
    lemma_line_of_properties(starts, pos);
    let r = line_of(starts, pos);
    if r < k {
        assert(starts[r + 1] <= starts[k]);
    } else if r > k {
        assert(starts[k + 1] <= starts[r]);
    }
}

/// `line_of` never decreases as the position advances.
pub proof fn lemma_line_of_monotone(starts: Seq<int>, pos1: int, pos2: int)
    requires
        wf_line_starts(starts),
        0 <= pos1 <= pos2,
    ensures
        line_of(starts, pos1) <= line_of(starts, pos2),
{
    lemma_line_of_properties(starts, pos1);
    lemma_line_of_properties(starts, pos2);
    let r1 = line_of(starts, pos1);
    let r2 = line_of(starts, pos2);
    if r2 < r1 {
        assert(starts[r2 + 1] <= starts[r1]);
    }
}

/// Contains the byte indexes at which each line of a source starts.
#[derive(Debug)]
pub struct LineStarts(pub Vec<usize>);

impl View for LineStarts {
    type V = Seq<int>;

    open spec fn view(&self) -> Seq<int> {
        self.0@.map_values(|x: usize| x as int)
    }
}

impl Clone for LineStarts {
    fn clone(&self) -> (r: Self)
        ensures
            r@ == self@,
    {
        let copy = LineStarts(self.0.clone());
        proof {
            assert forall|i: int| 0 <= i < copy.0@.len() implies copy.0@[i] == self.0@[i] by {
                assert(cloned::<usize>(self.0@[i], copy.0@[i]));
            }
            assert(copy.0@ =~= self.0@);
            assert(copy@ =~= self@);
        }
        copy
    }
}

impl LineStarts {
    /// Nonempty, starting at 0, strictly increasing.
    pub open spec fn wf(&self) -> bool {
        wf_line_starts(self@)
    }

    /// Builds the index of `source`: 0, then the byte offset after every
    /// `\n`.
    pub fn new(source: &str) -> (r: LineStarts)
        ensures
            r@ =~= line_starts_spec(source.spec_bytes()),
            r.wf(),
    {
        let bytes = source.as_bytes();
        let n = bytes.len();
        let mut starts: Vec<usize> = Vec::new();
        starts.push(0);
        let mut i: usize = 0;
        while i < n
            invariant
                n == bytes@.len(),
                bytes@ == source.spec_bytes(),
                i <= n,
                starts@.map_values(|x: usize| x as int) =~= seq![0int] + newline_starts(
                    bytes@.subrange(0, i as int),
                    0,
                ),
            decreases n - i,
        {
            let ghost pre = starts@;
            if bytes[i] == 10 {
                starts.push(i + 1);
            }
            proof {
                lemma_newline_starts_snoc(bytes@.subrange(0, i as int), 0, bytes@[i as int]);
                assert(bytes@.subrange(0, i + 1int) =~= bytes@.subrange(0, i as int).push(
                    bytes@[i as int],
                ));
                if bytes@[i as int] == 10 {
                    assert(starts@ =~= pre.push((i + 1) as usize));
                    assert(starts@.map_values(|x: usize| x as int) =~= pre.map_values(
                        |x: usize| x as int,
                    ).push(i + 1int));
                }
            }
            i = i + 1;
        }
        proof {
            assert(bytes@.subrange(0, n as int) =~= bytes@);
            lemma_line_starts_wf(source.spec_bytes());
        }
        LineStarts(starts)
    }

    /// Extends the index with the starts contributed by `appended`, whose
    /// first byte sits at offset `start`.
    pub fn append(&mut self, start: usize, appended: &str)
        requires
            start + appended.spec_bytes().len() <= usize::MAX,
        ensures
            final(self)@ =~= old(self)@ + newline_starts(appended.spec_bytes(), start as int),
    {
        let bytes = appended.as_bytes();
        let n = bytes.len();
        let mut i: usize = 0;
        while i < n
            invariant
                n == bytes@.len(),
                bytes@ == appended.spec_bytes(),
                start + n <= usize::MAX,
                i <= n,
                self@ =~= old(self)@ + newline_starts(bytes@.subrange(0, i as int), start as int),
            decreases n - i,
        {
            let ghost pre = self.0@;
            if bytes[i] == 10 {
                self.0.push(start + i + 1);
            }
            proof {
                lemma_newline_starts_snoc(
                    bytes@.subrange(0, i as int),
                    start as int,
                    bytes@[i as int],
                );
                assert(bytes@.subrange(0, i + 1int) =~= bytes@.subrange(0, i as int).push(
                    bytes@[i as int],
                ));
                if bytes@[i as int] == 10 {
                    assert(self.0@ =~= pre.push((start + i + 1) as usize));
                    assert(self@ =~= pre.map_values(|x: usize| x as int).push(
                        start + i + 1int,
                    ));
                }
            }
            i = i + 1;
        }
        proof {
            assert(bytes@.subrange(0, n as int) =~= bytes@);
        }
    }

    /// The line that byte offset `pos` is on, 0-indexed.
    pub fn get_line_pos_is_on(&self, pos: usize) -> (line: usize)
        requires
            self.wf(),
        ensures
            line == line_of(self@, pos as int),
            line < self@.len(),
            self@[line as int] <= pos,
    {
        self.get_line_and_column_pos_is_on(pos).0
    }

    /// The line that byte offset `pos` is on and the byte column within
    /// that line, both 0-indexed.
    pub fn get_line_and_column_pos_is_on(&self, pos: usize) -> (r: (usize, usize))
        requires
            self.wf(),
        ensures
            r.0 == line_of(self@, pos as int),
            r.0 < self@.len(),
            self@[r.0 as int] <= pos,
            r.1 == pos - self@[r.0 as int],
    {
        let n = self.0.len();
        let mut i = n;
        while i > 0
            invariant
                self.wf(),
                i <= n,
                n == self@.len(),
                forall|j: int| i <= j < n ==> self@[j] > pos,
            decreases i,
        {
            let start = self.0[i - 1];
            if start <= pos {
                proof {
                    lemma_line_of_unique(self@, pos as int, i - 1);
                }
                return (i - 1, pos - start);
            }
            i = i - 1;
        }
        proof {
            assert(self@[0] > pos);
            assert(false);
        }
        (0, 0)
    }

    /// Whether `pos1` and `pos2` fall on the same line.
    pub fn byte_indexes_on_same_line(&self, pos1: usize, pos2: usize) -> (r: bool)
        requires
            self.wf(),
            pos1 <= pos2,
        ensures
            r == (line_of(self@, pos1 as int) == line_of(self@, pos2 as int)),
    {
        self.byte_indexes_crosses_lines(pos1, pos2) == 0
    }

    /// How many line breaks lie between `pos1` and `pos2`.
    pub fn byte_indexes_crosses_lines(&self, pos1: usize, pos2: usize) -> (r: usize)
        requires
            self.wf(),
            pos1 <= pos2,
        ensures
            r == line_of(self@, pos2 as int) - line_of(self@, pos1 as int),
    {
        let first = self.get_line_pos_is_on(pos1);
        let second = self.get_line_pos_is_on(pos2);
        proof {
            lemma_line_of_monotone(self@, pos1 as int, pos2 as int);
        }
        second - first
    }

    /// Whether at least one line break lies between `pos1` and `pos2`.
    pub fn byte_indexes_on_different_lines(&self, pos1: usize, pos2: usize) -> (r: bool)
        requires
            self.wf(),
            pos1 <= pos2,
        ensures
            r == (line_of(self@, pos1 as int) != line_of(self@, pos2 as int)),
    {
        self.byte_indexes_crosses_lines(pos1, pos2) > 0
    }
}

} // verus!
