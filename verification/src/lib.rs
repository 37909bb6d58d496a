//! Tools for building source maps (v3) while emitting generated text:
//! a Base64-VLQ codec, per-source line-start indexes, byte spans and
//! line/column positions, a source registry, and string sinks that
//! record mappings as output is appended.

pub mod encodings;
pub mod filesystem;
pub mod lines_columns_indexes;
pub mod source_id;
pub mod span;
pub mod text;
pub mod to_string;

pub use encodings::{ByteWiseEncoding, StringEncoding, Utf8};
pub use filesystem::{FileSystem, MapFileStore, NoPathMap, PathMap, Source, SourceView,
    WithPathMap};
pub use lines_columns_indexes::LineStarts;
pub use source_id::SourceId;
pub use span::sort_spans;
pub use span::{BaseSpan, End, LineColumnPosition, LineColumnSpan, Nullable, Position, Span,
    SpanWithSource, Start};
pub use to_string::{Counter, MaxCounter, StringWithOptionalSourceMap, StringWithSourceMap,
    ToString};

use vstd::prelude::*;

use crate::lines_columns_indexes::{line_of, line_starts_spec};
use vstd::string::{StrSliceExecFns, StringExecFns, StringSliceAdditionalSpecFns};
use vstd::utf8::encode_utf8;

verus! {

/// The 64 characters of the Base64 alphabet used by the `mappings`
/// field of a source map: `A`..`Z`, `a`..`z`, `0`..`9`, `+`, `/`.
pub open spec fn base64_char(d: int) -> char {
    if 0 <= d < 26 {
        (('A' as int) + d) as char
    } else if 26 <= d < 52 {
        (('a' as int) + (d - 26)) as char
    } else if 52 <= d < 62 {
        (('0' as int) + (d - 52)) as char
    } else if d == 62 {
        '+'
    } else {
        '/'
    }
}

/// Index of `c` in the Base64 alphabet, or `-1` when `c` is not in it.
pub open spec fn base64_value(c: char) -> int {
    if 'A' <= c && c <= 'Z' {
        (c as int) - ('A' as int)
    } else if 'a' <= c && c <= 'z' {
        (c as int) - ('a' as int) + 26
    } else if '0' <= c && c <= '9' {
        (c as int) - ('0' as int) + 52
    } else if c == '+' {
        62
    } else if c == '/' {
        63
    } else {
        -1
    }
}

/// `base64_value` inverts `base64_char` on every digit.
pub proof fn lemma_base64_char_value(d: int)
    requires
        0 <= d < 64,
    ensures
        base64_value(base64_char(d)) == d,
{
}

/// The VLQ payload of a signed integer: the sign moves into the least
/// significant bit.
pub open spec fn vlq_payload(v: int) -> nat {
    if v < 0 {
        (2 * (-v) + 1) as nat
    } else {
        (2 * v) as nat
    }
}

/// The Base64-VLQ digit characters for a payload, little-endian in groups
/// of five bits, with the sixth bit of every digit but the last set as a
/// continuation marker.
pub open spec fn vlq_digits(p: nat) -> Seq<char>
    decreases p,
{
    if p < 32 {
        seq![base64_char(p as int)]
    } else {
        seq![base64_char((p % 32 + 32) as int)] + vlq_digits(p / 32)
    }
}

/// The Base64-VLQ encoding of a signed integer.
pub open spec fn vlq_encode(v: int) -> Seq<char> {
    vlq_digits(vlq_payload(v))
}

/// The payload read back from a sequence of Base64-VLQ digit characters.
pub open spec fn vlq_digits_decode(s: Seq<char>) -> nat
    decreases s.len(),
{
    if s.len() == 0 {
        0
    } else {
        ((base64_value(s[0]) % 32) + 32 * vlq_digits_decode(s.drop_first())) as nat
    }
}

/// The signed integer read back from a sequence of Base64-VLQ digit
/// characters: the inverse of `vlq_encode`.
pub open spec fn vlq_decode(s: Seq<char>) -> int {
    let p = vlq_digits_decode(s);
    if p % 2 == 1 {
        -((p - 1) / 2)
    } else {
        (p / 2) as int
    }
}

proof fn lemma_vlq_digits_decode_inverse(p: nat)
    ensures
        vlq_digits_decode(vlq_digits(p)) == p,
    decreases p,
{
    if p < 32 {
        lemma_base64_char_value(p as int);
        assert(vlq_digits(p) =~= seq![base64_char(p as int)]);
        assert(vlq_digits(p).drop_first() =~= Seq::<char>::empty());
        assert(vlq_digits_decode(Seq::<char>::empty()) == 0);
        assert(vlq_digits_decode(vlq_digits(p)) == (base64_value(vlq_digits(p)[0]) % 32 + 32
            * vlq_digits_decode(vlq_digits(p).drop_first())) as nat);
    } else {
        lemma_base64_char_value((p % 32 + 32) as int);
        lemma_vlq_digits_decode_inverse(p / 32);
        assert(vlq_digits(p).drop_first() =~= vlq_digits(p / 32));
        assert(base64_value(vlq_digits(p)[0]) == p % 32 + 32);
        assert((p % 32 + 32) % 32 == p % 32);
        assert(p % 32 + 32 * (p / 32) == p);
    }
}

/// Decoding inverts encoding for every signed integer; in particular for
/// every `v` with `-0x8000_0000 <= v < 0x8000_0000`.
pub proof fn lemma_vlq_round_trip(v: int)
    ensures
        vlq_decode(vlq_encode(v)) == v,
{
    lemma_vlq_digits_decode_inverse(vlq_payload(v));
    if v < 0 {
        assert(vlq_payload(v) == 2 * (-v) + 1);
        assert(vlq_payload(v) % 2 == 1);
    } else {
        assert(vlq_payload(v) == 2 * v);
        assert(vlq_payload(v) % 2 == 0);
    }
}

/// Base64 digit for the 6-bit value `d`.
fn base64_char_exec(d: u8) -> (c: char)
    requires
        d < 64,
    ensures
        c == base64_char(d as int),
{
    if d < 26 {
        (('A' as u8) + d) as char
    } else if d < 52 {
        (('a' as u8) + (d - 26)) as char
    } else if d < 62 {
        (('0' as u8) + (d - 52)) as char
    } else if d == 62 {
        '+'
    } else {
        '/'
    }
}

/// Appends the Base64-VLQ encoding of `value` to `buf`.
pub fn vlq_encode_integer_to_buffer(buf: &mut String, value: i64)
    requires
        value != i64::MIN,
    ensures
        final(buf)@ == old(buf)@ + vlq_encode(value as int),
{
    let mut payload: u64 = if value < 0 {
        ((-value) as u64) * 2 + 1
    } else {
        (value as u64) * 2
    };
    assert(payload == vlq_payload(value as int));
    let ghost whole: nat = payload as nat;
    let ghost done: Seq<char> = Seq::empty();
    let mut more = true;
    while more
        invariant
            buf@ == old(buf)@ + done,
            more ==> vlq_digits(whole) =~= done + vlq_digits(payload as nat),
            !more ==> done =~= vlq_digits(whole),
        decreases payload + (if more { 1int } else { 0int }),
    {
        let digit: u8 = (payload % 32) as u8;
        let ghost p_head: nat = payload as nat;
        payload = payload / 32;
        if payload > 0 {
            crate::text::push_char(buf, base64_char_exec(digit + 32));
            proof {
                done = done + seq![base64_char((p_head % 32 + 32) as int)];
                assert(p_head >= 32);
                assert(vlq_digits(p_head) =~= seq![base64_char((p_head % 32 + 32) as int)]
                    + vlq_digits(p_head / 32));
            }
        } else {
            crate::text::push_char(buf, base64_char_exec(digit));
            proof {
                done = done + seq![base64_char(p_head as int)];
                assert(p_head < 32);
                assert(vlq_digits(p_head) =~= seq![base64_char(p_head as int)]);
            }
            more = false;
        }
    }
    assert(final(buf)@ == old(buf)@ + vlq_digits(whole));
}

/// One recorded mapping: the output column it sits at, the byte offset it
/// points to, and the source that byte offset lies in.
#[derive(PartialEq, Eq, Clone, Copy, Debug)]
pub struct SourceMapping {
    pub on_output_column: u32,
    pub source_byte_start: u32,
    pub from_source: SourceId,
}

/// An event recorded by the builder: a mapping, or a line break of the
/// generated output. Breaks are serialized as `;`.
#[derive(PartialEq, Eq, Clone, Copy, Debug)]
pub enum MappingOrBreak {
    Mapping(SourceMapping),
    Break,
}

/// The running values that the `mappings` serializer carries from one
/// event to the next.
pub struct SerializeState {
    /// Whether the last emitted item was a mapping segment (so the next
    /// segment on the same line needs a `,`).
    pub after_mapping: bool,
    pub last_source_line: int,
    pub last_source_column: int,
    pub last_output_column: int,
}

/// The serializer's starting state.
pub open spec fn init_serialize_state() -> SerializeState {
    SerializeState {
        after_mapping: false,
        last_source_line: 0,
        last_source_column: 0,
        last_output_column: 0,
    }
}

/// The line-start index of the source behind `sid`, as the registry view
/// `fsv` determines it.
pub open spec fn source_starts(fsv: Seq<SourceView>, sid: SourceId) -> Seq<int> {
    line_starts_spec(encode_utf8(fsv[sid.0 - 1].content))
}

/// The 0-indexed line and byte column of byte offset `pos` in the source
/// behind `sid`.
pub open spec fn source_line_col(fsv: Seq<SourceView>, sid: SourceId, pos: int) -> (int, int) {
    let starts = source_starts(fsv, sid);
    let line = line_of(starts, pos);
    (line, pos - starts[line])
}

/// Index of the first occurrence of `sid` in `sources`.
pub open spec fn source_index(sources: Seq<SourceId>, sid: SourceId) -> int
    decreases sources.len(),
{
    if sources.len() == 0 {
        0
    } else if sources[0] == sid {
        0
    } else {
        1 + source_index(sources.drop_first(), sid)
    }
}

/// The four VLQ numbers of one segment: output-column delta, source
/// index, source-line delta, source-column delta.
pub open spec fn mapping_segment(
    fsv: Seq<SourceView>,
    sources: Seq<SourceId>,
    st: SerializeState,
    m: SourceMapping,
) -> Seq<char> {
    let lc = source_line_col(fsv, m.from_source, m.source_byte_start as int);
    vlq_encode(m.on_output_column - st.last_output_column) + vlq_encode(
        source_index(sources, m.from_source),
    ) + vlq_encode(lc.0 - st.last_source_line) + vlq_encode(lc.1 - st.last_source_column)
}

/// The serializer state after emitting the segment for `m`.
pub open spec fn mapping_step(
    fsv: Seq<SourceView>,
    st: SerializeState,
    m: SourceMapping,
) -> SerializeState {
    let lc = source_line_col(fsv, m.from_source, m.source_byte_start as int);
    SerializeState {
        after_mapping: true,
        last_source_line: lc.0,
        last_source_column: lc.1,
        last_output_column: m.on_output_column as int,
    }
}

/// The serializer state after a break: the output column resets, the
/// source line and column carry over.
pub open spec fn break_step(st: SerializeState) -> SerializeState {
    SerializeState {
        after_mapping: false,
        last_source_line: st.last_source_line,
        last_source_column: st.last_source_column,
        last_output_column: 0,
    }
}

/// The `mappings` text of an event sequence: every break becomes `;`,
/// every mapping with a non-null source becomes one VLQ segment preceded
/// by `,` when another segment came just before it on the same line, and
/// every mapping with the null source is dropped.
pub open spec fn serialize_mappings(
    fsv: Seq<SourceView>,
    sources: Seq<SourceId>,
    events: Seq<MappingOrBreak>,
    st: SerializeState,
) -> Seq<char>
    decreases events.len(),
{
    if events.len() == 0 {
        Seq::empty()
    } else {
        let rest = events.drop_first();
        match events[0] {
            MappingOrBreak::Break => seq![';'] + serialize_mappings(
                fsv,
                sources,
                rest,
                break_step(st),
            ),
            MappingOrBreak::Mapping(m) => {
                if m.from_source.0 == 0 {
                    serialize_mappings(fsv, sources, rest, st)
                } else {
                    (if st.after_mapping {
                        seq![',']
                    } else {
                        Seq::<char>::empty()
                    }) + mapping_segment(fsv, sources, st, m) + serialize_mappings(
                        fsv,
                        sources,
                        rest,
                        mapping_step(fsv, st, m),
                    )
                }
            },
        }
    }
}

/// The used sources with the null identifier dropped, in first-recorded
/// order.
pub open spec fn nonnull_sources(used: Seq<SourceId>) -> Seq<SourceId>
    decreases used.len(),
{
    if used.len() == 0 {
        Seq::empty()
    } else {
        nonnull_sources(used.drop_last()) + (if used.last().0 != 0 {
            seq![used.last()]
        } else {
            Seq::<SourceId>::empty()
        })
    }
}

/// The null identifier never appears among the serialized sources, and
/// recording it adds nothing to them; every other identifier carries
/// over.
pub proof fn lemma_nonnull_sources(used: Seq<SourceId>)
    ensures
        forall|k: int|
            0 <= k < nonnull_sources(used).len() ==> (#[trigger] nonnull_sources(used)[k]).0 != 0,
        forall|x: SourceId|
            nonnull_sources(used).contains(x) <==> (used.contains(x) && x.0 != 0),
        used.no_duplicates() ==> nonnull_sources(used).no_duplicates(),
        nonnull_sources(used.push(SourceId(0))) =~= nonnull_sources(used),
    decreases used.len(),
{
    if used.len() == 0 {
        assert(used.push(SourceId(0)).drop_last() =~= used);
        assert forall|x: SourceId| nonnull_sources(used).contains(x) implies used.contains(x)
            && x.0 != 0 by {}
    } else {
        lemma_nonnull_sources(used.drop_last());
        assert(used.push(SourceId(0)).drop_last() =~= used);
        let nn = nonnull_sources(used);
        let prev = nonnull_sources(used.drop_last());
        assert forall|x: SourceId| nn.contains(x) implies used.contains(x) && x.0 != 0 by {
            let k = choose|k: int| 0 <= k < nn.len() && nn[k] == x;
            if k < prev.len() {
                assert(prev.contains(x));
                assert(used.drop_last().contains(x));
                let j = choose|j: int| 0 <= j < used.drop_last().len() && used.drop_last()[j] == x;
                assert(used[j] == x);
            } else {
                assert(x == used.last());
                assert(used[used.len() - 1] == x);
            }
        }
        assert forall|x: SourceId| used.contains(x) && x.0 != 0 implies nn.contains(x) by {
            let j = choose|j: int| 0 <= j < used.len() && used[j] == x;
            if j < used.len() - 1 {
                assert(used.drop_last()[j] == x);
                assert(used.drop_last().contains(x));
                assert(prev.contains(x));
                let k = choose|k: int| 0 <= k < prev.len() && prev[k] == x;
                assert(nn[k] == x);
            } else {
                assert(used.last() == x);
                assert(nn[nn.len() - 1] == x);
            }
        }
        if used.no_duplicates() {
            assert(used.drop_last().no_duplicates());
            if used.last().0 != 0 {
                assert forall|i: int, j: int|
                    0 <= i < nn.len() && 0 <= j < nn.len() && i != j implies nn[i] != nn[j] by {
                    if i < prev.len() && j < prev.len() {
                    } else if i < prev.len() {
                        assert(nn[j] == used.last());
                        assert(prev.contains(nn[i]));
                        assert(used.drop_last().contains(nn[i]));
                        let l = choose|l: int|
                            0 <= l < used.drop_last().len() && used.drop_last()[l] == nn[i];
                        assert(used[l] == nn[i]);
                        assert(used[used.len() - 1] == used.last());
                    } else {
                        assert(nn[i] == used.last());
                        assert(prev.contains(nn[j]));
                        assert(used.drop_last().contains(nn[j]));
                        let l = choose|l: int|
                            0 <= l < used.drop_last().len() && used.drop_last()[l] == nn[j];
                        assert(used[l] == nn[j]);
                        assert(used[used.len() - 1] == used.last());
                    }
                }
            }
        }
    }
}

/// No sequence of distinct source identifiers has more entries than there
/// are identifier values.
proof fn lemma_distinct_source_ids_len(s: Seq<SourceId>)
    requires
        s.no_duplicates(),
    ensures
        s.len() <= 0x10000,
{
    let t = s.map_values(|id: SourceId| id.0 as int);
    assert(t.no_duplicates()) by {
        assert forall|i: int, j: int|
            0 <= i < t.len() && 0 <= j < t.len() && i != j implies t[i] != t[j] by {
            assert(s[i] != s[j]);
        }
    }
    t.unique_seq_to_set();
    let range = vstd::set_lib::set_int_range(0, 0x10000);
    assert(t.to_set().subset_of(range)) by {
        assert forall|e: int| t.to_set().contains(e) implies range.contains(e) by {
            let i = choose|i: int| 0 <= i < t.len() && t[i] == e;
            assert(0 <= s[i].0 < 0x10000);
        }
    }
    vstd::set_lib::lemma_int_range(0, 0x10000);
    vstd::set_lib::lemma_len_subset(t.to_set(), range);
}

/// `source_index` finds the first occurrence.
proof fn lemma_source_index_unique(sources: Seq<SourceId>, sid: SourceId, k: int)
    requires
        0 <= k < sources.len(),
        sources[k] == sid,
        forall|j: int| 0 <= j < k ==> sources[j] != sid,
    ensures
        source_index(sources, sid) == k,
    decreases sources.len(),
{
    if k == 0 {
    } else {
        assert(sources[0] != sid);
        lemma_source_index_unique(sources.drop_first(), sid, k - 1);
    }
}

/// Number of occurrences of `c` in `s`.
pub open spec fn count_char(s: Seq<char>, c: char) -> nat
    decreases s.len(),
{
    if s.len() == 0 {
        0
    } else {
        ((if s[0] == c {
            1int
        } else {
            0int
        }) + count_char(s.drop_first(), c)) as nat
    }
}

pub proof fn lemma_count_char_concat(a: Seq<char>, b: Seq<char>, c: char)
    ensures
        count_char(a + b, c) == count_char(a, c) + count_char(b, c),
    decreases a.len(),
{
    if a.len() == 0 {
        assert(a + b =~= b);
    } else {
        lemma_count_char_concat(a.drop_first(), b, c);
        assert((a + b).drop_first() =~= a.drop_first() + b);
        assert((a + b)[0] == a[0]);
    }
}

proof fn lemma_count_char_absent(s: Seq<char>, c: char)
    requires
        forall|k: int| 0 <= k < s.len() ==> s[k] != c,
    ensures
        count_char(s, c) == 0,
    decreases s.len(),
{
    if s.len() > 0 {
        lemma_count_char_absent(s.drop_first(), c);
    }
}

proof fn lemma_vlq_digits_no_such_char(p: nat, c: char)
    requires
        base64_value(c) < 0,
    ensures
        count_char(vlq_digits(p), c) == 0,
    decreases p,
{
    if p < 32 {
        lemma_base64_char_value(p as int);
        if base64_char(p as int) == c {
            assert(base64_value(c) == p);
        }
        assert(vlq_digits(p) =~= seq![base64_char(p as int)]);
        lemma_count_char_absent(vlq_digits(p), c);
    } else {
        lemma_base64_char_value((p % 32 + 32) as int);
        if base64_char((p % 32 + 32) as int) == c {
            assert(base64_value(c) == p % 32 + 32);
        }
        lemma_vlq_digits_no_such_char(p / 32, c);
        lemma_count_char_concat(
            seq![base64_char((p % 32 + 32) as int)],
            vlq_digits(p / 32),
            c,
        );
        lemma_count_char_absent(seq![base64_char((p % 32 + 32) as int)], c);
    }
}

/// A VLQ encoding contains only Base64 alphabet characters; in particular
/// neither `;` nor `,`.
pub proof fn lemma_vlq_encode_no_separator(v: int, c: char)
    requires
        base64_value(c) < 0,
    ensures
        count_char(vlq_encode(v), c) == 0,
{
    lemma_vlq_digits_no_such_char(vlq_payload(v), c);
}

proof fn lemma_segment_separator_free(
    fsv: Seq<SourceView>,
    sources: Seq<SourceId>,
    st: SerializeState,
    m: SourceMapping,
    c: char,
)
    requires
        base64_value(c) < 0,
    ensures
        count_char(mapping_segment(fsv, sources, st, m), c) == 0,
{
    let lc = source_line_col(fsv, m.from_source, m.source_byte_start as int);
    let a = vlq_encode(m.on_output_column - st.last_output_column);
    let b = vlq_encode(source_index(sources, m.from_source));
    let d = vlq_encode(lc.0 - st.last_source_line);
    let e = vlq_encode(lc.1 - st.last_source_column);
    lemma_vlq_encode_no_separator(m.on_output_column - st.last_output_column, c);
    lemma_vlq_encode_no_separator(source_index(sources, m.from_source), c);
    lemma_vlq_encode_no_separator(lc.0 - st.last_source_line, c);
    lemma_vlq_encode_no_separator(lc.1 - st.last_source_column, c);
    lemma_count_char_concat(a, b, c);
    lemma_count_char_concat(a + b, d, c);
    lemma_count_char_concat(a + b + d, e, c);
}

/// Number of break events.
pub open spec fn count_breaks(events: Seq<MappingOrBreak>) -> nat
    decreases events.len(),
{
    if events.len() == 0 {
        0
    } else {
        ((match events[0] {
            MappingOrBreak::Break => 1int,
            MappingOrBreak::Mapping(_) => 0int,
        }) + count_breaks(events.drop_first())) as nat
    }
}

/// Break semantics: the serialized `mappings` text holds exactly one `;`
/// per recorded break event, wherever the serializer starts from.
pub proof fn lemma_break_count(
    fsv: Seq<SourceView>,
    sources: Seq<SourceId>,
    events: Seq<MappingOrBreak>,
    st: SerializeState,
)
    ensures
        count_char(serialize_mappings(fsv, sources, events, st), ';') == count_breaks(events),
    decreases events.len(),
{
    assert(base64_value(';') < 0);
    if events.len() == 0 {
    } else {
        let rest = events.drop_first();
        match events[0] {
            MappingOrBreak::Break => {
                lemma_break_count(fsv, sources, rest, break_step(st));
                lemma_count_char_concat(
                    seq![';'],
                    serialize_mappings(fsv, sources, rest, break_step(st)),
                    ';',
                );
                assert(seq![';'].drop_first() =~= Seq::<char>::empty());
                assert(count_char(Seq::<char>::empty(), ';') == 0);
                assert(count_char(seq![';'], ';') == 1);
            },
            MappingOrBreak::Mapping(m) => {
                if m.from_source.0 == 0 {
                    lemma_break_count(fsv, sources, rest, st);
                } else {
                    let st2 = mapping_step(fsv, st, m);
                    lemma_break_count(fsv, sources, rest, st2);
                    let comma: Seq<char> = if st.after_mapping {
                        seq![',']
                    } else {
                        Seq::<char>::empty()
                    };
                    let seg = mapping_segment(fsv, sources, st, m);
                    lemma_segment_separator_free(fsv, sources, st, m, ';');
                    lemma_count_char_absent(comma, ';');
                    lemma_count_char_concat(comma, seg, ';');
                    lemma_count_char_concat(
                        comma + seg,
                        serialize_mappings(fsv, sources, rest, st2),
                        ';',
                    );
                }
            },
        }
    }
}

/// Number of `,` separators the events call for: one for every mapping
/// with a non-null source that directly follows another such mapping with
/// no break in between.
pub open spec fn count_segment_commas(events: Seq<MappingOrBreak>, after_mapping: bool) -> nat
    decreases events.len(),
{
    if events.len() == 0 {
        0
    } else {
        match events[0] {
            MappingOrBreak::Break => count_segment_commas(events.drop_first(), false),
            MappingOrBreak::Mapping(m) => {
                if m.from_source.0 == 0 {
                    count_segment_commas(events.drop_first(), after_mapping)
                } else {
                    ((if after_mapping {
                        1int
                    } else {
                        0int
                    }) + count_segment_commas(events.drop_first(), true)) as nat
                }
            },
        }
    }
}

/// Segment separators: the serialized text holds exactly one `,` between
/// two consecutive segments on the same output line, and none across a
/// break.
pub proof fn lemma_comma_count(
    fsv: Seq<SourceView>,
    sources: Seq<SourceId>,
    events: Seq<MappingOrBreak>,
    st: SerializeState,
)
    ensures
        count_char(serialize_mappings(fsv, sources, events, st), ',') == count_segment_commas(
            events,
            st.after_mapping,
        ),
    decreases events.len(),
{
    assert(base64_value(',') < 0);
    if events.len() == 0 {
    } else {
        let rest = events.drop_first();
        match events[0] {
            MappingOrBreak::Break => {
                lemma_comma_count(fsv, sources, rest, break_step(st));
                lemma_count_char_concat(
                    seq![';'],
                    serialize_mappings(fsv, sources, rest, break_step(st)),
                    ',',
                );
                lemma_count_char_absent(seq![';'], ',');
            },
            MappingOrBreak::Mapping(m) => {
                if m.from_source.0 == 0 {
                    lemma_comma_count(fsv, sources, rest, st);
                } else {
                    let st2 = mapping_step(fsv, st, m);
                    lemma_comma_count(fsv, sources, rest, st2);
                    let comma: Seq<char> = if st.after_mapping {
                        seq![',']
                    } else {
                        Seq::<char>::empty()
                    };
                    let seg = mapping_segment(fsv, sources, st, m);
                    lemma_segment_separator_free(fsv, sources, st, m, ',');
                    lemma_count_char_concat(comma, seg, ',');
                    lemma_count_char_concat(
                        comma + seg,
                        serialize_mappings(fsv, sources, rest, st2),
                        ',',
                    );
                    assert(count_char(comma, ',') == if st.after_mapping {
                        1int
                    } else {
                        0int
                    }) by {
                        assert(count_char(Seq::<char>::empty(), ',') == 0);
                        if st.after_mapping {
                            assert(comma =~= seq![',']);
                            assert(seq![','].drop_first() =~= Seq::<char>::empty());
                            assert(count_char(seq![','], ',') == 1);
                        }
                    }
                }
            },
        }
    }
}

/// Null source suppression: a mapping event that carries the null source,
/// inserted anywhere, leaves the serialized `mappings` text unchanged.
pub proof fn lemma_null_mapping_suppressed(
    fsv: Seq<SourceView>,
    sources: Seq<SourceId>,
    events: Seq<MappingOrBreak>,
    st: SerializeState,
    at: int,
    m: SourceMapping,
)
    requires
        m.from_source.0 == 0,
        0 <= at <= events.len(),
    ensures
        serialize_mappings(
            fsv,
            sources,
            events.insert(at, MappingOrBreak::Mapping(m)),
            st,
        ) == serialize_mappings(fsv, sources, events, st),
    decreases events.len(),
{
    let with = events.insert(at, MappingOrBreak::Mapping(m));
    if at == 0 {
        assert(with[0] == MappingOrBreak::Mapping(m));
        assert(with.drop_first() =~= events);
    } else {
        assert(with[0] == events[0]);
        assert(with.drop_first() =~= events.drop_first().insert(
            at - 1,
            MappingOrBreak::Mapping(m),
        ));
        match events[0] {
            MappingOrBreak::Break => {
                lemma_null_mapping_suppressed(
                    fsv,
                    sources,
                    events.drop_first(),
                    break_step(st),
                    at - 1,
                    m,
                );
            },
            MappingOrBreak::Mapping(m0) => {
                if m0.from_source.0 == 0 {
                    lemma_null_mapping_suppressed(
                        fsv,
                        sources,
                        events.drop_first(),
                        st,
                        at - 1,
                        m,
                    );
                } else {
                    lemma_null_mapping_suppressed(
                        fsv,
                        sources,
                        events.drop_first(),
                        mapping_step(fsv, st, m0),
                        at - 1,
                        m,
                    );
                }
            },
        }
    }
}

/// Struct for building the `mappings` field and `sources` list of a
/// source map (v3).
pub struct SourceMapBuilder {
    current_output_line: u32,
    current_output_column: u32,
    mappings: Vec<MappingOrBreak>,
    used_sources: Vec<SourceId>,
}

/// The compact serialized form of the recorded mappings, together with
/// the sources they refer to, in first-recorded order.
pub struct SourceMap {
    pub mappings: String,
    pub sources: Vec<SourceId>,
}

impl Clone for SourceMap {
    fn clone(&self) -> (r: Self)
        ensures
            r.mappings@ == self.mappings@,
            r.sources@ == self.sources@,
    {
        let sources = clone_source_ids(&self.sources);
        SourceMap { mappings: self.mappings.clone(), sources }
    }
}

fn clone_source_ids(v: &Vec<SourceId>) -> (r: Vec<SourceId>)
    ensures
        r@ == v@,
{
    let mut out: Vec<SourceId> = Vec::new();
    let mut i: usize = 0;
    while i < v.len()
        invariant
            i <= v@.len(),
            out@ =~= v@.subrange(0, i as int),
        decreases v@.len() - i,
    {
        out.push(v[i]);
        proof {
            assert(out@ =~= v@.subrange(0, i + 1int));
        }
        i = i + 1;
    }
    proof {
        assert(v@.subrange(0, v@.len() as int) =~= v@);
    }
    out
}

impl SourceMapBuilder {
    /// The recorded events, in call order.
    pub closed spec fn events(&self) -> Seq<MappingOrBreak> {
        self.mappings@
    }

    /// The sources recorded so far, in first-recorded order, without
    /// repetition.
    pub closed spec fn used(&self) -> Seq<SourceId> {
        self.used_sources@
    }

    pub closed spec fn output_line(&self) -> int {
        self.current_output_line as int
    }

    pub closed spec fn output_column(&self) -> int {
        self.current_output_column as int
    }

    /// The used-source list has no repetition and covers every recorded
    /// mapping's source.
    pub open spec fn wf(&self) -> bool {
        &&& self.used().no_duplicates()
        &&& forall|i: int|
            0 <= i < self.events().len() ==> match #[trigger] self.events()[i] {
                MappingOrBreak::Mapping(m) => self.used().contains(m.from_source),
                MappingOrBreak::Break => true,
            }
    }

    /// An empty builder: no events, no sources, output position (0, 0).
    pub fn new() -> (r: SourceMapBuilder)
        ensures
            r.wf(),
            r.events() =~= Seq::<MappingOrBreak>::empty(),
            r.used() =~= Seq::<SourceId>::empty(),
            r.output_line() == 0,
            r.output_column() == 0,
    {
        SourceMapBuilder {
            current_output_line: 0,
            current_output_column: 0,
            mappings: Vec::new(),
            used_sources: Vec::new(),
        }
    }

    /// Records that a new line was added to the output: appends a break
    /// and resets the output column.
    pub fn add_new_line(&mut self)
        requires
            old(self).wf(),
            old(self).output_line() + 1 <= u32::MAX,
        ensures
            final(self).wf(),
            final(self).events() =~= old(self).events().push(MappingOrBreak::Break),
            final(self).used() == old(self).used(),
            final(self).output_line() == old(self).output_line() + 1,
            final(self).output_column() == 0,
    {
        self.current_output_line = self.current_output_line + 1;
        self.current_output_column = 0;
        self.mappings.push(MappingOrBreak::Break);
    }

    /// Records that `length` columns of output were written.
    pub fn add_to_column(&mut self, length: usize)
        requires
            old(self).wf(),
            old(self).output_column() + length <= u32::MAX,
        ensures
            final(self).wf(),
            final(self).events() == old(self).events(),
            final(self).used() == old(self).used(),
            final(self).output_line() == old(self).output_line(),
            final(self).output_column() == old(self).output_column() + length,
    {
        self.current_output_column = self.current_output_column + length as u32;
    }

    /// The output column the builder believes the next character will be
    /// written at.
    pub fn current_column(&self) -> (r: u32)
        ensures
            r as int == self.output_column(),
    {
        self.current_output_column
    }

    /// Records a mapping from the start of `source_position` to output
    /// column `current_column` on the current output line.
    pub fn add_mapping(&mut self, source_position: &SpanWithSource, current_column: u32)
        requires
            old(self).wf(),
        ensures
            final(self).wf(),
            final(self).events() =~= old(self).events().push(
                MappingOrBreak::Mapping(
                    SourceMapping {
                        on_output_column: current_column,
                        source_byte_start: source_position.start,
                        from_source: source_position.source,
                    },
                ),
            ),
            final(self).used() =~= (if old(self).used().contains(source_position.source) {
                old(self).used()
            } else {
                old(self).used().push(source_position.source)
            }),
            final(self).output_line() == old(self).output_line(),
            final(self).output_column() == old(self).output_column(),
    {
        let mut already = false;
        let mut i: usize = 0;
        while i < self.used_sources.len()
            invariant
                i <= self.used().len(),
                already == exists|j: int| 0 <= j < i && self.used()[j] == source_position.source,
            decreases self.used().len() - i,
        {
            if self.used_sources[i] == source_position.source {
                already = true;
            }
            i = i + 1;
        }
        if !already {
            self.used_sources.push(source_position.source);
        }
        self.mappings.push(
            MappingOrBreak::Mapping(
                SourceMapping {
                    on_output_column: current_column,
                    source_byte_start: source_position.start,
                    from_source: source_position.source,
                },
            ),
        );
        proof {
            let src = source_position.source;
            let oldu = old(self).used();
            let newu = self.used();
            if !oldu.contains(src) {
                assert(newu =~= oldu.push(src));
                assert forall|k: int, l: int|
                    0 <= k < newu.len() && 0 <= l < newu.len() && k != l implies newu[k]
                    != newu[l] by {
                    if k < newu.len() - 1 && l < newu.len() - 1 {
                        assert(oldu[k] != oldu[l]);
                    } else if k < newu.len() - 1 {
                        assert(newu[l] == src);
                        if oldu[k] == src {
                            assert(oldu.contains(src));
                        }
                    } else {
                        assert(newu[k] == src);
                        if oldu[l] == src {
                            assert(oldu.contains(src));
                        }
                    }
                }
                assert(newu.no_duplicates());
            } else {
                assert(newu == oldu);
            }
            assert(newu.contains(src)) by {
                if oldu.contains(src) {
                    let w = choose|w: int| 0 <= w < oldu.len() && oldu[w] == src;
                    assert(newu[w] == src);
                } else {
                    assert(newu[newu.len() - 1] == src);
                }
            }
            assert forall|i: int| 0 <= i < self.events().len() implies match #[trigger] self.events()[i] {
                MappingOrBreak::Mapping(m) => newu.contains(m.from_source),
                MappingOrBreak::Break => true,
            } by {
                if i < self.events().len() - 1 {
                    assert(self.events()[i] == old(self).events()[i]);
                    match old(self).events()[i] {
                        MappingOrBreak::Mapping(m) => {
                            assert(oldu.contains(m.from_source));
                            let w = choose|w: int| 0 <= w < oldu.len() && oldu[w]
                                == m.from_source;
                            assert(newu[w] == m.from_source);
                            assert(newu.contains(m.from_source));
                        },
                        MappingOrBreak::Break => {},
                    }
                }
            }
        }
    }

    /// Serializes the recorded events against the line-start indexes that
    /// `fs` holds now: the `mappings` text is `serialize_mappings` of the
    /// events, and `sources` is the used list without the null
    /// identifier.
    pub fn build<FS: FileSystem>(self, fs: &FS) -> (r: SourceMap)
        requires
            self.wf(),
            fs.wf(),
            forall|i: int|
                0 <= i < self.used().len() ==> ((#[trigger] self.used()[i]).0 == 0 || (
                1 <= self.used()[i].0 <= fs.sources().len() && encode_utf8(
                    fs.sources()[self.used()[i].0 - 1].content,
                ).len() <= u32::MAX)),
        ensures
            r.sources@ =~= nonnull_sources(self.used()),
            r.mappings@ =~= serialize_mappings(
                fs.sources(),
                nonnull_sources(self.used()),
                self.events(),
                init_serialize_state(),
            ),
    {
        let ghost fsv = fs.sources();
        let mut sources: Vec<SourceId> = Vec::new();
        let mut splits: Vec<crate::lines_columns_indexes::LineStarts> = Vec::new();
        let used_len = self.used_sources.len();
        let mut u: usize = 0;
        proof {
            assert(self.used().subrange(0, 0) =~= Seq::<SourceId>::empty());
        }
        while u < used_len
            invariant
                u <= used_len,
                used_len == self.used().len(),
                fs.wf(),
                fsv == fs.sources(),
                forall|i: int|
                    0 <= i < self.used().len() ==> ((#[trigger] self.used()[i]).0 == 0 || (
                    1 <= self.used()[i].0 <= fs.sources().len() && encode_utf8(
                        fs.sources()[self.used()[i].0 - 1].content,
                    ).len() <= u32::MAX)),
                sources@ =~= nonnull_sources(self.used().subrange(0, u as int)),
                splits@.len() == sources@.len(),
                forall|j: int|
                    0 <= j < sources@.len() ==> (#[trigger] splits@[j])@ == line_starts_spec(
                        encode_utf8(fsv[sources@[j].0 - 1].content),
                    ) && splits@[j].wf() && 1 <= sources@[j].0 <= fsv.len() && encode_utf8(
                        fsv[sources@[j].0 - 1].content,
                    ).len() <= u32::MAX,
            decreases used_len - u,
        {
            let id = self.used_sources[u];
            if id.0 != 0 {
                let ls = fs.get_line_starts(id);
                sources.push(id);
                splits.push(ls);
            }
            proof {
                assert(self.used().subrange(0, u + 1int).drop_last() =~= self.used().subrange(
                    0,
                    u as int,
                ));
                assert(self.used().subrange(0, u + 1int).last() == self.used()[u as int]);
            }
            u = u + 1;
        }
        proof {
            assert(self.used().subrange(0, used_len as int) =~= self.used());
            lemma_nonnull_sources(self.used());
            lemma_distinct_source_ids_len(nonnull_sources(self.used()));
        }

        let mut buf = String::new();
        let mut after_mapping = false;
        let mut last_line: usize = 0;
        let mut last_column: usize = 0;
        let mut last_output_column: u32 = 0;
        let ghost events = self.events();
        let ghost srcs = sources@;
        let mut e: usize = 0;
        let events_len = self.mappings.len();
        proof {
            assert(events.skip(0) =~= events);
        }
        while e < events_len
            invariant
                e <= events_len,
                events_len == events.len(),
                events == self.events(),
                srcs == sources@,
                splits@.len() == srcs.len(),
                srcs.len() <= 0x10000,
                fsv == fs.sources(),
                self.wf(),
                forall|j: int|
                    0 <= j < srcs.len() ==> (#[trigger] splits@[j])@ == line_starts_spec(
                        encode_utf8(fsv[srcs[j].0 - 1].content),
                    ) && splits@[j].wf() && 1 <= srcs[j].0 <= fsv.len() && encode_utf8(
                        fsv[srcs[j].0 - 1].content,
                    ).len() <= u32::MAX,
                forall|x: SourceId| srcs.contains(x) <==> (self.used().contains(x) && x.0 != 0),
                last_line <= u32::MAX,
                last_column <= u32::MAX,
                serialize_mappings(fsv, srcs, events, init_serialize_state()) =~= buf@
                    + serialize_mappings(
                    fsv,
                    srcs,
                    events.skip(e as int),
                    SerializeState {
                        after_mapping: after_mapping,
                        last_source_line: last_line as int,
                        last_source_column: last_column as int,
                        last_output_column: last_output_column as int,
                    },
                ),
            decreases events_len - e,
        {
            let ghost st = SerializeState {
                after_mapping: after_mapping,
                last_source_line: last_line as int,
                last_source_column: last_column as int,
                last_output_column: last_output_column as int,
            };
            proof {
                assert(events.skip(e as int)[0] == events[e as int]);
                assert(events.skip(e as int).drop_first() =~= events.skip(e + 1int));
            }
            let ev = self.mappings[e];
            match ev {
                MappingOrBreak::Mapping(m) => {
                    if m.from_source.0 == 0 {
                        // Dropped silently; the serializer state does not move.
                    } else {
                        proof {
                            assert(self.used().contains(m.from_source));
                            assert(srcs.contains(m.from_source));
                        }
                        if after_mapping {
                            crate::text::push_char(&mut buf, ',');
                        }
                        let delta_out: i64 = m.on_output_column as i64 - last_output_column as i64;
                        vlq_encode_integer_to_buffer(&mut buf, delta_out);
                        last_output_column = m.on_output_column;
                        // Index of the source in the serialized list.
                        let mut idx: usize = 0;
                        let slen = sources.len();
                        while idx < slen && sources[idx].0 != m.from_source.0
                            invariant
                                idx <= slen,
                                slen == srcs.len(),
                                srcs == sources@,
                                srcs.contains(m.from_source),
                                forall|j: int| 0 <= j < idx ==> srcs[j] != m.from_source,
                            decreases slen - idx,
                        {
                            idx = idx + 1;
                        }
                        proof {
                            if idx == slen {
                                let w = choose|w: int| 0 <= w < srcs.len() && srcs[w]
                                    == m.from_source;
                                assert(false);
                            }
                            assert(srcs[idx as int].0 == m.from_source.0);
                            assert(srcs[idx as int] == m.from_source);
                            lemma_source_index_unique(srcs, m.from_source, idx as int);
                        }
                        vlq_encode_integer_to_buffer(&mut buf, idx as i64);
                        let lc = splits[idx].get_line_and_column_pos_is_on(
                            m.source_byte_start as usize,
                        );
                        proof {
                            crate::lines_columns_indexes::lemma_line_starts_len(
                                encode_utf8(fsv[m.from_source.0 - 1].content),
                            );
                        }
                        let source_line = lc.0;
                        let source_column = lc.1;
                        let line_diff: i64 = source_line as i64 - last_line as i64;
                        vlq_encode_integer_to_buffer(&mut buf, line_diff);
                        last_line = source_line;
                        let column_diff: i64 = source_column as i64 - last_column as i64;
                        vlq_encode_integer_to_buffer(&mut buf, column_diff);
                        last_column = source_column;
                        after_mapping = true;
                    }
                },
                MappingOrBreak::Break => {
                    crate::text::push_char(&mut buf, ';');
                    after_mapping = false;
                    last_output_column = 0;
                },
            }
            e = e + 1;
        }
        proof {
            assert(events.skip(events_len as int) =~= Seq::<MappingOrBreak>::empty());
        }
        SourceMap { mappings: buf, sources }
    }
}

/// The JSON escaping applied to `sourcesContent`: `\n`, `\r` and `"` are
/// escaped, nothing else.
pub open spec fn escape_char(c: char) -> Seq<char> {
    if c == '\n' {
        seq!['\\', 'n']
    } else if c == '\r' {
        seq!['\\', 'r']
    } else if c == '"' {
        seq!['\\', '"']
    } else {
        seq![c]
    }
}

pub open spec fn escape_json(s: Seq<char>) -> Seq<char>
    decreases s.len(),
{
    if s.len() == 0 {
        Seq::empty()
    } else {
        escape_char(s[0]) + escape_json(s.drop_first())
    }
}

pub proof fn lemma_escape_json_concat(a: Seq<char>, b: Seq<char>)
    ensures
        escape_json(a + b) =~= escape_json(a) + escape_json(b),
    decreases a.len(),
{
    if a.len() == 0 {
        assert(a + b =~= b);
    } else {
        lemma_escape_json_concat(a.drop_first(), b);
        assert((a + b).drop_first() =~= a.drop_first() + b);
        assert((a + b)[0] == a[0]);
    }
}

/// Paths are rendered with forward slashes on every platform.
pub open spec fn slashed_path(s: Seq<char>) -> Seq<char> {
    s.map_values(
        |c: char|
            if c == '\\' {
                '/'
            } else {
                c
            },
    )
}

/// The `sources` JSON list body: the quoted, slashed paths, separated by
/// commas.
pub open spec fn paths_json(fsv: Seq<SourceView>, ids: Seq<SourceId>) -> Seq<char>
    decreases ids.len(),
{
    if ids.len() == 0 {
        Seq::empty()
    } else {
        paths_json(fsv, ids.drop_last()) + (if ids.len() > 1 {
            seq![',']
        } else {
            Seq::<char>::empty()
        }) + seq!['"'] + slashed_path(fsv[ids.last().0 - 1].path) + seq!['"']
    }
}

/// The `sourcesContent` JSON list body: the quoted, escaped contents,
/// separated by commas.
pub open spec fn contents_json(fsv: Seq<SourceView>, ids: Seq<SourceId>) -> Seq<char>
    decreases ids.len(),
{
    if ids.len() == 0 {
        Seq::empty()
    } else {
        contents_json(fsv, ids.drop_last()) + (if ids.len() > 1 {
            seq![',']
        } else {
            Seq::<char>::empty()
        }) + seq!['"'] + escape_json(fsv[ids.last().0 - 1].content) + seq!['"']
    }
}

/// The complete source-map JSON envelope, with its fields in this fixed
/// order.
pub open spec fn source_map_json(
    fsv: Seq<SourceView>,
    ids: Seq<SourceId>,
    mappings: Seq<char>,
) -> Seq<char> {
    "{\"version\":3,\"sourceRoot\":\"\",\"sources\":["@ + paths_json(fsv, ids)
        + "],\"sourcesContent\":["@ + contents_json(fsv, ids) + "],\"names\":[],\"mappings\":\""@
        + mappings + "\"}"@
}

/// Appends `path` to `buf` with every backslash replaced by a forward
/// slash.
fn push_slashed_path(buf: &mut String, path: &str)
    ensures
        final(buf)@ =~= old(buf)@ + slashed_path(path@),
{
    let n = path.unicode_len();
    let mut j: usize = 0;
    while j < n
        invariant
            j <= n,
            n == path@.len(),
            buf@ =~= old(buf)@ + slashed_path(path@.take(j as int)),
        decreases n - j,
    {
        let c = path.get_char(j);
        if c == '\\' {
            crate::text::push_char(buf, '/');
        } else {
            crate::text::push_char(buf, c);
        }
        proof {
            assert(path@.take(j + 1int) =~= path@.take(j as int).push(path@[j as int]));
        }
        j = j + 1;
    }
    proof {
        assert(path@.take(n as int) =~= path@);
    }
}

/// Appends `content` to `buf` under the JSON escaping of
/// `sourcesContent`.
fn push_escaped_content(buf: &mut String, content: &str)
    ensures
        final(buf)@ =~= old(buf)@ + escape_json(content@),
{
    let n = content.unicode_len();
    let mut j: usize = 0;
    while j < n
        invariant
            j <= n,
            n == content@.len(),
            buf@ =~= old(buf)@ + escape_json(content@.take(j as int)),
        decreases n - j,
    {
        let c = content.get_char(j);
        if c == '\n' {
            crate::text::push_char(buf, '\\');
            crate::text::push_char(buf, 'n');
        } else if c == '\r' {
            crate::text::push_char(buf, '\\');
            crate::text::push_char(buf, 'r');
        } else if c == '"' {
            crate::text::push_char(buf, '\\');
            crate::text::push_char(buf, '"');
        } else {
            crate::text::push_char(buf, c);
        }
        proof {
            let pre = content@.take(j as int);
            assert(content@.take(j + 1int) =~= pre + seq![content@[j as int]]);
            lemma_escape_json_concat(pre, seq![content@[j as int]]);
            assert(seq![content@[j as int]].drop_first() =~= Seq::<char>::empty());
            assert(escape_json(Seq::<char>::empty()) =~= Seq::<char>::empty());
            assert(escape_json(seq![content@[j as int]]) == escape_char(content@[j as int])
                + escape_json(Seq::<char>::empty()));
            assert(escape_json(seq![content@[j as int]]) =~= escape_char(content@[j as int]));
        }
        j = j + 1;
    }
    proof {
        assert(content@.take(n as int) =~= content@);
    }
}

impl SourceMap {
    /// Renders the fixed-order JSON envelope of this source map, reading
    /// each source's path and content from `filesystem`.
    pub fn to_json<FS: FileSystem>(self, filesystem: &FS) -> (r: String)
        requires
            filesystem.wf(),
            forall|i: int|
                0 <= i < self.sources@.len() ==> 1 <= (#[trigger] self.sources@[i]).0
                    <= filesystem.sources().len(),
        ensures
            r@ =~= source_map_json(filesystem.sources(), self.sources@, self.mappings@),
    {
        let ghost fsv = filesystem.sources();
        let ids = self.sources;
        let mut sources_buf = String::new();
        let mut contents_buf = String::new();
        let n = ids.len();
        let mut i: usize = 0;
        while i < n
            invariant
                i <= n,
                n == ids@.len(),
                fsv == filesystem.sources(),
                filesystem.wf(),
                forall|k: int|
                    0 <= k < ids@.len() ==> 1 <= (#[trigger] ids@[k]).0 <= fsv.len(),
                sources_buf@ =~= paths_json(fsv, ids@.take(i as int)),
                contents_buf@ =~= contents_json(fsv, ids@.take(i as int)),
            decreases n - i,
        {
            if i != 0 {
                crate::text::push_char(&mut sources_buf, ',');
                crate::text::push_char(&mut contents_buf, ',');
            }
            let pc = filesystem.get_file_path_and_content(ids[i]);
            crate::text::push_char(&mut sources_buf, '"');
            push_slashed_path(&mut sources_buf, pc.0.as_str());
            crate::text::push_char(&mut sources_buf, '"');
            crate::text::push_char(&mut contents_buf, '"');
            push_escaped_content(&mut contents_buf, pc.1.as_str());
            crate::text::push_char(&mut contents_buf, '"');
            proof {
                assert(ids@.take(i + 1int).drop_last() =~= ids@.take(i as int));
                assert(ids@.take(i + 1int).last() == ids@[i as int]);
            }
            i = i + 1;
        }
        proof {
            assert(ids@.take(n as int) =~= ids@);
        }
        let mut out = String::new();
        out.append("{\"version\":3,\"sourceRoot\":\"\",\"sources\":[");
        out.append(sources_buf.as_str());
        out.append("],\"sourcesContent\":[");
        out.append(contents_buf.as_str());
        out.append("],\"names\":[],\"mappings\":\"");
        out.append(self.mappings.as_str());
        out.append("\"}");
        out
    }
}

/// Number of bytes after the last newline of `bytes`, which is the byte
/// column that appending to this text would continue at.
pub open spec fn chars_after_last_newline(bytes: Seq<u8>) -> nat
    decreases bytes.len(),
{
    if bytes.len() == 0 {
        0
    } else if bytes.last() == 10 {
        0
    } else {
        1 + chars_after_last_newline(bytes.drop_last())
    }
}

/// Bytes on the last line of `s`, scanning backwards to the previous
/// newline.
pub fn count_characters_on_last_line(s: &str) -> (r: u32)
    requires
        s.spec_bytes().len() <= u32::MAX,
    ensures
        r == chars_after_last_newline(s.spec_bytes()),
{
    let bytes = s.as_bytes();
    let n = bytes.len();
    let mut count: u32 = 0;
    let mut i: usize = n;
    proof {
        assert(bytes@.take(n as int) =~= bytes@);
    }
    while i > 0
        invariant
            i <= n,
            n == bytes@.len(),
            bytes@ == s.spec_bytes(),
            n <= u32::MAX,
            count == n - i,
            chars_after_last_newline(bytes@) == count + chars_after_last_newline(
                bytes@.take(i as int),
            ),
            forall|j: int| i <= j < n ==> bytes@[j] != 10,
        decreases i,
    {
        if bytes[i - 1] == 10 {
            proof {
                assert(bytes@.take(i as int).last() == bytes@[i - 1]);
            }
            return count;
        }
        proof {
            assert(bytes@.take(i as int).last() == bytes@[i - 1]);
            assert(bytes@.take(i as int).drop_last() =~= bytes@.take(i - 1int));
        }
        count = count + 1;
        i = i - 1;
    }
    proof {
        assert(bytes@.take(0) =~= Seq::<u8>::empty());
    }
    count
}

impl Default for SourceMapBuilder {
    fn default() -> (r: Self)
        ensures
            r.wf(),
            r.events() =~= Seq::<MappingOrBreak>::empty(),
            r.used() =~= Seq::<SourceId>::empty(),
            r.output_line() == 0,
            r.output_column() == 0,
    {
        SourceMapBuilder::new()
    }
}

} // verus!
