//! How columns are measured inside a line: byte-wise, or in Unicode code
//! points over the UTF-8 encoding.

use vstd::prelude::*;
use vstd::string::StringSliceAdditionalSpecFns;
use vstd::utf8::{
    is_continuation_byte, length_of_first_scalar, pop_first_scalar, take_first_scalar,
    valid_first_scalar, valid_utf8,
};

verus! {

/// Number of code points in a UTF-8 byte sequence: its leading
/// (non-continuation) bytes.
pub open spec fn utf8_count(bytes: Seq<u8>) -> nat
    decreases bytes.len(),
{
    if bytes.len() == 0 {
        0
    } else {
        ((if is_continuation_byte(bytes[0]) {
            0int
        } else {
            1int
        }) + utf8_count(bytes.drop_first())) as nat
    }
}

/// Width in bytes of the scalar whose encoding begins with `b`; 1 for a
/// byte that cannot begin one.
pub open spec fn scalar_width(b: u8) -> int {
    if b < 0xc0 {
        1
    } else if b < 0xe0 {
        2
    } else if b < 0xf0 {
        3
    } else {
        4
    }
}

/// Number of bytes spanned by the first `n` code points of `bytes`:
/// the byte offset reached by stepping over `n` scalar encodings, never
/// past the end.
pub open spec fn utf8_advance(bytes: Seq<u8>, n: nat) -> int
    decreases bytes.len(),
{
    if n == 0 {
        0
    } else if bytes.len() == 0 {
        0
    } else {
        let w = if scalar_width(bytes[0]) <= bytes.len() {
            scalar_width(bytes[0])
        } else {
            bytes.len() as int
        };
        w + utf8_advance(bytes.skip(w), (n - 1) as nat)
    }
}

pub proof fn lemma_utf8_count_concat(a: Seq<u8>, b: Seq<u8>)
    ensures
        utf8_count(a + b) == utf8_count(a) + utf8_count(b),
    decreases a.len(),
{
    if a.len() == 0 {
        assert(a + b =~= b);
    } else {
        lemma_utf8_count_concat(a.drop_first(), b);
        assert((a + b).drop_first() =~= a.drop_first() + b);
        assert((a + b)[0] == a[0]);
    }
}

proof fn lemma_utf8_count_all_continuation(s: Seq<u8>)
    requires
        forall|i: int| 0 <= i < s.len() ==> is_continuation_byte(#[trigger] s[i]),
    ensures
        utf8_count(s) == 0,
    decreases s.len(),
{
    if s.len() > 0 {
        lemma_utf8_count_all_continuation(s.drop_first());
    }
}

/// The width guess from the first byte agrees with the scalar's real
/// length where a valid scalar begins, and one scalar holds exactly one
/// leading byte.
pub proof fn lemma_first_scalar_shape(bytes: Seq<u8>)
    requires
        valid_first_scalar(bytes),
    ensures
        scalar_width(bytes[0]) == length_of_first_scalar(bytes),
        1 <= length_of_first_scalar(bytes) <= bytes.len(),
        utf8_count(take_first_scalar(bytes)) == 1,
        !is_continuation_byte(bytes[0]),
{
    let w = length_of_first_scalar(bytes);
    let head = take_first_scalar(bytes);
    assert(head.len() == w);
    assert(head[0] == bytes[0]);
    assert forall|i: int| 0 <= i < head.drop_first().len() implies is_continuation_byte(
        #[trigger] head.drop_first()[i],
    ) by {
        assert(head.drop_first()[i] == bytes[i + 1]);
    }
    lemma_utf8_count_all_continuation(head.drop_first());
}

/// Advancing over as many code points as a prefix holds lands exactly at
/// the end of that prefix, for every character boundary of a valid
/// UTF-8 sequence.
pub proof fn lemma_utf8_advance_count(bytes: Seq<u8>, q: int)
    requires
        valid_utf8(bytes),
        vstd::utf8::is_char_boundary(bytes, q),
        0 <= q <= bytes.len(),
    ensures
        utf8_advance(bytes, utf8_count(bytes.take(q))) == q,
    decreases q,
{
    if q == 0 {
        assert(bytes.take(0) =~= Seq::<u8>::empty());
    } else {
        assert(bytes.len() > 0);
        let w = length_of_first_scalar(bytes);
        assert(q >= w) by {
            vstd::utf8::is_char_boundary_iff_not_is_continuation_byte(bytes, q - 1);
            reveal_with_fuel(vstd::utf8::is_char_boundary, 2);
        }
        lemma_first_scalar_shape(bytes);
        let tail = pop_first_scalar(bytes);
        assert(bytes.take(q) =~= take_first_scalar(bytes) + tail.take(q - w));
        lemma_utf8_count_concat(take_first_scalar(bytes), tail.take(q - w));
        let n = utf8_count(bytes.take(q));
        assert(n == 1 + utf8_count(tail.take(q - w)));
        lemma_utf8_advance_count(tail, q - w);
        assert(bytes.skip(w) =~= tail);
        assert(utf8_advance(bytes, n) == w + utf8_advance(tail, (n - 1) as nat));
    }
}

/// A boundary of the whole sequence is a boundary of the suffix that
/// starts at an earlier boundary.
pub proof fn lemma_boundary_in_suffix(bytes: Seq<u8>, a: int, q: int)
    requires
        valid_utf8(bytes),
        vstd::utf8::is_char_boundary(bytes, a),
        vstd::utf8::is_char_boundary(bytes, q),
        0 <= a <= q <= bytes.len(),
    ensures
        vstd::utf8::is_char_boundary(bytes.skip(a), q - a),
    decreases a,
{
    if a == 0 {
        assert(bytes.skip(0) =~= bytes);
    } else {
        let w = length_of_first_scalar(bytes);
        assert(a >= w) by {
            reveal_with_fuel(vstd::utf8::is_char_boundary, 2);
        }
        assert(q >= w) by {
            reveal_with_fuel(vstd::utf8::is_char_boundary, 2);
        }
        lemma_first_scalar_shape(bytes);
        let tail = pop_first_scalar(bytes);
        lemma_boundary_in_suffix(tail, a - w, q - w);
        assert(tail.skip(a - w) =~= bytes.skip(a));
    }
}

/// Counts the code points of `bytes[from..to]`: its non-continuation
/// bytes.
pub fn utf8_count_range(bytes: &[u8], from: usize, to: usize) -> (r: usize)
    requires
        from <= to <= bytes@.len(),
    ensures
        r == utf8_count(bytes@.subrange(from as int, to as int)),
        r <= to - from,
{
    let mut count: usize = 0;
    let mut i = from;
    proof {
        assert(bytes@.subrange(from as int, from as int) =~= Seq::<u8>::empty());
    }
    while i < to
        invariant
            from <= i <= to <= bytes@.len(),
            count <= i - from,
            count == utf8_count(bytes@.subrange(from as int, i as int)),
        decreases to - i,
    {
        let b = bytes[i];
        proof {
            let pre = bytes@.subrange(from as int, i as int);
            let one = seq![bytes@[i as int]];
            assert(bytes@.subrange(from as int, i + 1int) =~= pre + one);
            lemma_utf8_count_concat(pre, one);
            assert(one.drop_first() =~= Seq::<u8>::empty());
            assert(utf8_count(Seq::<u8>::empty()) == 0);
        }
        if !(0x80 <= b && b <= 0xbf) {
            count = count + 1;
        }
        i = i + 1;
    }
    count
}

/// Steps over `length` code points of `bytes`, starting at `from`, and
/// returns the byte offset reached; never runs past the end.
pub fn utf8_advance_range(bytes: &[u8], from: usize, length: usize) -> (r: usize)
    requires
        from <= bytes@.len(),
    ensures
        r - from == utf8_advance(bytes@.skip(from as int), length as nat),
        from <= r <= bytes@.len(),
{
    let n = bytes.len();
    let mut i = from;
    let mut k: usize = 0;
    while k < length && i < n
        invariant
            from <= i <= n,
            n == bytes@.len(),
            k <= length,
            utf8_advance(bytes@.skip(from as int), length as nat) == (i - from) + utf8_advance(
                bytes@.skip(i as int),
                (length - k) as nat,
            ),
        decreases length - k,
    {
        let b = bytes[i];
        let w: usize = if b < 0xc0 {
            1
        } else if b < 0xe0 {
            2
        } else if b < 0xf0 {
            3
        } else {
            4
        };
        let ghost pre = i as int;
        proof {
            assert(bytes@.skip(pre)[0] == bytes@[pre]);
            assert(scalar_width(bytes@[pre]) == w);
        }
        if w > n - i {
            proof {
                assert(bytes@.skip(pre).skip(n - pre) =~= bytes@.skip(n as int));
                assert(bytes@.skip(n as int).len() == 0);
            }
            i = n;
        } else {
            proof {
                assert(bytes@.skip(pre).skip(w as int) =~= bytes@.skip(pre + w));
            }
            i = i + w;
        }
        k = k + 1;
        proof {
            if i == n {
                assert(utf8_advance(bytes@.skip(i as int), (length - k) as nat) == 0);
            }
        }
    }
    proof {
        if k == length {
            assert(utf8_advance(bytes@.skip(i as int), 0) == 0);
        } else {
            assert(i == n);
            assert(bytes@.skip(i as int).len() == 0);
            assert(utf8_advance(bytes@.skip(i as int), (length - k) as nat) == 0);
        }
    }
    i
}

/// How a column count relates to the bytes of the line it measures.
pub trait StringEncoding: Sized {
    /// The encoded length of a byte sequence: how many columns it spans.
    spec fn length_of(bytes: Seq<u8>) -> nat;

    /// How many bytes the first `length` columns of `bytes` span.
    spec fn length_to_bytes(bytes: Seq<u8>, length: nat) -> int;

    fn new() -> Self;

    /// The encoded length of a whole string.
    fn get_encoded_length(string: &str) -> (r: usize)
        ensures
            r == Self::length_of(string.spec_bytes()),
    ;

    /// The number of bytes of `string` that its first `length` columns
    /// span.
    fn encoded_length_to_byte_count(string: &str, length: usize) -> (r: usize)
        requires
            Self::length_to_bytes(string.spec_bytes(), length as nat) <= usize::MAX,
        ensures
            r == Self::length_to_bytes(string.spec_bytes(), length as nat),
    ;

    /// The encoded length of `bytes[from..to]`.
    fn encoded_length_range(bytes: &[u8], from: usize, to: usize) -> (r: usize)
        requires
            from <= to <= bytes@.len(),
        ensures
            r == Self::length_of(bytes@.subrange(from as int, to as int)),
            r <= to - from,
    ;

    /// The byte offset reached from `from` after `length` columns.
    fn advance_range(bytes: &[u8], from: usize, length: usize) -> (r: usize)
        requires
            from <= bytes@.len(),
            from + Self::length_to_bytes(bytes@.skip(from as int), length as nat) <= usize::MAX,
        ensures
            r - from == Self::length_to_bytes(bytes@.skip(from as int), length as nat),
    ;
}

/// Columns are bytes since the line start.
#[derive(Debug, PartialEq, Eq)]
pub struct ByteWiseEncoding;

impl StringEncoding for ByteWiseEncoding {
    open spec fn length_of(bytes: Seq<u8>) -> nat {
        bytes.len()
    }

    open spec fn length_to_bytes(bytes: Seq<u8>, length: nat) -> int {
        length as int
    }

    fn new() -> Self {
        ByteWiseEncoding
    }

    fn get_encoded_length(string: &str) -> (r: usize) {
        string.as_bytes().len()
    }

    fn encoded_length_to_byte_count(string: &str, length: usize) -> (r: usize) {
        length
    }

    fn encoded_length_range(bytes: &[u8], from: usize, to: usize) -> (r: usize) {
        to - from
    }

    fn advance_range(bytes: &[u8], from: usize, length: usize) -> (r: usize) {
        from + length
    }
}

/// Columns are code points since the line start, counted over the UTF-8
/// encoding.
#[derive(Debug, PartialEq, Eq)]
pub struct Utf8;

impl StringEncoding for Utf8 {
    open spec fn length_of(bytes: Seq<u8>) -> nat {
        utf8_count(bytes)
    }

    open spec fn length_to_bytes(bytes: Seq<u8>, length: nat) -> int {
        utf8_advance(bytes, length)
    }

    fn new() -> Self {
        Utf8
    }

    fn get_encoded_length(string: &str) -> (r: usize) {
        let bytes = string.as_bytes();
        let n = bytes.len();
        let r = utf8_count_range(bytes, 0, n);
        proof {
            assert(bytes@.subrange(0, n as int) =~= string.spec_bytes());
        }
        r
    }

    fn encoded_length_to_byte_count(string: &str, length: usize) -> (r: usize) {
        let bytes = string.as_bytes();
        let r = utf8_advance_range(bytes, 0, length);
        proof {
            assert(bytes@.skip(0) =~= string.spec_bytes());
        }
        r
    }

    fn encoded_length_range(bytes: &[u8], from: usize, to: usize) -> (r: usize) {
        let whole = utf8_count_range(bytes, from, to);
        whole
    }

    fn advance_range(bytes: &[u8], from: usize, length: usize) -> (r: usize) {
        utf8_advance_range(bytes, from, length)
    }
}

} // verus!
