//! Small trusted bridges to `std`'s string operations that vstd does not
//! specify, together with verified helpers about character widths.

use vstd::prelude::*;
use vstd::utf8::encode_utf8;

verus! {

/// UTF-8 encoding distributes over concatenation of character sequences.
pub proof fn lemma_encode_utf8_concat(a: Seq<char>, b: Seq<char>)
    ensures
        encode_utf8(a + b) =~= encode_utf8(a) + encode_utf8(b),
    decreases a.len(),
{
    if a.len() == 0 {
        assert(a + b =~= b);
        assert(encode_utf8(a) =~= Seq::<u8>::empty());
    } else {
        lemma_encode_utf8_concat(a.drop_first(), b);
        assert((a + b).drop_first() =~= a.drop_first() + b);
        assert((a + b)[0] == a[0]);
    }
}

/// Relies on `String::push`: appends exactly one character at the end of
/// the string.
#[verifier::external_body]
pub fn push_char(s: &mut String, c: char)
    ensures
        final(s)@ == old(s)@.push(c),
{
    s.push(c)
}

/// Relies on `str`'s `==` (its `PartialEq`): character-for-character
/// equality of the two strings.
#[verifier::external_body]
pub fn str_eq(a: &str, b: &str) -> (r: bool)
    ensures
        r == (a@ == b@),
{
    a == b
}

/// Number of bytes of the UTF-8 encoding of a character.
pub open spec fn char_utf8_width(c: char) -> nat {
    if (c as int) < 0x80 {
        1
    } else if (c as int) < 0x800 {
        2
    } else if (c as int) < 0x10000 {
        3
    } else {
        4
    }
}

/// Number of UTF-16 code units of a character.
pub open spec fn char_utf16_width(c: char) -> nat {
    if (c as int) < 0x10000 {
        1
    } else {
        2
    }
}

/// Byte length of the UTF-8 encoding of `c`, as `char::len_utf8` returns it.
pub fn char_len_utf8(c: char) -> (n: usize)
    ensures
        n == char_utf8_width(c),
{
    let v = c as u32;
    if v < 0x80 {
        1
    } else if v < 0x800 {
        2
    } else if v < 0x10000 {
        3
    } else {
        4
    }
}

/// Number of UTF-16 code units of `c`, as `char::len_utf16` returns it.
pub fn char_len_utf16(c: char) -> (n: usize)
    ensures
        n == char_utf16_width(c),
{
    let v = c as u32;
    if v < 0x10000 {
        1
    } else {
        2
    }
}

} // verus!
