//! Recognising UTF-8 text in raw bytes.

use vstd::prelude::*;
use vstd::utf8::*;

verus! {

/// The bytes of `bytes` from `at` to the end.
spec fn tail(bytes: Seq<u8>, at: int) -> Seq<u8> {
    bytes.subrange(at, bytes.len() as int)
}

/// Whether `byte` can follow the leading byte of a scalar.
fn is_continuation(byte: u8) -> (yes: bool)
    ensures
        yes == is_continuation_byte(byte),
{
    0x80 <= byte && byte <= 0xbf
}

/// The number of bytes that the scalar starting at `at` takes, or 0 when
/// no well-formed scalar starts there.
fn scalar_width(bytes: &[u8], at: usize) -> (width: usize)
    requires
        at < bytes.len(),
    ensures
        width == 0 <==> !valid_first_scalar(tail(bytes@, at as int)),
        width != 0 ==> width == length_of_first_scalar(tail(bytes@, at as int)),
        at + width <= bytes.len(),
{
    let left = bytes.len() - at;
    let ghost rest = tail(bytes@, at as int);
    let b0 = bytes[at];
    assert(rest[0] == b0);
    let width: usize;
    let point: u32;
    if b0 <= 0x7f {
        width = 1;
        point = (b0 & 0x7f) as u32;
    } else if 0xc0 <= b0 && b0 <= 0xdf {
        if left < 2 || !is_continuation(bytes[at + 1]) {
            return 0;
        }
        let b1 = bytes[at + 1];
        assert(rest[1] == b1);
        width = 2;
        point = (((b0 & 0x1f) as u32) << 6) | ((b1 & 0x3f) as u32);
    } else if 0xe0 <= b0 && b0 <= 0xef {
        if left < 3 || !is_continuation(bytes[at + 1]) || !is_continuation(bytes[at + 2]) {
            return 0;
        }
        let b1 = bytes[at + 1];
        let b2 = bytes[at + 2];
        assert(rest[1] == b1 && rest[2] == b2);
        width = 3;
        point = (((b0 & 0x0f) as u32) << 12) | (((b1 & 0x3f) as u32) << 6) | ((b2 & 0x3f) as u32);
    } else if 0xf0 <= b0 && b0 <= 0xf7 {
        if left < 4 || !is_continuation(bytes[at + 1]) || !is_continuation(bytes[at + 2])
            || !is_continuation(bytes[at + 3]) {
            return 0;
        }
        let b1 = bytes[at + 1];
        let b2 = bytes[at + 2];
        let b3 = bytes[at + 3];
        assert(rest[1] == b1 && rest[2] == b2 && rest[3] == b3);
        width = 4;
        point = (((b0 & 0x07) as u32) << 18) | (((b1 & 0x3f) as u32) << 12) | (((b2 & 0x3f)
            as u32) << 6) | ((b3 & 0x3f) as u32);
    } else {
        return 0;
    }
    assert(point == decode_first_codepoint(rest));
    assert(width == length_of_first_codepoint(rest));
    let overlong = (width == 2 && point < 0x80) || (width == 3 && point < 0x800) || (width == 4
        && (point < 0x10000 || point > 0x10ffff));
    let surrogate = 0xd800 <= point && point <= 0xdfff;
    if overlong || surrogate {
        0
    } else {
        width
    }
}

/// Whether `bytes` is well-formed UTF-8.
pub fn is_utf8(bytes: &[u8]) -> (yes: bool)
    ensures
        yes == valid_utf8(bytes@),
{
    let n = bytes.len();
    let mut at: usize = 0;
    assert(bytes@.subrange(0, 0) =~= Seq::<u8>::empty());
    while at < n
        invariant
            n == bytes@.len(),
            partial_valid_utf8(bytes@, at as int),
        decreases n - at,
    {
        let width = scalar_width(bytes, at);
        if width == 0 {
            proof {
                partial_valid_partial_invalid_utf8(bytes@, at as int);
            }
            return false;
        }
        proof {
            partial_valid_utf8_extend(bytes@, at as int);
        }
        at += width;
    }
    assert(bytes@.subrange(0, n as int) =~= bytes@);
    true
}

} // verus!
