//! UTF-8 validity of byte slices.
use vstd::prelude::*;

verus! {

/// The length of the encoded character at the front, or 0 if there is none.
fn first_scalar(b: &[u8], i: usize) -> (n: usize)
    requires
        i < b@.len(),
    ensures
        n <= b@.len() - i,
        (n > 0) == vstd::utf8::valid_first_scalar(b@.skip(i as int)),
        n > 0 ==> n == vstd::utf8::length_of_first_scalar(b@.skip(i as int)),
{
    let ghost s = b@.skip(i as int);
    let b1: u8 = b[i];
    assert(s[0] == b1);
    if b1 <= 0x7f {
        assert((b1 & 0x7f) as u32 <= 0x7f) by (bit_vector);
        return 1;
    }
    if b1 < 0xc0 || b1 > 0xf7 || b.len() - i < 2 {
        return 0;
    }
    let b2: u8 = b[i + 1];
    assert(s[1] == b2);
    if b2 < 0x80 || b2 > 0xbf {
        return 0;
    }
    let c2: u32 = (b2 & 0x3f) as u32;
    if b1 <= 0xdf {
        let c: u32 = (((b1 & 0x1F) as u32) << 6) | c2;
        return if 0x80 <= c && !(0xD800 <= c && c <= 0xDFFF) {
            2
        } else {
            0
        };
    }
    if b.len() - i < 3 {
        return 0;
    }
    let b3: u8 = b[i + 2];
    assert(s[2] == b3);
    if b3 < 0x80 || b3 > 0xbf {
        return 0;
    }
    let c3: u32 = (b3 & 0x3f) as u32;
    if b1 <= 0xef {
        let c: u32 = (((b1 & 0x0F) as u32) << 12) | (c2 << 6) | c3;
        return if 0x800 <= c && !(0xD800 <= c && c <= 0xDFFF) {
            3
        } else {
            0
        };
    }
    if b.len() - i < 4 {
        return 0;
    }
    let b4: u8 = b[i + 3];
    assert(s[3] == b4);
    if b4 < 0x80 || b4 > 0xbf {
        return 0;
    }
    let c4: u32 = (b4 & 0x3f) as u32;
    let c: u32 = (((b1 & 0x07) as u32) << 18) | (c2 << 12) | (c3 << 6) | c4;
    if 0x10000 <= c && c <= 0x10ffff && !(0xD800 <= c && c <= 0xDFFF) {
        4
    } else {
        0
    }
}

/// Whether the bytes are well-formed UTF-8.
pub fn is_utf8(b: &[u8]) -> (r: bool)
    ensures
        r == vstd::utf8::valid_utf8(b@),
{
    let mut i: usize = 0;
    assert(b@.skip(0) =~= b@);
    while i < b.len()
        invariant
            i <= b@.len(),
            vstd::utf8::valid_utf8(b@) == vstd::utf8::valid_utf8(b@.skip(i as int)),
        decreases b@.len() - i,
    {
        let n: usize = first_scalar(b, i);
        if n == 0 {
            return false;
        }
        assert(vstd::utf8::pop_first_scalar(b@.skip(i as int)) =~= b@.skip(i + n));
        i = i + n;
    }
    true
}

/// Whether all bytes are ASCII.
pub fn is_ascii(b: &[u8]) -> (r: bool)
    ensures
        r == (forall|i: int| 0 <= i < b@.len() ==> #[trigger] b@[i] < 0x80),
{
    let mut i: usize = 0;
    while i < b.len()
        invariant
            i <= b@.len(),
            forall|j: int| 0 <= j < i ==> #[trigger] b@[j] < 0x80,
        decreases b@.len() - i,
    {
        if b[i] >= 0x80 {
            return false;
        }
        i = i + 1;
    }
    true
}

} // verus!
