//! Big-endian integer decoding.

use vstd::prelude::*;
use crate::errors::{malformed, WeechatError};

verus! {

/// The signed 32-bit value that the first four bytes of `b` denote, read as
/// big-endian two's complement.
pub open spec fn be_i32(b: Seq<u8>) -> int
    recommends
        b.len() >= 4,
{
    let u = b[0] as int * 0x100_0000 + b[1] as int * 0x1_0000 + b[2] as int * 0x100 + b[3] as int;
    if u >= 0x8000_0000 {
        u - 0x1_0000_0000
    } else {
        u
    }
}

/// The four bytes that denote `x` in big-endian two's complement.
pub open spec fn i32_be(x: int) -> Seq<u8>
    recommends
        i32::MIN <= x <= i32::MAX,
{
    let u = if x < 0 {
        x + 0x1_0000_0000
    } else {
        x
    };
    seq![
        (u / 0x100_0000) as u8,
        (u / 0x1_0000 % 0x100) as u8,
        (u / 0x100 % 0x100) as u8,
        (u % 0x100) as u8,
    ]
}

/// Reads the four bytes at `at` as a big-endian signed integer.
pub(crate) fn be_word(bytes: &[u8], at: usize) -> (r: i32)
    requires
        at + 4 <= bytes@.len(),
    ensures
        r as int == be_i32(bytes@.skip(at as int)),
{
    let u: i64 = (bytes[at] as i64) * 0x100_0000 + (bytes[at + 1] as i64) * 0x1_0000 + (bytes[at
        + 2] as i64) * 0x100 + (bytes[at + 3] as i64);
    let v: i64 = if u >= 0x8000_0000 {
        u - 0x1_0000_0000
    } else {
        u
    };
    v as i32
}

/// Converts a slice of exactly four bytes into the signed 32-bit integer that
/// they encode in big-endian order. Any other length is a parse error.
pub fn bytes_to_i32(byte_array: &[u8]) -> (r: Result<i32, WeechatError>)
    ensures
        byte_array@.len() == 4 ==> (r matches Ok(x) && x as int == be_i32(byte_array@)),
        byte_array@.len() != 4 ==> (r matches Err(e) && e@ == malformed(
            "Cannot cast bytes to i32",
        )),
{
    if byte_array.len() != 4 {
        return Err(WeechatError::parse("Cannot cast bytes to i32"));
    }
    assert(byte_array@.skip(0) =~= byte_array@);
    Ok(be_word(byte_array, 0))
}

/// Decoding undoes encoding: every signed 32-bit value comes back from the
/// four bytes that encode it, whatever follows them.
pub proof fn be_i32_inverts_i32_be(x: int, rest: Seq<u8>)
    requires
        i32::MIN <= x <= i32::MAX,
    ensures
        i32_be(x).len() == 4,
        be_i32(i32_be(x)) == x,
        be_i32(i32_be(x) + rest) == x,
{
    let u = if x < 0 {
        x + 0x1_0000_0000
    } else {
        x
    };
    let b = i32_be(x);
    assert(0 <= u < 0x1_0000_0000);
    assert(0 <= u / 0x100_0000 < 0x100);
    assert(b[0] as int == u / 0x100_0000);
    assert(b[1] as int == u / 0x1_0000 % 0x100);
    assert(b[2] as int == u / 0x100 % 0x100);
    assert(b[3] as int == u % 0x100);
    assert(u == (u / 0x100_0000) * 0x100_0000 + (u / 0x1_0000 % 0x100) * 0x1_0000 + (u / 0x100
        % 0x100) * 0x100 + u % 0x100);
    assert((b + rest)[0] == b[0]);
    assert((b + rest)[1] == b[1]);
    assert((b + rest)[2] == b[2]);
    assert((b + rest)[3] == b[3]);
}

} // verus!
