//! Single-byte checksums used by protocol parsers and TX framing.
//!
//! - [`xor_checksum`]: NMEA-0183 `*XX` XOR of all bytes.
//! - [`lrc`]: Modbus ASCII longitudinal redundancy check, the two's
//!   complement of the byte sum.

use vstd::prelude::*;

verus! {

/// XOR of every byte of `s`, folded from the left starting at zero.
pub open spec fn spec_xor(s: Seq<u8>) -> u8
    decreases s.len(),
{
    if s.len() == 0 {
        0u8
    } else {
        spec_xor(s.drop_last()) ^ s.last()
    }
}

/// Sum of every byte of `s` as an unbounded natural number.
pub open spec fn spec_byte_sum(s: Seq<u8>) -> nat
    decreases s.len(),
{
    if s.len() == 0 {
        0
    } else {
        spec_byte_sum(s.drop_last()) + s.last() as nat
    }
}

/// The Modbus LRC: the byte that makes the byte sum of `s ++ [lrc]`
/// a multiple of 256.
pub open spec fn spec_lrc(s: Seq<u8>) -> u8 {
    ((256 - spec_byte_sum(s) % 256) % 256) as u8
}

/// NMEA-0183 `*XX` XOR checksum: XOR of all bytes in the slice.
pub fn xor_checksum(bytes: &[u8]) -> (r: u8)
    ensures
        r == spec_xor(bytes@),
{
    let mut acc: u8 = 0;
    let mut i: usize = 0;
    while i < bytes.len()
        invariant
            i <= bytes.len(),
            acc == spec_xor(bytes@.take(i as int)),
        decreases bytes.len() - i,
    {
        assert(bytes@.take(i as int + 1).drop_last() =~= bytes@.take(i as int));
        acc = acc ^ bytes[i];
        i += 1;
    }
    assert(bytes@.take(i as int) =~= bytes@);
    acc
}

/// Modbus ASCII LRC: the two's complement of the sum of all bytes, as a
/// single byte.
pub fn lrc(bytes: &[u8]) -> (r: u8)
    ensures
        r == spec_lrc(bytes@),
{
    let mut sum: u8 = 0;
    let mut i: usize = 0;
    while i < bytes.len()
        invariant
            i <= bytes.len(),
            sum as nat == spec_byte_sum(bytes@.take(i as int)) % 256,
        decreases bytes.len() - i,
    {
        assert(bytes@.take(i as int + 1).drop_last() =~= bytes@.take(i as int));
        sum = sum.wrapping_add(bytes[i]);
        i += 1;
    }
    assert(bytes@.take(i as int) =~= bytes@);
    if sum == 0 {
        0
    } else {
        (256 - sum as u16) as u8
    }
}

} // verus!
