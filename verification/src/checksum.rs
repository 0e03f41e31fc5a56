//! CRC-16/X25 over the raw payload bytes.
//!
//! The variant is the standard X25 one: polynomial 0x1021 processed in
//! bit-reflected form (0x8408), initial remainder 0xFFFF, bytes folded in
//! least-significant bit first, and the final remainder inverted.

use vstd::prelude::*;

verus! {

/// One shift step of the bit-reflected division: shift the remainder right
/// and, if a one bit fell out, fold in the reflected polynomial 0x8408.
pub open spec fn crc16_step(c: u16) -> u16 {
    if c & 1 == 1 {
        (c >> 1) ^ 0x8408
    } else {
        c >> 1
    }
}

/// `crc16_step` applied `n` times.
pub open spec fn crc16_steps(c: u16, n: nat) -> u16
    decreases n,
{
    if n == 0 {
        c
    } else {
        crc16_step(crc16_steps(c, (n - 1) as nat))
    }
}

/// Folding one input byte into the running remainder: xor it into the low
/// eight bits, then run eight shift steps.
pub open spec fn crc16_update(c: u16, b: u8) -> u16 {
    crc16_steps(c ^ (b as u16), 8)
}

/// The remainder after folding every byte of `s`, left to right, into `c`.
pub open spec fn crc16_fold(c: u16, s: Seq<u8>) -> u16
    decreases s.len(),
{
    if s.len() == 0 {
        c
    } else {
        crc16_update(crc16_fold(c, s.drop_last()), s.last())
    }
}

/// CRC-16/X25 of `s`.
pub open spec fn spec_crc16_x25(s: Seq<u8>) -> u16 {
    !crc16_fold(0xFFFF, s)
}

/// Folds one byte into the running remainder.
fn crc16_byte(c: u16, b: u8) -> (r: u16)
    ensures
        r == crc16_update(c, b),
{
    let mut x: u16 = c ^ (b as u16);
    let mut k: usize = 0;
    while k < 8
        invariant
            k <= 8,
            x == crc16_steps(c ^ (b as u16), k as nat),
        decreases 8 - k,
    {
        x = if x & 1 == 1 {
            (x >> 1) ^ 0x8408
        } else {
            x >> 1
        };
        k = k + 1;
    }
    x
}

/// CRC-16/X25 of a byte slice.
pub fn crc16_x25(data: &[u8]) -> (r: u16)
    ensures
        r == spec_crc16_x25(data@),
{
    let mut c: u16 = 0xFFFF;
    let mut i: usize = 0;
    while i < data.len()
        invariant
            i <= data@.len(),
            c == crc16_fold(0xFFFF, data@.take(i as int)),
        decreases data@.len() - i,
    {
        let b: u8 = data[i];
        c = crc16_byte(c, b);
        proof {
            assert(data@.take(i as int + 1).drop_last() =~= data@.take(i as int));
            assert(data@.take(i as int + 1).last() == data@[i as int]);
        }
        i = i + 1;
    }
    proof {
        assert(data@.take(i as int) =~= data@);
    }
    !c
}

} // verus!
