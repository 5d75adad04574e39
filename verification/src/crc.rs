//! The cyclic redundancy checks of frame headers and frames.

use vstd::prelude::*;

verus! {

/// One step of the 8-bit check with the polynomial x^8 + x^2 + x + 1.
pub open spec fn crc8_shift(crc: u8) -> u8 {
    if crc & 0x80 != 0 {
        (crc << 1) ^ 0x07
    } else {
        crc << 1
    }
}

/// Eight steps of the 8-bit check.
pub open spec fn crc8_shifts(crc: u8, steps: nat) -> u8
    decreases steps,
{
    if steps == 0 {
        crc
    } else {
        crc8_shift(crc8_shifts(crc, (steps - 1) as nat))
    }
}

/// The 8-bit check of a byte string, from a zero register.
pub open spec fn crc8_of(bytes: Seq<u8>) -> u8
    decreases bytes.len(),
{
    if bytes.len() == 0 {
        0
    } else {
        crc8_shifts(crc8_of(bytes.drop_last()) ^ bytes.last(), 8)
    }
}

/// One step of the 16-bit check with the polynomial x^16 + x^15 + x^2 + 1.
pub open spec fn crc16_shift(crc: u16) -> u16 {
    if crc & 0x8000 != 0 {
        (crc << 1) ^ 0x8005
    } else {
        crc << 1
    }
}

/// Some steps of the 16-bit check.
pub open spec fn crc16_shifts(crc: u16, steps: nat) -> u16
    decreases steps,
{
    if steps == 0 {
        crc
    } else {
        crc16_shift(crc16_shifts(crc, (steps - 1) as nat))
    }
}

/// The 16-bit check of a byte string, from a zero register.
pub open spec fn crc16_of(bytes: Seq<u8>) -> u16
    decreases bytes.len(),
{
    if bytes.len() == 0 {
        0
    } else {
        crc16_shifts(crc16_of(bytes.drop_last()) ^ ((bytes.last() as u16) << 8), 8)
    }
}

/// The 8-bit check of a byte string.
pub fn crc8(bytes: &[u8]) -> (crc: u8)
    ensures
        crc == crc8_of(bytes@),
{
    let mut crc: u8 = 0;
    let mut index: usize = 0;
    while index < bytes.len()
        invariant
            index <= bytes.len(),
            crc == crc8_of(bytes@.take(index as int)),
        decreases bytes.len() - index,
    {
        assert(bytes@.take(index + 1).drop_last() == bytes@.take(index as int));
        let start: u8 = crc ^ bytes[index];
        crc = start;
        let mut step: u8 = 0;
        while step < 8
            invariant
                step <= 8,
                crc == crc8_shifts(start, step as nat),
            decreases 8 - step,
        {
            crc = if crc & 0x80 != 0 {
                (crc << 1) ^ 0x07
            } else {
                crc << 1
            };
            step = step + 1;
        }
        index = index + 1;
    }
    assert(bytes@.take(index as int) == bytes@);
    crc
}

/// The 16-bit check of a byte string.
pub fn crc16(bytes: &[u8]) -> (crc: u16)
    ensures
        crc == crc16_of(bytes@),
{
    let mut crc: u16 = 0;
    let mut index: usize = 0;
    while index < bytes.len()
        invariant
            index <= bytes.len(),
            crc == crc16_of(bytes@.take(index as int)),
        decreases bytes.len() - index,
    {
        assert(bytes@.take(index + 1).drop_last() == bytes@.take(index as int));
        let start: u16 = crc ^ ((bytes[index] as u16) << 8);
        crc = start;
        let mut step: u8 = 0;
        while step < 8
            invariant
                step <= 8,
                crc == crc16_shifts(start, step as nat),
            decreases 8 - step,
        {
            crc = if crc & 0x8000 != 0 {
                (crc << 1) ^ 0x8005
            } else {
                crc << 1
            };
            step = step + 1;
        }
        index = index + 1;
    }
    assert(bytes@.take(index as int) == bytes@);
    crc
}

} // verus!
