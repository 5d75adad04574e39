//! Whole numbers as binary floating-point bit patterns.

use vstd::arithmetic::div_mod::{lemma_div_by_multiple, lemma_mod_multiples_basic, lemma_small_mod};
use vstd::arithmetic::mul::lemma_mul_is_commutative;
use vstd::arithmetic::power2::{lemma2_to64, lemma2_to64_rest, lemma_pow2_adds, lemma_pow2_pos, lemma_pow2_strictly_increases, lemma_pow2_unfold, pow2};
use vstd::prelude::*;

use crate::bits::power_of_two;

verus! {

/// The place of the highest bit of a number.
pub open spec fn top_bit(value: nat) -> nat
    decreases value,
{
    if value < 2 {
        0
    } else {
        1 + top_bit(value / 2)
    }
}

/// The highest bit is the largest power of two that a number reaches.
pub proof fn lemma_top_bit(value: nat)
    requires
        value >= 1,
    ensures
        pow2(top_bit(value)) <= value < 2 * pow2(top_bit(value)),
    decreases value,
{
    if value < 2 {
        lemma2_to64();
    } else {
        lemma_top_bit(value / 2);
        lemma_pow2_unfold(top_bit(value));
    }
}

/// The place of the highest bit of a number.
pub fn highest_bit(value: u32) -> (place: u8)
    requires
        value >= 1,
    ensures
        place == top_bit(value as nat),
        place < 32,
{
    let mut rest: u32 = value;
    let mut place: u8 = 0;
    proof {
        lemma2_to64();
    }
    while rest >= 2
        invariant
            rest >= 1,
            place + top_bit(rest as nat) == top_bit(value as nat),
            rest * pow2(place as nat) <= u32::MAX,
            place < 32,
        decreases rest,
    {
        proof {
            lemma_pow2_unfold((place + 1) as nat);
            let half = (rest / 2) as nat;
            assert(half * (2 * pow2(place as nat)) <= rest * pow2(place as nat))
                by (nonlinear_arith)
                requires
                    2 * half <= rest,
            ;
            assert(pow2((place + 1) as nat) <= half * pow2((place + 1) as nat))
                by (nonlinear_arith)
                requires
                    half >= 1,
            ;
            if place == 31 {
                lemma2_to64();
            }
        }
        rest = rest / 2;
        place = place + 1;
    }
    place
}

/// The bit pattern of a whole number as a double-precision float.
pub open spec fn double_of(value: u32) -> nat {
    if value == 0 {
        0
    } else {
        let place = top_bit(value as nat);
        (place + 1023) * pow2(52) + (value * pow2((52 - place) as nat) - pow2(52)) as nat
    }
}

/// The whole number that a double-precision float stands for, if it is a positive one.
pub open spec fn whole_double(pattern: nat) -> Option<nat> {
    let exponent = (pattern / pow2(52)) % 2048;
    let significand = pow2(52) + pattern % pow2(52);
    if pattern >= pow2(63) || exponent == 0 || exponent == 2047 {
        None
    } else if exponent >= 1075 {
        Some(significand * pow2((exponent - 1075) as nat))
    } else if significand % pow2((1075 - exponent) as nat) == 0 {
        Some(significand / pow2((1075 - exponent) as nat))
    } else {
        None
    }
}

/// What a double-precision float stands for.
#[derive(Debug, Clone, Copy, PartialEq, Eq, Structural)]
pub enum DoubleKind {
    /// A whole number of 32 bits, not 0.
    Whole(u32),
    /// A larger whole number.
    Large,
    /// No positive whole number.
    Other,
}

/// What a bit pattern stands for.
pub fn read_double(pattern: u64) -> (kind: DoubleKind)
    ensures
        match kind {
            DoubleKind::Whole(value) => whole_double(pattern as nat) == Some(value as nat),
            DoubleKind::Large => whole_double(pattern as nat) matches Some(value) && value
                > u32::MAX,
            DoubleKind::Other => whole_double(pattern as nat) is None,
        },
{
    proof {
        lemma2_to64();
        lemma2_to64_rest();
    }
    let exponent: u64 = (pattern / 0x10_0000_0000_0000) % 2048;
    let significand: u64 = 0x10_0000_0000_0000 + pattern % 0x10_0000_0000_0000;
    if pattern >= 0x8000_0000_0000_0000 || exponent == 0 || exponent == 2047 {
        return DoubleKind::Other;
    }
    if exponent >= 1075 {
        proof {
            let factor = pow2((exponent - 1075) as nat);
            lemma_pow2_pos((exponent - 1075) as nat);
            assert(significand * factor >= significand) by (nonlinear_arith)
                requires
                    factor >= 1,
            ;
        }
        return DoubleKind::Large;
    }
    let shift: u64 = 1075 - exponent;
    if shift > 52 {
        proof {
            lemma_pow2_unfold(53);
            if shift > 53 {
                lemma_pow2_strictly_increases(53, shift as nat);
            }
            lemma_small_mod(significand as nat, pow2(shift as nat));
        }
        return DoubleKind::Other;
    }
    let divisor: u64 = power_of_two(shift as u8);
    if significand % divisor != 0 {
        return DoubleKind::Other;
    }
    let value: u64 = significand / divisor;
    if value > 0xffff_ffff {
        return DoubleKind::Large;
    }
    DoubleKind::Whole(value as u32)
}

/// The bit pattern of a whole number as a double-precision float.
pub fn double_bits(value: u32) -> (pattern: u64)
    ensures
        pattern == double_of(value),
{
    if value == 0 {
        return 0;
    }
    let place: u8 = highest_bit(value);
    let factor: u64 = power_of_two(52 - place);
    proof {
        lemma_scaled(value, place as nat, 52);
        lemma2_to64();
        lemma2_to64_rest();
        assert((place + 1023) * 0x10_0000_0000_0000 <= 1054 * 0x10_0000_0000_0000);
    }
    (place as u64 + 1023) * 0x10_0000_0000_0000 + (value as u64 * factor - 0x10_0000_0000_0000)
}

/// A number moved up so that its highest bit stands in a given place.
pub proof fn lemma_scaled(value: u32, place: nat, target: nat)
    requires
        value >= 1,
        place == top_bit(value as nat),
        place < 32,
        32 <= target,
    ensures
        pow2(target) <= value * pow2((target - place) as nat) < 2 * pow2(target),
{
    lemma_top_bit(value as nat);
    let factor = pow2((target - place) as nat);
    lemma_pow2_pos((target - place) as nat);
    lemma_pow2_adds(place, (target - place) as nat);
    assert(pow2(place) * factor <= value * factor) by (nonlinear_arith)
        requires
            pow2(place) <= value,
    ;
    assert(value * factor < 2 * (pow2(place) * factor)) by (nonlinear_arith)
        requires
            value < 2 * pow2(place),
            factor >= 1,
    ;
}

/// A whole number is read back from its bit pattern.
pub proof fn law_double_reads_back(value: u32)
    requires
        value > 0,
    ensures
        whole_double(double_of(value)) == Some(value as nat),
{
    let place = top_bit(value as nat);
    lemma_top_bit(value as nat);
    assert(place < 32) by {
        if place >= 32 {
            lemma2_to64();
            if place > 32 {
                lemma_pow2_strictly_increases(32, place);
            }
        }
    }
    lemma_scaled(value, place, 52);
    lemma2_to64();
    lemma2_to64_rest();
    let factor = pow2((52 - place) as nat);
    let scaled = value * factor;
    let pattern = double_of(value);
    assert(pattern == (place + 1023) * 0x10_0000_0000_0000 + (scaled - 0x10_0000_0000_0000));
    assert(pattern / pow2(52) == place + 1023);
    assert(pattern % pow2(52) == scaled - 0x10_0000_0000_0000);
    assert(1075 - (place + 1023) == 52 - place);
    lemma_pow2_pos((52 - place) as nat);
    lemma_mul_is_commutative(value as int, factor as int);
    lemma_mod_multiples_basic(value as int, factor as int);
    lemma_div_by_multiple(value as int, factor as int);
}

} // verus!
