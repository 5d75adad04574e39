//! Reading coded residuals and subframes.

use vstd::arithmetic::power2::{lemma_pow2_pos, pow2};
use vstd::prelude::*;

use crate::bit_reader::{bits_at, is_before, is_place, read_number, read_signed_number, read_zeros};
use crate::bits::power_of_two;
use crate::frame_decoding::lemma_coded_is_restorable;
use crate::lossless::subframe_signal;
use crate::prediction::ints;
use crate::reading::{raised_signal, read_coded, read_encoding, read_lpc, read_partition, read_partitions, read_rice, read_rice_run, read_sample, read_sample_run, read_subframe, read_wasted};
use crate::residual::is_valid_partition_order;
use crate::restoring::{is_sample, narrow, restore_signal};
use crate::rice::{partition_views, ResidualEncoding, ResidualPartition, RiceMethod};
use crate::subframe::AnalyzedSubframe;

verus! {

/// Reads one residual under a Rice parameter; it has to fit in 32 bits.
fn read_rice_residual(bytes: &[u8], place: usize, parameter: u32) -> (read: Option<(i32, usize)>)
    requires
        is_place(bytes@, place),
        parameter <= 30,
    ensures
        match read_rice(bits_at(bytes@, place as nat), parameter as nat) {
            None => read is None,
            Some((residual, rest)) => if i32::MIN <= residual <= i32::MAX {
                read matches Some((found, next)) && found == residual && is_before(
                    bytes@,
                    next,
                    rest,
                )
            } else {
                read is None
            },
        },
{
    let (quotient, behind) = match read_zeros(bytes, place) {
        None => return None,
        Some(found) => found,
    };
    let (remainder, next) = match read_number(bytes, behind, parameter) {
        None => return None,
        Some(found) => found,
    };
    proof {
        vstd::arithmetic::power2::lemma2_to64();
        if parameter < 30 {
            vstd::arithmetic::power2::lemma_pow2_strictly_increases(parameter as nat, 30);
        }
        lemma_pow2_pos(parameter as nat);
    }
    let unit: u64 = power_of_two(parameter as u8);
    let ghost value = (quotient * pow2(parameter as nat) + remainder) as nat;
    if quotient as u64 > 0xffff_ffff {
        proof {
            assert(quotient * unit >= quotient) by (nonlinear_arith)
                requires
                    unit >= 1,
                    quotient >= 0,
            ;
            assert(value > 0xffff_ffff);
        }
        return None;
    }
    proof {
        assert(quotient * unit <= 0xffff_ffff * 0x4000_0000) by (nonlinear_arith)
            requires
                0 <= quotient <= 0xffff_ffff,
                0 <= unit <= 0x4000_0000,
        ;
    }
    let folded: u64 = quotient as u64 * unit + remainder;
    if folded > 0xffff_ffff {
        return None;
    }
    let residual: i64 = if folded % 2 == 0 {
        (folded / 2) as i64
    } else {
        -((folded as i64 + 1) / 2)
    };
    Some((residual as i32, next))
}

/// Reads a run of residuals under a Rice parameter.
fn read_rice_residuals(bytes: &[u8], place: usize, parameter: u32, count: usize) -> (read: Option<
    (Vec<i32>, usize),
>)
    requires
        is_place(bytes@, place),
        parameter <= 30,
    ensures
        match read_rice_run(bits_at(bytes@, place as nat), parameter as nat, count as nat) {
            None => read is None,
            Some((residuals, rest)) => read matches Some((found, next)) && {
                &&& found@ == residuals
                &&& is_before(bytes@, next, rest)
            },
        },
{
    let ghost bits = bits_at(bytes@, place as nat);
    let mut residuals: Vec<i32> = Vec::new();
    let mut next: usize = place;
    let mut index: usize = 0;
    while index < count
        invariant
            is_place(bytes@, next),
            parameter <= 30,
            index <= count,
            bits == bits_at(bytes@, place as nat),
            read_rice_run(bits, parameter as nat, index as nat) == Some(
                (residuals@, bits_at(bytes@, next as nat)),
            ),
        decreases count - index,
    {
        match read_rice_residual(bytes, next, parameter) {
            None => {
                proof {
                    lemma_rice_run_stops(bits, parameter as nat, (index + 1) as nat, count as nat);
                }
                return None;
            },
            Some((residual, behind)) => {
                residuals.push(residual);
                next = behind;
            },
        }
        index = index + 1;
    }
    Some((residuals, next))
}

proof fn lemma_rice_run_stops(bits: Seq<bool>, parameter: nat, stop: nat, count: nat)
    requires
        stop <= count,
        read_rice_run(bits, parameter, stop) is None,
    ensures
        read_rice_run(bits, parameter, count) is None,
    decreases count,
{
    if stop < count {
        lemma_rice_run_stops(bits, parameter, stop, (count - 1) as nat);
    }
}

/// Reads a sample of a fixed width.
fn read_one_sample(bytes: &[u8], place: usize, width: u32) -> (read: Option<(i32, usize)>)
    requires
        is_place(bytes@, place),
        width <= 40,
    ensures
        match read_sample(bits_at(bytes@, place as nat), width as nat) {
            None => read is None,
            Some((sample, rest)) => read matches Some((found, next)) && {
                &&& found == sample
                &&& is_before(bytes@, next, rest)
            },
        },
{
    match read_signed_number(bytes, place, width) {
        None => None,
        Some((sample, next)) => if sample < -0x8000_0000 || sample > 0x7fff_ffff {
            None
        } else {
            Some((sample as i32, next))
        },
    }
}

proof fn lemma_sample_run_stops(bits: Seq<bool>, width: nat, stop: nat, count: nat)
    requires
        stop <= count,
        read_sample_run(bits, width, stop) is None,
    ensures
        read_sample_run(bits, width, count) is None,
    decreases count,
{
    if stop < count {
        lemma_sample_run_stops(bits, width, stop, (count - 1) as nat);
    }
}

/// Reads a run of samples of a fixed width.
fn read_samples(bytes: &[u8], place: usize, width: u32, count: usize) -> (read: Option<
    (Vec<i32>, usize),
>)
    requires
        is_place(bytes@, place),
        width <= 40,
    ensures
        match read_sample_run(bits_at(bytes@, place as nat), width as nat, count as nat) {
            None => read is None,
            Some((samples, rest)) => read matches Some((found, next)) && {
                &&& found@ == samples
                &&& found@.len() == count
                &&& is_before(bytes@, next, rest)
            },
        },
{
    let ghost bits = bits_at(bytes@, place as nat);
    let mut samples: Vec<i32> = Vec::new();
    let mut next: usize = place;
    let mut index: usize = 0;
    while index < count
        invariant
            is_place(bytes@, next),
            width <= 40,
            index <= count,
            samples@.len() == index,
            bits == bits_at(bytes@, place as nat),
            read_sample_run(bits, width as nat, index as nat) == Some(
                (samples@, bits_at(bytes@, next as nat)),
            ),
        decreases count - index,
    {
        match read_one_sample(bytes, next, width) {
            None => {
                proof {
                    lemma_sample_run_stops(bits, width as nat, (index + 1) as nat, count as nat);
                }
                return None;
            },
            Some((sample, behind)) => {
                samples.push(sample);
                next = behind;
            },
        }
        index = index + 1;
    }
    Some((samples, next))
}

/// Zero a number of times.
fn zero_residuals(count: usize) -> (zeros: Vec<i32>)
    ensures
        zeros@ == Seq::new(count as nat, |i: int| 0i32),
{
    let mut zeros: Vec<i32> = Vec::new();
    let mut index: usize = 0;
    while index < count
        invariant
            index <= count,
            zeros@ == Seq::new(index as nat, |i: int| 0i32),
        decreases count - index,
    {
        zeros.push(0);
        index = index + 1;
        assert(zeros@ == Seq::new(index as nat, |i: int| 0i32));
    }
    zeros
}

/// Reads a partition of residuals.
fn read_residual_partition(bytes: &[u8], place: usize, method: RiceMethod, count: usize) -> (read:
    Option<(ResidualPartition, usize)>)
    requires
        is_place(bytes@, place),
    ensures
        match read_partition(bits_at(bytes@, place as nat), method, count as nat) {
            None => read is None,
            Some((partition, rest)) => read matches Some((found, next)) && {
                &&& found@ == partition
                &&& is_before(bytes@, next, rest)
            },
        },
{
    proof {
        vstd::arithmetic::power2::lemma2_to64();
    }
    let (parameter, behind) = match read_number(bytes, place, method.parameter_bits()) {
        None => return None,
        Some(found) => found,
    };
    if parameter == method.escape_code() as u64 {
        let (width, behind) = match read_number(bytes, behind, 5) {
            None => return None,
            Some(found) => found,
        };
        if width == 0 {
            let residuals = zero_residuals(count);
            Some((ResidualPartition::Escape { bits: 0, residuals }, behind))
        } else {
            match read_samples(bytes, behind, width as u32, count) {
                None => None,
                Some((residuals, next)) => Some(
                    (ResidualPartition::Escape { bits: width as u8, residuals }, next),
                ),
            }
        }
    } else {
        match read_rice_residuals(bytes, behind, parameter as u32, count) {
            None => None,
            Some((residuals, next)) => Some(
                (ResidualPartition::Rice { parameter: parameter as u8, residuals }, next),
            ),
        }
    }
}

proof fn lemma_partitions_stop(
    bits: Seq<bool>,
    method: RiceMethod,
    block_size: nat,
    predictor_order: nat,
    partition_order: nat,
    stop: nat,
    count: nat,
)
    requires
        stop <= count,
        read_partitions(bits, method, block_size, predictor_order, partition_order, stop) is None,
    ensures
        read_partitions(bits, method, block_size, predictor_order, partition_order, count) is None,
    decreases count,
{
    if stop < count {
        lemma_partitions_stop(
            bits,
            method,
            block_size,
            predictor_order,
            partition_order,
            stop,
            (count - 1) as nat,
        );
    }
}

/// Reads all partitions of a residual.
fn read_residual_partitions(
    bytes: &[u8],
    place: usize,
    method: RiceMethod,
    block_size: usize,
    predictor_order: usize,
    partition_order: u8,
) -> (read: Option<(Vec<ResidualPartition>, usize)>)
    requires
        is_place(bytes@, place),
        partition_order <= 15,
        is_valid_partition_order(
            block_size as nat,
            predictor_order as nat,
            partition_order as nat,
        ),
    ensures
        match read_partitions(
            bits_at(bytes@, place as nat),
            method,
            block_size as nat,
            predictor_order as nat,
            partition_order as nat,
            pow2(partition_order as nat),
        ) {
            None => read is None,
            Some((partitions, rest)) => read matches Some((found, next)) && {
                &&& partition_views(found@) == partitions
                &&& is_before(bytes@, next, rest)
            },
        },
{
    let ghost bits = bits_at(bytes@, place as nat);
    proof {
        vstd::arithmetic::power2::lemma2_to64();
        if partition_order < 15 {
            vstd::arithmetic::power2::lemma_pow2_strictly_increases(partition_order as nat, 15);
        }
    }
    let total: usize = power_of_two(partition_order) as usize;
    let span: usize = block_size / total;
    let mut partitions: Vec<ResidualPartition> = Vec::new();
    let mut next: usize = place;
    let mut index: usize = 0;
    assert(partition_views(partitions@) == Seq::<crate::rice::PartitionView>::empty());
    while index < total
        invariant
            is_place(bytes@, next),
            index <= total,
            total == pow2(partition_order as nat),
            span == block_size as nat / pow2(partition_order as nat),
            span > predictor_order,
            bits == bits_at(bytes@, place as nat),
            read_partitions(
                bits,
                method,
                block_size as nat,
                predictor_order as nat,
                partition_order as nat,
                index as nat,
            ) == Some((partition_views(partitions@), bits_at(bytes@, next as nat))),
        decreases total - index,
    {
        let count: usize = if index == 0 {
            span - predictor_order
        } else {
            span
        };
        match read_residual_partition(bytes, next, method, count) {
            None => {
                proof {
                    lemma_partitions_stop(
                        bits,
                        method,
                        block_size as nat,
                        predictor_order as nat,
                        partition_order as nat,
                        (index + 1) as nat,
                        total as nat,
                    );
                }
                return None;
            },
            Some((partition, behind)) => {
                let ghost earlier = partitions@;
                partitions.push(partition);
                assert(partition_views(partitions@) == partition_views(earlier).push(partition@));
                next = behind;
            },
        }
        index = index + 1;
    }
    Some((partitions, next))
}

/// A partition order is valid for a block.
fn test_partition_order(block_size: usize, predictor_order: usize, partition_order: u8) -> (valid:
    bool)
    requires
        partition_order <= 15,
    ensures
        valid == is_valid_partition_order(
            block_size as nat,
            predictor_order as nat,
            partition_order as nat,
        ),
{
    proof {
        vstd::arithmetic::power2::lemma2_to64();
        if partition_order < 15 {
            vstd::arithmetic::power2::lemma_pow2_strictly_increases(partition_order as nat, 15);
        }
    }
    let total: usize = power_of_two(partition_order) as usize;
    block_size % total == 0 && block_size / total > predictor_order
}

/// Reads a coded residual.
fn read_residual_encoding(
    bytes: &[u8],
    place: usize,
    block_size: usize,
    predictor_order: usize,
) -> (read: Option<(ResidualEncoding, usize)>)
    requires
        is_place(bytes@, place),
    ensures
        match read_encoding(
            bits_at(bytes@, place as nat),
            block_size as nat,
            predictor_order as nat,
        ) {
            None => read is None,
            Some((encoding, rest)) => read matches Some((found, next)) && {
                &&& found@ == encoding
                &&& is_before(bytes@, next, rest)
            },
        },
{
    proof {
        vstd::arithmetic::power2::lemma2_to64();
    }
    let (code, behind) = match read_number(bytes, place, 2) {
        None => return None,
        Some(found) => found,
    };
    let (partition_order, behind) = match read_number(bytes, behind, 4) {
        None => return None,
        Some(found) => found,
    };
    let method = if code == 0 {
        RiceMethod::FourBit
    } else {
        RiceMethod::FiveBit
    };
    if code > 1 || !test_partition_order(block_size, predictor_order, partition_order as u8) {
        return None;
    }
    match read_residual_partitions(
        bytes,
        behind,
        method,
        block_size,
        predictor_order,
        partition_order as u8,
    ) {
        None => None,
        Some((partitions, next)) => Some(
            (
                ResidualEncoding { method, partition_order: partition_order as u8, partitions },
                next,
            ),
        ),
    }
}

/// Numbers of 15 bits in 16.
fn narrowed(numbers: &[i32]) -> (narrow: Vec<i16>)
    ensures
        narrow@ == numbers@.map_values(|number: i32| number as i16),
{
    let mut narrow: Vec<i16> = Vec::new();
    let mut index: usize = 0;
    while index < numbers.len()
        invariant
            index <= numbers@.len(),
            narrow@ == numbers@.take(index as int).map_values(|number: i32| number as i16),
        decreases numbers.len() - index,
    {
        #[verifier::truncate]
        let number: i16 = numbers[index] as i16;
        narrow.push(number);
        index = index + 1;
        assert(narrow@ == numbers@.take(index as int).map_values(|number: i32| number as i16));
    }
    assert(numbers@.take(numbers@.len() as int) == numbers@);
    narrow
}

/// Reads the body of a weighted-sum subframe.
fn read_lpc_subframe(
    bytes: &[u8],
    place: usize,
    order: usize,
    bits_per_sample: u32,
    block_size: usize,
) -> (read: Option<(AnalyzedSubframe, usize)>)
    requires
        is_place(bytes@, place),
        order <= 32,
        bits_per_sample <= 40,
    ensures
        match read_lpc(
            bits_at(bytes@, place as nat),
            order as nat,
            bits_per_sample as nat,
            block_size as nat,
        ) {
            None => read is None,
            Some((subframe, rest)) => read matches Some((found, next)) && {
                &&& found@ == subframe
                &&& is_before(bytes@, next, rest)
            },
        },
{
    proof {
        vstd::arithmetic::power2::lemma2_to64();
    }
    let (warmup, behind) = match read_samples(bytes, place, bits_per_sample, order) {
        None => return None,
        Some(found) => found,
    };
    let (precision, behind) = match read_number(bytes, behind, 4) {
        None => return None,
        Some(found) => found,
    };
    let (shift, behind) = match read_signed_number(bytes, behind, 5) {
        None => return None,
        Some(found) => found,
    };
    if precision == 15 || shift < 0 {
        return None;
    }
    let (wide, behind) = match read_samples(bytes, behind, precision as u32 + 1, order) {
        None => return None,
        Some(found) => found,
    };
    let coefficients = narrowed(wide.as_slice());
    match read_residual_encoding(bytes, behind, block_size, order) {
        None => None,
        Some((residual, next)) => Some(
            (
                AnalyzedSubframe::Lpc {
                    order: order as u8,
                    warmup,
                    precision: precision as u8 + 1,
                    shift: shift as u8,
                    coefficients,
                    residual,
                },
                next,
            ),
        ),
    }
}

/// Reads the body of a subframe with a type code.
fn read_coded_subframe(
    bytes: &[u8],
    place: usize,
    code: u64,
    bits_per_sample: u32,
    block_size: usize,
) -> (read: Option<(AnalyzedSubframe, usize)>)
    requires
        is_place(bytes@, place),
        code < 64,
        bits_per_sample <= 40,
    ensures
        match read_coded(
            bits_at(bytes@, place as nat),
            code as nat,
            bits_per_sample as nat,
            block_size as nat,
        ) {
            None => read is None,
            Some((subframe, rest)) => read matches Some((found, next)) && {
                &&& found@ == subframe
                &&& is_before(bytes@, next, rest)
            },
        },
{
    if code == 0 {
        match read_one_sample(bytes, place, bits_per_sample) {
            None => None,
            Some((sample, next)) => Some((AnalyzedSubframe::Constant(sample), next)),
        }
    } else if code == 1 {
        match read_samples(bytes, place, bits_per_sample, block_size) {
            None => None,
            Some((samples, next)) => Some((AnalyzedSubframe::Verbatim(samples), next)),
        }
    } else if code < 8 || (12 < code && code < 32) {
        None
    } else if code < 32 {
        let order: usize = code as usize - 8;
        let (warmup, behind) = match read_samples(bytes, place, bits_per_sample, order) {
            None => return None,
            Some(found) => found,
        };
        match read_residual_encoding(bytes, behind, block_size, order) {
            None => None,
            Some((residual, next)) => Some(
                (AnalyzedSubframe::Fixed { order: order as u8, warmup, residual }, next),
            ),
        }
    } else {
        read_lpc_subframe(bytes, place, code as usize - 31, bits_per_sample, block_size)
    }
}

/// Puts zero bits behind each sample of a signal, if samples can hold the result.
fn raise_signal(signal: &Vec<i32>, wasted: u8) -> (raised: Option<Vec<i32>>)
    requires
        1 <= wasted <= 40,
    ensures
        match narrow(raised_signal(ints(signal@), wasted as nat)) {
            Some(expected) => raised matches Some(found) && found@ == expected,
            None => raised is None,
        },
{
    let ghost expected = raised_signal(ints(signal@), wasted as nat);
    let factor: i128 = power_of_two(wasted) as i128;
    proof {
        vstd::arithmetic::power2::lemma2_to64();
        vstd::arithmetic::power2::lemma2_to64_rest();
        lemma_pow2_pos(wasted as nat);
    }
    let mut raised: Vec<i32> = Vec::new();
    let mut index: usize = 0;
    while index < signal.len()
        invariant
            index <= signal@.len(),
            expected == raised_signal(ints(signal@), wasted as nat),
            factor == pow2(wasted as nat),
            1 <= factor <= 0x100_0000_0000,
            raised@.len() == index,
            forall|i: int|
                0 <= i < index ==> is_sample(#[trigger] expected[i]) && raised@[i] == expected[i],
        decreases signal.len() - index,
    {
        let sample: i128 = signal[index] as i128;
        assert(-0x80_0000_0000_0000_0000 <= sample * factor <= 0x80_0000_0000_0000_0000)
            by (nonlinear_arith)
            requires
                -0x8000_0000 <= sample <= 0x7fff_ffff,
                1 <= factor <= 0x100_0000_0000,
        ;
        let value: i128 = sample * factor;
        assert(expected[index as int] == value);
        if value < -0x8000_0000 || value > 0x7fff_ffff {
            assert(!is_sample(expected[index as int]));
            return None;
        }
        raised.push(value as i32);
        index = index + 1;
    }
    assert(raised@ == expected.map_values(|value: int| value as i32));
    Some(raised)
}

/// Reads the body of a subframe whose samples all end with zero bits, if the bits allow it.
fn read_wasted_subframe(
    bytes: &[u8],
    place: usize,
    code: u64,
    bits_per_sample: u32,
    block_size: usize,
) -> (read: Option<(AnalyzedSubframe, usize)>)
    requires
        is_place(bytes@, place),
        bits_per_sample <= 40,
        code < 64,
    ensures
        match read_wasted(
            bits_at(bytes@, place as nat),
            code as nat,
            bits_per_sample as nat,
            block_size as nat,
        ) {
            None => read is None,
            Some((subframe, rest)) => read matches Some((found, next)) && {
                &&& found@ == subframe
                &&& is_before(bytes@, next, rest)
            },
        },
{
    let (more, behind) = match read_zeros(bytes, place) {
        None => return None,
        Some(found) => found,
    };
    if bits_per_sample == 0 || more >= bits_per_sample as usize - 1 {
        return None;
    }
    let wasted: u32 = more as u32 + 1;
    let ghost rest = bits_at(bytes@, behind as nat);
    proof {
        lemma_coded_is_restorable(
            rest,
            code as nat,
            (bits_per_sample - wasted) as nat,
            block_size as nat,
        );
    }
    let (subframe, next) = match read_coded_subframe(
        bytes,
        behind,
        code,
        bits_per_sample - wasted,
        block_size,
    ) {
        None => return None,
        Some(found) => found,
    };
    let ghost signal = subframe_signal(subframe@, block_size as nat);
    let ghost raised = raised_signal(signal, wasted as nat);
    match restore_signal(&subframe, block_size) {
        None => {
            proof {
                lemma_pow2_pos(wasted as nat);
                let factor = pow2(wasted as nat) as int;
                let place = choose|i: int| 0 <= i < signal.len() && !is_sample(#[trigger] signal[i]);
                let value = signal[place];
                assert(raised[place] == value * factor);
                assert(!is_sample(value * factor)) by (nonlinear_arith)
                    requires
                        value < -0x8000_0000 || value > 0x7fff_ffff,
                        factor >= 1,
                ;
            }
            None
        },
        Some(found) => {
            proof {
                assert forall|i: int| 0 <= i < signal.len() implies found@[i] == signal[i] by {
                    assert(is_sample(signal[i]));
                }
                assert(ints(found@) == signal);
            }
            match raise_signal(&found, wasted as u8) {
                None => None,
                Some(samples) => Some((AnalyzedSubframe::Verbatim(samples), next)),
            }
        },
    }
}

/// Reads a subframe, if the bits allow it.
pub fn read_analyzed_subframe(
    bytes: &[u8],
    place: usize,
    bits_per_sample: u32,
    block_size: usize,
) -> (read: Option<(AnalyzedSubframe, usize)>)
    requires
        is_place(bytes@, place),
        bits_per_sample <= 40,
    ensures
        match read_subframe(
            bits_at(bytes@, place as nat),
            bits_per_sample as nat,
            block_size as nat,
        ) {
            None => read is None,
            Some((subframe, rest)) => read matches Some((found, next)) && {
                &&& found@ == subframe
                &&& is_before(bytes@, next, rest)
            },
        },
{
    proof {
        reveal(read_subframe);
        vstd::arithmetic::power2::lemma2_to64();
    }
    let (reserved, behind) = match read_number(bytes, place, 1) {
        None => return None,
        Some(found) => found,
    };
    let (code, behind) = match read_number(bytes, behind, 6) {
        None => return None,
        Some(found) => found,
    };
    let (wasted, behind) = match read_number(bytes, behind, 1) {
        None => return None,
        Some(found) => found,
    };
    if reserved != 0 {
        None
    } else if wasted == 0 {
        read_coded_subframe(bytes, behind, code, bits_per_sample, block_size)
    } else {
        read_wasted_subframe(bytes, behind, code, bits_per_sample, block_size)
    }
}

} // verus!
