//! Reading coded frames back, as mathematics: every bit string that the encoder
//! writes has one reading, and it gives back what was written.

use vstd::arithmetic::power2::{lemma_pow2_pos, pow2};
use vstd::prelude::*;

use crate::bits::{bits_value, fits_signed, fits_unsigned, lemma_signed_bits_len, lemma_signed_bits_value, lemma_unsigned_bits_len, lemma_unsigned_bits_value, signed_bits, signed_value, unary_bits, unsigned_bits};
use crate::level::LevelProfile;
use crate::lossless::subframe_signal;
use crate::prediction::MAX_FLAC_LPC_ORDER;
use crate::residual::{best_encoding, best_partition, escape_width, is_least_width, is_valid_partition_order, lemma_best_encoding, lemma_best_partition, lemma_partition_slice, partition_candidates, partition_slice, partitioned, value_fits, width_suffices, MAX_BLOCK_SIZE, MAX_ESCAPE_BITS};
use crate::restoring::narrow;
use crate::rice::{all_fit, encoding_bits, folded, law_fold_is_invertible, partition_bits, partition_residuals, partitions_bits, rice_bits, rice_code, sample_bits, unfolded, EncodingView, PartitionView, RiceMethod};
use crate::subframe::{header_bits, predictors_are_valid, run_is_writable, subframe_bits, subframe_is_writable, widened, LpcView, SubframeView};
use crate::subframe_search::{best_subframe, fixed_candidate, fixed_order_count, fixed_search, lpc_candidate, lpc_orders, lpc_search, partition_order_limit, signal_lpc_limit, unpredicted};

verus! {

/// A reading: what was read and the bits after it, if the bits allow it.
pub type Reading<T> = Option<(T, Seq<bool>)>;

/// Reads a number without a sign.
pub open spec fn read_unsigned(bits: Seq<bool>, count: nat) -> Reading<nat> {
    if bits.len() < count {
        None
    } else {
        Some((bits_value(bits.take(count as int)), bits.skip(count as int)))
    }
}

/// Reads a number in two's complement.
pub open spec fn read_signed(bits: Seq<bool>, count: nat) -> Reading<int> {
    if bits.len() < count {
        None
    } else {
        Some((signed_value(bits.take(count as int)), bits.skip(count as int)))
    }
}

/// Reads the zero bits up to a one bit.
pub open spec fn read_unary(bits: Seq<bool>) -> Reading<nat>
    decreases bits.len(),
{
    if bits.len() == 0 {
        None
    } else if bits[0] {
        Some((0, bits.skip(1)))
    } else {
        match read_unary(bits.skip(1)) {
            None => None,
            Some((count, rest)) => Some((count + 1, rest)),
        }
    }
}

/// Reads one residual under a Rice parameter.
pub open spec fn read_rice(bits: Seq<bool>, parameter: nat) -> Reading<int> {
    match read_unary(bits) {
        None => None,
        Some((quotient, rest)) => match read_unsigned(rest, parameter) {
            None => None,
            Some((remainder, rest)) => Some(
                (unfolded(quotient * pow2(parameter) + remainder), rest),
            ),
        },
    }
}

/// Reads a run of residuals under a Rice parameter.
pub open spec fn read_rice_run(bits: Seq<bool>, parameter: nat, count: nat) -> Reading<Seq<i32>>
    decreases count,
{
    if count == 0 {
        Some((Seq::empty(), bits))
    } else {
        match read_rice_run(bits, parameter, (count - 1) as nat) {
            None => None,
            Some((earlier, rest)) => match read_rice(rest, parameter) {
                None => None,
                Some((residual, rest)) => if i32::MIN <= residual <= i32::MAX {
                    Some((earlier.push(residual as i32), rest))
                } else {
                    None
                },
            },
        }
    }
}

/// Reads a sample of a fixed width.
pub open spec fn read_sample(bits: Seq<bool>, width: nat) -> Reading<i32> {
    match read_signed(bits, width) {
        None => None,
        Some((sample, rest)) => if i32::MIN <= sample <= i32::MAX {
            Some((sample as i32, rest))
        } else {
            None
        },
    }
}

/// Reads a run of samples of a fixed width.
pub open spec fn read_sample_run(bits: Seq<bool>, width: nat, count: nat) -> Reading<Seq<i32>>
    decreases count,
{
    if count == 0 {
        Some((Seq::empty(), bits))
    } else {
        match read_sample_run(bits, width, (count - 1) as nat) {
            None => None,
            Some((earlier, rest)) => match read_sample(rest, width) {
                None => None,
                Some((sample, rest)) => Some((earlier.push(sample), rest)),
            },
        }
    }
}

/// Reads a partition of `count` residuals.
pub open spec fn read_partition(bits: Seq<bool>, method: RiceMethod, count: nat) -> Reading<
    PartitionView,
> {
    match read_unsigned(bits, method.spec_parameter_bits() as nat) {
        None => None,
        Some((parameter, rest)) => if parameter == method.spec_escape_code() {
            match read_unsigned(rest, 5) {
                None => None,
                Some((width, rest)) => if width == 0 {
                    Some(
                        (
                            PartitionView::Escape {
                                bits: 0,
                                residuals: Seq::new(count, |i: int| 0i32),
                            },
                            rest,
                        ),
                    )
                } else {
                    match read_sample_run(rest, width, count) {
                        None => None,
                        Some((residuals, rest)) => Some(
                            (PartitionView::Escape { bits: width as u8, residuals }, rest),
                        ),
                    }
                },
            }
        } else {
            match read_rice_run(rest, parameter, count) {
                None => None,
                Some((residuals, rest)) => Some(
                    (PartitionView::Rice { parameter: parameter as u8, residuals }, rest),
                ),
            }
        },
    }
}

/// The number of residuals in a partition.
pub open spec fn partition_len(
    block_size: nat,
    predictor_order: nat,
    partition_order: nat,
    index: nat,
) -> nat {
    let span = block_size / pow2(partition_order);
    if index == 0 {
        (span - predictor_order) as nat
    } else {
        span
    }
}

/// Reads the first `count` partitions.
pub open spec fn read_partitions(
    bits: Seq<bool>,
    method: RiceMethod,
    block_size: nat,
    predictor_order: nat,
    partition_order: nat,
    count: nat,
) -> Reading<Seq<PartitionView>>
    decreases count,
{
    if count == 0 {
        Some((Seq::empty(), bits))
    } else {
        match read_partitions(
            bits,
            method,
            block_size,
            predictor_order,
            partition_order,
            (count - 1) as nat,
        ) {
            None => None,
            Some((earlier, rest)) => match read_partition(
                rest,
                method,
                partition_len(block_size, predictor_order, partition_order, (count - 1) as nat),
            ) {
                None => None,
                Some((partition, rest)) => Some((earlier.push(partition), rest)),
            },
        }
    }
}

/// Reads a coded residual.
pub open spec fn read_encoding(bits: Seq<bool>, block_size: nat, predictor_order: nat) -> Reading<
    EncodingView,
> {
    match read_unsigned(bits, 2) {
        None => None,
        Some((code, rest)) => match read_unsigned(rest, 4) {
            None => None,
            Some((partition_order, rest)) => {
                let method = if code == 0 {
                    RiceMethod::FourBit
                } else {
                    RiceMethod::FiveBit
                };
                if code > 1 || !is_valid_partition_order(
                    block_size,
                    predictor_order,
                    partition_order,
                ) {
                    None
                } else {
                    match read_partitions(
                        rest,
                        method,
                        block_size,
                        predictor_order,
                        partition_order,
                        pow2(partition_order),
                    ) {
                        None => None,
                        Some((partitions, rest)) => Some(
                            (
                                EncodingView {
                                    method,
                                    partition_order: partition_order as u8,
                                    partitions,
                                },
                                rest,
                            ),
                        ),
                    }
                }
            },
        },
    }
}

/// Reads the body of a subframe with a type code.
pub open spec fn read_coded(
    bits: Seq<bool>,
    code: nat,
    bits_per_sample: nat,
    block_size: nat,
) -> Reading<SubframeView> {
    if code == 0 {
        match read_sample(bits, bits_per_sample) {
            None => None,
            Some((sample, rest)) => Some((SubframeView::Constant(sample), rest)),
        }
    } else if code == 1 {
        match read_sample_run(bits, bits_per_sample, block_size) {
            None => None,
            Some((samples, rest)) => Some((SubframeView::Verbatim(samples), rest)),
        }
    } else if code < 8 || 12 < code < 32 {
        None
    } else if code < 32 {
        let order = (code - 8) as nat;
        match read_sample_run(bits, bits_per_sample, order) {
            None => None,
            Some((warmup, rest)) => match read_encoding(rest, block_size, order) {
                None => None,
                Some((residual, rest)) => Some(
                    (SubframeView::Fixed { order: order as u8, warmup, residual }, rest),
                ),
            },
        }
    } else {
        read_lpc(bits, (code - 31) as nat, bits_per_sample, block_size)
    }
}

/// Reads the body of a weighted-sum subframe.
pub open spec fn read_lpc(
    bits: Seq<bool>,
    order: nat,
    bits_per_sample: nat,
    block_size: nat,
) -> Reading<SubframeView> {
    match read_sample_run(bits, bits_per_sample, order) {
        None => None,
        Some((warmup, rest)) => match read_unsigned(rest, 4) {
            None => None,
            Some((precision, rest)) => match read_signed(rest, 5) {
                None => None,
                Some((shift, rest)) => if precision == 15 || shift < 0 {
                    None
                } else {
                    match read_sample_run(rest, precision + 1, order) {
                        None => None,
                        Some((coefficients, rest)) => match read_encoding(rest, block_size, order) {
                            None => None,
                            Some((residual, rest)) => Some(
                                (
                                    SubframeView::Lpc {
                                        order: order as u8,
                                        warmup,
                                        precision: (precision + 1) as u8,
                                        shift: shift as u8,
                                        coefficients: coefficients.map_values(
                                            |coefficient: i32| coefficient as i16,
                                        ),
                                        residual,
                                    },
                                    rest,
                                ),
                            ),
                        },
                    }
                },
            },
        },
    }
}

/// A signal with zero bits put behind each of its values.
pub open spec fn raised_signal(signal: Seq<int>, wasted: nat) -> Seq<int> {
    Seq::new(signal.len(), |i: int| signal[i] * pow2(wasted))
}

/// Reads the body of a subframe whose samples all end with zero bits: the number of these
/// bits, and a subframe of samples without them. It stands for the samples with these bits.
pub open spec fn read_wasted(bits: Seq<bool>, code: nat, bits_per_sample: nat, block_size: nat)
    -> Reading<SubframeView> {
    match read_unary(bits) {
        None => None,
        Some((more, rest)) => if more + 1 >= bits_per_sample {
            None
        } else {
            match read_coded(rest, code, (bits_per_sample - (more + 1)) as nat, block_size) {
                None => None,
                Some((subframe, rest)) => match narrow(
                    raised_signal(subframe_signal(subframe, block_size), more + 1),
                ) {
                    None => None,
                    Some(samples) => Some((SubframeView::Verbatim(samples), rest)),
                },
            }
        },
    }
}

/// Reads a subframe: a zero bit, the type code, a bit that tells of zero bits behind the
/// samples, and the body.
#[verifier::opaque]
pub open spec fn read_subframe(bits: Seq<bool>, bits_per_sample: nat, block_size: nat) -> Reading<
    SubframeView,
> {
    match read_unsigned(bits, 1) {
        None => None,
        Some((reserved, rest)) => match read_unsigned(rest, 6) {
            None => None,
            Some((code, rest)) => match read_unsigned(rest, 1) {
                None => None,
                Some((wasted, rest)) => if reserved != 0 {
                    None
                } else if wasted == 0 {
                    read_coded(rest, code, bits_per_sample, block_size)
                } else {
                    read_wasted(rest, code, bits_per_sample, block_size)
                },
            },
        },
    }
}

pub proof fn lemma_read_unsigned(value: int, count: nat, rest: Seq<bool>)
    requires
        fits_unsigned(value, count),
    ensures
        read_unsigned(unsigned_bits(value, count) + rest, count) == Some((value as nat, rest)),
{
    lemma_unsigned_bits_len(value, count);
    lemma_unsigned_bits_value(value, count);
    let bits = unsigned_bits(value, count) + rest;
    assert(bits.take(count as int) == unsigned_bits(value, count));
    assert(bits.skip(count as int) == rest);
}

proof fn lemma_read_signed(value: int, count: nat, rest: Seq<bool>)
    requires
        fits_signed(value, count),
    ensures
        read_signed(signed_bits(value, count) + rest, count) == Some((value, rest)),
{
    lemma_signed_bits_len(value, count);
    lemma_signed_bits_value(value, count);
    let bits = signed_bits(value, count) + rest;
    assert(bits.take(count as int) == signed_bits(value, count));
    assert(bits.skip(count as int) == rest);
}

proof fn lemma_read_unary(value: nat, rest: Seq<bool>)
    ensures
        read_unary(unary_bits(value) + rest) == Some((value, rest)),
    decreases value,
{
    let bits = unary_bits(value) + rest;
    if value == 0 {
        assert(bits.skip(1) == rest);
    } else {
        lemma_read_unary((value - 1) as nat, rest);
        assert(bits.skip(1) == unary_bits((value - 1) as nat) + rest);
    }
}

proof fn lemma_read_rice(residual: int, parameter: nat, rest: Seq<bool>)
    ensures
        read_rice(rice_code(residual, parameter) + rest, parameter) == Some((residual, rest)),
{
    let value = folded(residual);
    lemma_pow2_pos(parameter);
    let quotient = value / pow2(parameter);
    let remainder = value % pow2(parameter);
    vstd::arithmetic::div_mod::lemma_fundamental_div_mod(value as int, pow2(parameter) as int);
    vstd::arithmetic::div_mod::lemma_mod_pos_bound(value as int, pow2(parameter) as int);
    vstd::arithmetic::div_mod::lemma_div_pos_is_pos(value as int, pow2(parameter) as int);
    let tail = unsigned_bits(remainder as int, parameter);
    assert(rice_code(residual, parameter) + rest == unary_bits(quotient) + (tail + rest));
    lemma_read_unary(quotient, tail + rest);
    lemma_read_unsigned(remainder as int, parameter, rest);
    assert(quotient * pow2(parameter) == pow2(parameter) * quotient) by (nonlinear_arith);
    law_fold_is_invertible(residual, value);
}

proof fn lemma_read_rice_run(residuals: Seq<i32>, parameter: nat, rest: Seq<bool>)
    ensures
        read_rice_run(rice_bits(residuals, parameter) + rest, parameter, residuals.len()) == Some(
            (residuals, rest),
        ),
    decreases residuals.len(),
{
    if residuals.len() == 0 {
        assert(rice_bits(residuals, parameter) + rest == rest);
        assert(residuals == Seq::<i32>::empty());
    } else {
        let code = rice_code(residuals.last() as int, parameter);
        let earlier = rice_bits(residuals.drop_last(), parameter);
        lemma_read_rice_run(residuals.drop_last(), parameter, code + rest);
        assert(rice_bits(residuals, parameter) + rest == earlier + (code + rest));
        lemma_read_rice(residuals.last() as int, parameter, rest);
        assert(residuals.drop_last().push(residuals.last()) == residuals);
    }
}

proof fn lemma_read_sample_run(samples: Seq<i32>, width: nat, rest: Seq<bool>)
    requires
        all_fit(samples, width),
    ensures
        read_sample_run(sample_bits(samples, width) + rest, width, samples.len()) == Some(
            (samples, rest),
        ),
    decreases samples.len(),
{
    if samples.len() == 0 {
        assert(sample_bits(samples, width) + rest == rest);
        assert(samples == Seq::<i32>::empty());
    } else {
        let code = signed_bits(samples.last() as int, width);
        let earlier = samples.drop_last();
        assert forall|i: int| 0 <= i < earlier.len() implies fits_signed(
            #[trigger] earlier[i] as int,
            width,
        ) by {
            assert(earlier[i] == samples[i]);
        }
        lemma_read_sample_run(earlier, width, code + rest);
        assert(sample_bits(samples, width) + rest == sample_bits(earlier, width) + (code + rest));
        assert(fits_signed(samples[samples.len() - 1] as int, width));
        lemma_read_signed(samples.last() as int, width, rest);
        assert(samples.drop_last().push(samples.last()) == samples);
    }
}

/// A partition that reads back: its parameter is not the escape code, and an
/// escape width suffices.
pub open spec fn partition_is_readable(partition: PartitionView, method: RiceMethod) -> bool {
    match partition {
        PartitionView::Rice { parameter, .. } => parameter < method.spec_escape_code(),
        PartitionView::Escape { bits, residuals } => bits <= MAX_ESCAPE_BITS && width_suffices(
            residuals,
            bits as nat,
        ),
    }
}

proof fn lemma_read_partition(partition: PartitionView, method: RiceMethod, rest: Seq<bool>)
    requires
        partition_is_readable(partition, method),
    ensures
        read_partition(
            partition_bits(partition, method) + rest,
            method,
            partition_residuals(partition).len(),
        ) == Some((partition, rest)),
{
    let width = method.spec_parameter_bits() as nat;
    vstd::arithmetic::power2::lemma2_to64();
    match partition {
        PartitionView::Rice { parameter, residuals } => {
            let body = rice_bits(residuals, parameter as nat);
            lemma_read_unsigned(parameter as int, width, body + rest);
            assert(partition_bits(partition, method) + rest == unsigned_bits(
                parameter as int,
                width,
            ) + (body + rest));
            lemma_read_rice_run(residuals, parameter as nat, rest);
        },
        PartitionView::Escape { bits, residuals } => {
            let escape = unsigned_bits(method.spec_escape_code() as int, width);
            let field = unsigned_bits(bits as int, 5);
            let body = if bits == 0 {
                Seq::<bool>::empty()
            } else {
                sample_bits(residuals, bits as nat)
            };
            lemma_read_unsigned(
                method.spec_escape_code() as int,
                width,
                field + (body + rest),
            );
            assert(partition_bits(partition, method) + rest == escape + (field + (body + rest)));
            lemma_read_unsigned(bits as int, 5, body + rest);
            if bits == 0 {
                assert(body + rest == rest);
                assert forall|i: int| 0 <= i < residuals.len() implies residuals[i] == 0 by {
                    assert(value_fits(residuals[i] as int, 0));
                }
                assert(residuals == Seq::new(residuals.len(), |i: int| 0i32));
            } else {
                assert forall|i: int| 0 <= i < residuals.len() implies fits_signed(
                    #[trigger] residuals[i] as int,
                    bits as nat,
                ) by {
                    assert(value_fits(residuals[i] as int, bits as nat));
                }
                lemma_read_sample_run(residuals, bits as nat, rest);
            }
        },
    }
}

pub proof fn lemma_best_partition_is_readable(residuals: Seq<i32>, method: RiceMethod)
    requires
        residuals.len() <= MAX_BLOCK_SIZE,
    ensures
        partition_is_readable(best_partition(residuals, method), method),
        partition_residuals(best_partition(residuals, method)) == residuals,
{
    lemma_best_partition(residuals, method);
    let candidates = partition_candidates(residuals, method);
    let place = choose|i: int|
        0 <= i < candidates.len() && candidates[i] == best_partition(residuals, method);
    match best_partition(residuals, method) {
        PartitionView::Rice { parameter, .. } => {
            assert(candidates[place] is Rice);
        },
        PartitionView::Escape { bits, .. } => {
            assert(escape_width(residuals) == Some(bits));
            assert(is_least_width(residuals, bits));
        },
    }
}

proof fn lemma_read_partitions(
    residuals: Seq<i32>,
    predictor_order: nat,
    partition_order: u8,
    method: RiceMethod,
    count: nat,
    rest: Seq<bool>,
)
    requires
        residuals.len() <= MAX_BLOCK_SIZE,
        is_valid_partition_order(
            residuals.len() + predictor_order,
            predictor_order,
            partition_order as nat,
        ),
        count <= pow2(partition_order as nat),
    ensures
        ({
            let partitions = partitioned(
                residuals,
                predictor_order,
                partition_order,
                method,
            ).partitions.take(count as int);
            read_partitions(
                partitions_bits(partitions, method) + rest,
                method,
                residuals.len() + predictor_order,
                predictor_order,
                partition_order as nat,
                count,
            ) == Some((partitions, rest))
        }),
    decreases count,
{
    let all = partitioned(residuals, predictor_order, partition_order, method).partitions;
    let partitions = all.take(count as int);
    if count == 0 {
        assert(partitions == Seq::<PartitionView>::empty());
        assert(partitions_bits(partitions, method) + rest == rest);
    } else {
        let slice = partition_slice(
            residuals,
            predictor_order,
            partition_order as nat,
            count - 1,
        );
        lemma_partition_slice(residuals, predictor_order, partition_order as nat, count - 1);
        lemma_best_partition_is_readable(slice, method);
        assert(partitions.last() == best_partition(slice, method));
        assert(partitions.drop_last() == all.take(count - 1));
        let code = partition_bits(partitions.last(), method);
        lemma_read_partitions(
            residuals,
            predictor_order,
            partition_order,
            method,
            (count - 1) as nat,
            code + rest,
        );
        assert(partitions_bits(partitions, method) + rest == partitions_bits(
            partitions.drop_last(),
            method,
        ) + (code + rest));
        lemma_read_partition(partitions.last(), method, rest);
        let span = ((residuals.len() + predictor_order) / pow2(partition_order as nat)) as int;
        assert(count * span - (count - 1) * span == span) by (nonlinear_arith);
        assert(slice.len() == partition_len(
            residuals.len() + predictor_order,
            predictor_order,
            partition_order as nat,
            (count - 1) as nat,
        ));
        assert(partitions.drop_last().push(partitions.last()) == partitions);
    }
}

proof fn lemma_partitioned_reads_back(
    residuals: Seq<i32>,
    predictor_order: nat,
    order: u8,
    method: RiceMethod,
    rest: Seq<bool>,
)
    requires
        residuals.len() <= MAX_BLOCK_SIZE,
        order <= 8,
        is_valid_partition_order(
            residuals.len() + predictor_order,
            predictor_order,
            order as nat,
        ),
    ensures
        ({
            let encoding = partitioned(residuals, predictor_order, order, method);
            read_encoding(
                encoding_bits(encoding) + rest,
                residuals.len() + predictor_order,
                predictor_order,
            ) == Some((encoding, rest))
        }),
{
    let encoding = partitioned(residuals, predictor_order, order, method);
    let count = pow2(order as nat);
    vstd::arithmetic::power2::lemma2_to64();
    let first = unsigned_bits(method.spec_code() as int, 2);
    let second = unsigned_bits(order as int, 4);
    let body = partitions_bits(encoding.partitions, method);
    assert(encoding_bits(encoding) + rest == first + (second + (body + rest)));
    lemma_read_unsigned(method.spec_code() as int, 2, second + (body + rest));
    lemma_read_unsigned(order as int, 4, body + rest);
    lemma_read_partitions(residuals, predictor_order, order, method, count, rest);
    assert(encoding.partitions.take(count as int) == encoding.partitions);
}

/// The chosen coding of a residual reads back from its bits.
pub proof fn law_encoding_reads_back(
    residuals: Seq<i32>,
    predictor_order: nat,
    max_partition_order: nat,
    rest: Seq<bool>,
)
    requires
        residuals.len() + predictor_order <= MAX_BLOCK_SIZE,
    ensures
        best_encoding(residuals, predictor_order, max_partition_order) matches Some(encoding)
            ==> read_encoding(
            encoding_bits(encoding) + rest,
            residuals.len() + predictor_order,
            predictor_order,
        ) == Some((encoding, rest)),
{
    lemma_best_encoding(residuals, predictor_order, max_partition_order);
    let found = best_encoding(residuals, predictor_order, max_partition_order);
    if found is Some {
        let encoding = found.unwrap();
        lemma_partitioned_reads_back(
            residuals,
            predictor_order,
            encoding.partition_order,
            encoding.method,
            rest,
        );
    }
}

pub proof fn lemma_regroup(
    a: Seq<bool>,
    b: Seq<bool>,
    c: Seq<bool>,
    d: Seq<bool>,
    e: Seq<bool>,
    f: Seq<bool>,
    g: Seq<bool>,
)
    ensures
        a + b + c + d + e + f + g == a + (b + (c + (d + (e + (f + g))))),
{
    assert(a + b + c + d + e + f + g == a + (b + (c + (d + (e + (f + g))))));
}

/// A subframe is one of the fixed-predictor subframes of a signal.
pub open spec fn is_fixed_candidate(
    subframe: SubframeView,
    samples: Seq<i32>,
    max_partition_order: nat,
) -> bool {
    exists|order: u8|
        order <= 4 && order <= samples.len() && #[trigger] fixed_candidate(
            samples,
            order,
            max_partition_order,
        ) == Some(subframe)
}

/// A subframe is one of the weighted-sum subframes of a signal.
pub open spec fn is_lpc_candidate(
    subframe: SubframeView,
    samples: Seq<i32>,
    max_partition_order: nat,
) -> bool {
    exists|order: u8, predictor: LpcView|
        1 <= order <= MAX_FLAC_LPC_ORDER && order <= samples.len() && predictor.is_valid(
            order as nat,
        ) && #[trigger] lpc_candidate(samples, order, predictor, max_partition_order) == Some(
            subframe,
        )
}

/// A subframe is one of those that are tried for a signal.
#[verifier::opaque]
pub open spec fn is_candidate(
    subframe: SubframeView,
    samples: Seq<i32>,
    max_partition_order: nat,
) -> bool {
    ||| subframe == unpredicted(samples)
    ||| is_fixed_candidate(subframe, samples, max_partition_order)
    ||| is_lpc_candidate(subframe, samples, max_partition_order)
}

proof fn lemma_fixed_candidate_is_tried(samples: Seq<i32>, order: u8, max_partition_order: nat)
    requires
        order <= 4,
        order <= samples.len(),
    ensures
        fixed_candidate(samples, order, max_partition_order) matches Some(subframe)
            ==> is_candidate(subframe, samples, max_partition_order),
{
    reveal(is_candidate);
    if let Some(subframe) = fixed_candidate(samples, order, max_partition_order) {
        assert(is_fixed_candidate(subframe, samples, max_partition_order));
    }
}

proof fn lemma_lpc_candidate_is_tried(
    samples: Seq<i32>,
    order: u8,
    predictor: LpcView,
    max_partition_order: nat,
)
    requires
        1 <= order <= MAX_FLAC_LPC_ORDER,
        order <= samples.len(),
        predictor.is_valid(order as nat),
    ensures
        lpc_candidate(samples, order, predictor, max_partition_order) matches Some(subframe)
            ==> is_candidate(subframe, samples, max_partition_order),
{
    reveal(is_candidate);
    if let Some(subframe) = lpc_candidate(samples, order, predictor, max_partition_order) {
        assert(is_lpc_candidate(subframe, samples, max_partition_order));
    }
}

proof fn lemma_fixed_search_is_candidate(
    samples: Seq<i32>,
    bits_per_sample: nat,
    max_partition_order: nat,
    orders: nat,
)
    requires
        orders <= 5,
    ensures
        is_candidate(
            fixed_search(samples, bits_per_sample, max_partition_order, orders),
            samples,
            max_partition_order,
        ),
    decreases orders,
{
    if orders > 0 {
        lemma_fixed_search_is_candidate(
            samples,
            bits_per_sample,
            max_partition_order,
            (orders - 1) as nat,
        );
        let order = (orders - 1) as u8;
        if order <= samples.len() {
            lemma_fixed_candidate_is_tried(samples, order, max_partition_order);
        }
    } else {
        reveal(is_candidate);
    }
}

proof fn lemma_lpc_search_is_candidate(
    samples: Seq<i32>,
    bits_per_sample: nat,
    max_partition_order: nat,
    predictors: Seq<Option<LpcView>>,
    best: SubframeView,
    orders: Seq<u8>,
    tried: nat,
)
    requires
        tried <= orders.len(),
        predictors_are_valid(predictors),
        is_candidate(best, samples, max_partition_order),
        forall|i: int|
            0 <= i < orders.len() ==> 1 <= #[trigger] orders[i] <= MAX_FLAC_LPC_ORDER && orders[i]
                <= samples.len(),
    ensures
        lpc_search(
            samples,
            bits_per_sample,
            max_partition_order,
            predictors,
            best,
            orders,
            tried,
        ) matches Some(found) ==> is_candidate(found, samples, max_partition_order),
    decreases tried,
{
    if tried > 0 {
        lemma_lpc_search_is_candidate(
            samples,
            bits_per_sample,
            max_partition_order,
            predictors,
            best,
            orders,
            (tried - 1) as nat,
        );
        let order = orders[tried - 1];
        assert(1 <= order <= MAX_FLAC_LPC_ORDER && order <= samples.len());
        if let Some(predictor) = crate::subframe::predictor_of_order(predictors, order as nat) {
            assert(predictor.is_valid(order as nat));
            lemma_lpc_candidate_is_tried(samples, order, predictor, max_partition_order);
        }
    }
}

/// The chosen subframe is one of those that are tried.
pub proof fn lemma_best_subframe_is_candidate(
    samples: Seq<i32>,
    bits_per_sample: nat,
    sample_rate: u32,
    profile: LevelProfile,
    predictors: Seq<Option<LpcView>>,
)
    requires
        samples.len() >= 1,
        predictors_are_valid(predictors),
    ensures
        is_candidate(
            best_subframe(samples, bits_per_sample, sample_rate, profile, predictors),
            samples,
            partition_order_limit(profile),
        ),
{
    reveal(best_subframe);
    let limit = partition_order_limit(profile);
    let best = fixed_search(samples, bits_per_sample, limit, fixed_order_count(profile));
    lemma_fixed_search_is_candidate(
        samples,
        bits_per_sample,
        limit,
        fixed_order_count(profile),
    );
    let highest = signal_lpc_limit(profile, sample_rate, samples.len()) as u8;
    let orders = lpc_orders(highest);
    assert forall|i: int| 0 <= i < orders.len() implies 1 <= #[trigger] orders[i]
        <= MAX_FLAC_LPC_ORDER && orders[i] <= samples.len() by {
        assert(orders[i] <= highest);
    }
    lemma_lpc_search_is_candidate(
        samples,
        bits_per_sample,
        limit,
        predictors,
        best,
        orders,
        orders.len(),
    );
}

proof fn lemma_read_header(code: int, rest: Seq<bool>, bits_per_sample: nat, block_size: nat)
    requires
        fits_unsigned(code, 6),
    ensures
        read_subframe(header_bits(code) + rest, bits_per_sample, block_size) == read_coded(
            rest,
            code as nat,
            bits_per_sample,
            block_size,
        ),
{
    reveal(read_subframe);
    let zero = unsigned_bits(0, 1);
    reveal_with_fuel(unsigned_bits, 2);
    assert(zero == seq![false]);
    vstd::arithmetic::power2::lemma2_to64();
    let field = unsigned_bits(code, 6);
    assert(header_bits(code) + rest == zero + (field + (zero + rest)));
    lemma_read_unsigned(0, 1, field + (zero + rest));
    lemma_read_unsigned(code, 6, zero + rest);
    lemma_read_unsigned(0, 1, rest);
}

proof fn lemma_read_run(samples: Seq<i32>, width: nat, rest: Seq<bool>)
    requires
        run_is_writable(samples, width),
    ensures
        read_sample_run(sample_bits(samples, width) + rest, width, samples.len()) == Some(
            (samples, rest),
        ),
{
    lemma_read_sample_run(samples, width, rest);
}

proof fn lemma_fixed_candidate_reads_back(
    samples: Seq<i32>,
    order: u8,
    max_partition_order: nat,
    bits_per_sample: nat,
    rest: Seq<bool>,
)
    requires
        1 <= samples.len() <= MAX_BLOCK_SIZE,
        order <= 4,
        order <= samples.len(),
        fixed_candidate(samples, order, max_partition_order) is Some,
        subframe_is_writable(
            fixed_candidate(samples, order, max_partition_order).unwrap(),
            bits_per_sample,
        ),
    ensures
        ({
            let subframe = fixed_candidate(samples, order, max_partition_order).unwrap();
            read_subframe(
                subframe_bits(subframe, bits_per_sample) + rest,
                bits_per_sample,
                samples.len(),
            ) == Some((subframe, rest))
        }),
{
    let subframe = fixed_candidate(samples, order, max_partition_order).unwrap();
    let residuals = crate::prediction::residuals_of(
        samples,
        crate::prediction::PredictorView::Fixed { order: order as nat },
    ).unwrap();
    let warmup = samples.take(order as int);
    let residual = best_encoding(residuals, order as nat, max_partition_order).unwrap();
    vstd::arithmetic::power2::lemma2_to64();
    let head = header_bits(8 + order);
    let start = sample_bits(warmup, bits_per_sample);
    let body = encoding_bits(residual);
    assert(subframe_bits(subframe, bits_per_sample) + rest == head + (start + (body + rest)));
    lemma_read_header(8 + order, start + (body + rest), bits_per_sample, samples.len());
    lemma_read_run(warmup, bits_per_sample, body + rest);
    law_encoding_reads_back(residuals, order as nat, max_partition_order, rest);
}

proof fn lemma_lpc_candidate_reads_back(
    samples: Seq<i32>,
    order: u8,
    predictor: LpcView,
    max_partition_order: nat,
    bits_per_sample: nat,
    rest: Seq<bool>,
)
    requires
        1 <= samples.len() <= MAX_BLOCK_SIZE,
        1 <= order <= MAX_FLAC_LPC_ORDER,
        order <= samples.len(),
        predictor.is_valid(order as nat),
        lpc_candidate(samples, order, predictor, max_partition_order) is Some,
        subframe_is_writable(
            lpc_candidate(samples, order, predictor, max_partition_order).unwrap(),
            bits_per_sample,
        ),
    ensures
        ({
            let subframe = lpc_candidate(samples, order, predictor, max_partition_order).unwrap();
            read_subframe(
                subframe_bits(subframe, bits_per_sample) + rest,
                bits_per_sample,
                samples.len(),
            ) == Some((subframe, rest))
        }),
{
    let subframe = lpc_candidate(samples, order, predictor, max_partition_order).unwrap();
    let residuals = crate::prediction::residuals_of(
        samples,
        crate::prediction::PredictorView::Lpc {
            coefficients: predictor.coefficients,
            shift: predictor.shift as nat,
        },
    ).unwrap();
    let warmup = samples.take(order as int);
    let residual = best_encoding(residuals, order as nat, max_partition_order).unwrap();
    let wide = widened(predictor.coefficients);
    vstd::arithmetic::power2::lemma2_to64();
    let head = header_bits(32 + (order - 1));
    let start = sample_bits(warmup, bits_per_sample);
    let precision = unsigned_bits(predictor.precision - 1, 4);
    let shift = signed_bits(predictor.shift as int, 5);
    let weights = sample_bits(wide, predictor.precision as nat);
    let body = encoding_bits(residual);
    let tail = weights + (body + rest);
    lemma_regroup(head, start, precision, shift, weights, body, rest);
    lemma_read_header(
        32 + (order - 1),
        start + (precision + (shift + tail)),
        bits_per_sample,
        samples.len(),
    );
    lemma_read_run(warmup, bits_per_sample, precision + (shift + tail));
    lemma_read_unsigned(predictor.precision - 1, 4, shift + tail);
    lemma_read_signed(predictor.shift as int, 5, tail);
    lemma_read_run(wide, predictor.precision as nat, body + rest);
    law_encoding_reads_back(residuals, order as nat, max_partition_order, rest);
    assert(wide.map_values(|coefficient: i32| coefficient as i16) == predictor.coefficients);
}

proof fn lemma_unpredicted_reads_back(
    samples: Seq<i32>,
    bits_per_sample: nat,
    rest: Seq<bool>,
)
    requires
        samples.len() >= 1,
        subframe_is_writable(unpredicted(samples), bits_per_sample),
    ensures
        read_subframe(
            subframe_bits(unpredicted(samples), bits_per_sample) + rest,
            bits_per_sample,
            samples.len(),
        ) == Some((unpredicted(samples), rest)),
{
    let subframe = unpredicted(samples);
    vstd::arithmetic::power2::lemma2_to64();
    match subframe {
        SubframeView::Constant(sample) => {
            let body = signed_bits(sample as int, bits_per_sample);
            assert(subframe_bits(subframe, bits_per_sample) + rest == header_bits(0) + (body
                + rest));
            lemma_read_header(0, body + rest, bits_per_sample, samples.len());
            lemma_read_signed(sample as int, bits_per_sample, rest);
        },
        _ => {
            let body = sample_bits(samples, bits_per_sample);
            assert(subframe_bits(subframe, bits_per_sample) + rest == header_bits(1) + (body
                + rest));
            lemma_read_header(1, body + rest, bits_per_sample, samples.len());
            lemma_read_run(samples, bits_per_sample, rest);
        },
    }
}

/// A subframe reads back from its bits, whatever follows them.
pub open spec fn reads_back(subframe: SubframeView, bits_per_sample: nat, block_size: nat) -> bool {
    forall|rest: Seq<bool>|
        read_subframe(
            #[trigger] (subframe_bits(subframe, bits_per_sample) + rest),
            bits_per_sample,
            block_size,
        ) == Some((subframe, rest))
}

/// The chosen subframe reads back from its bits, whatever follows them.
pub proof fn law_subframe_reads_back(
    samples: Seq<i32>,
    bits_per_sample: nat,
    sample_rate: u32,
    profile: LevelProfile,
    predictors: Seq<Option<LpcView>>,
)
    requires
        1 <= samples.len() <= MAX_BLOCK_SIZE,
        predictors_are_valid(predictors),
        subframe_is_writable(
            best_subframe(samples, bits_per_sample, sample_rate, profile, predictors),
            bits_per_sample,
        ),
    ensures
        reads_back(
            best_subframe(samples, bits_per_sample, sample_rate, profile, predictors),
            bits_per_sample,
            samples.len(),
        ),
{
    let subframe = best_subframe(samples, bits_per_sample, sample_rate, profile, predictors);
    let limit = partition_order_limit(profile);
    lemma_best_subframe_is_candidate(samples, bits_per_sample, sample_rate, profile, predictors);
    reveal(is_candidate);
    assert forall|rest: Seq<bool>|
        read_subframe(
            #[trigger] (subframe_bits(subframe, bits_per_sample) + rest),
            bits_per_sample,
            samples.len(),
        ) == Some((subframe, rest)) by {
        if subframe == unpredicted(samples) {
            lemma_unpredicted_reads_back(samples, bits_per_sample, rest);
        } else if is_fixed_candidate(subframe, samples, limit) {
            let order = choose|order: u8|
                order <= 4 && order <= samples.len() && #[trigger] fixed_candidate(
                    samples,
                    order,
                    limit,
                ) == Some(subframe);
            lemma_fixed_candidate_reads_back(samples, order, limit, bits_per_sample, rest);
        } else {
            let (order, predictor) = choose|order: u8, predictor: LpcView|
                1 <= order <= MAX_FLAC_LPC_ORDER && order <= samples.len() && predictor.is_valid(
                    order as nat,
                ) && #[trigger] lpc_candidate(samples, order, predictor, limit) == Some(subframe);
            lemma_lpc_candidate_reads_back(
                samples,
                order,
                predictor,
                limit,
                bits_per_sample,
                rest,
            );
        }
    }
}

} // verus!
