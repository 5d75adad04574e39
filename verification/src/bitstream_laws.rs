//! How numbers, subframes and headers are laid out as bits.

use vstd::arithmetic::div_mod::{lemma_div_denominator, lemma_fundamental_div_mod};
use vstd::arithmetic::power2::{lemma2_to64, lemma_pow2_pos, lemma_pow2_unfold, pow2};
use vstd::prelude::*;

use crate::bits::{bits_value, byte_bits, fits_signed, lemma_byte_bits_len, lemma_signed_bits_len, lemma_signed_bits_value, lemma_unsigned_bits_len, lemma_unsigned_bits_value, padding_bits, signed_bits, signed_value, unary_bits, unsigned_bits};
use crate::frame_reading::{read_codes, HeaderCodes};
use crate::reading::{partition_len, read_partition, read_rice, read_subframe, read_unary, read_wasted};
use crate::residual::is_valid_partition_order;
use crate::rice::{encoding_bits, folded, lemma_sample_bits_len, rice_code, sample_bits, EncodingView, PartitionView, RiceMethod};
use crate::subframe::{header_bits, subframe_bits, LpcView, SubframeView};

verus! {

/// A number is written from its highest bit on.
pub proof fn law_numbers_are_written_from_the_highest_bit(value: nat, count: nat, place: int)
    requires
        0 <= place < count,
    ensures
        unsigned_bits(value as int, count).len() == count,
        unsigned_bits(value as int, count)[place] <==> value / pow2((count - 1 - place) as nat) % 2
            == 1,
    decreases count,
{
    lemma_unsigned_bits_len(value as int, count);
    lemma_unsigned_bits_len((value / 2) as int, (count - 1) as nat);
    if place == count - 1 {
        lemma2_to64();
        assert(value / pow2(0) == value);
    } else {
        let below = (count - 2 - place) as nat;
        law_numbers_are_written_from_the_highest_bit(value / 2, (count - 1) as nat, place);
        lemma_pow2_unfold(below + 1);
        lemma_pow2_pos(below);
        lemma_div_denominator(value as int, 2, pow2(below) as int);
        assert(unsigned_bits(value as int, count)[place] == unsigned_bits(
            (value / 2) as int,
            (count - 1) as nat,
        )[place]);
        assert((value / 2) / pow2(below) == value / (2 * pow2(below)));
    }
}

/// Bytes are bits from the highest bit of the first byte on.
pub proof fn law_bytes_are_bits_from_the_highest(bytes: Seq<u8>, index: int, place: int)
    requires
        0 <= index < bytes.len(),
        0 <= place < 8,
    ensures
        byte_bits(bytes).len() == 8 * bytes.len(),
        byte_bits(bytes)[8 * index + place] <==> bytes[index] as nat / pow2((7 - place) as nat) % 2
            == 1,
    decreases bytes.len(),
{
    lemma_byte_bits_len(bytes);
    lemma_byte_bits_len(bytes.drop_last());
    if index == bytes.len() - 1 {
        law_numbers_are_written_from_the_highest_bit(bytes[index] as nat, 8, place);
    } else {
        law_bytes_are_bits_from_the_highest(bytes.drop_last(), index, place);
    }
}

/// The number of a bit string is below the power of two of its length, and its bits are those
/// of the string, from the highest on.
pub proof fn law_bit_strings_are_numbers(bits: Seq<bool>)
    ensures
        bits_value(bits) < pow2(bits.len()),
        unsigned_bits(bits_value(bits) as int, bits.len()) == bits,
    decreases bits.len(),
{
    lemma2_to64();
    if bits.len() > 0 {
        law_bit_strings_are_numbers(bits.drop_last());
        lemma_pow2_unfold(bits.len());
        assert(bits == bits.drop_last().push(bits.last()));
    }
}

/// A negative number is written as the power of two above it, and read so: the first bit is
/// set exactly for negative numbers.
pub proof fn law_negative_numbers_are_complements(value: int, count: nat, bits: Seq<bool>)
    requires
        fits_signed(value, count),
        bits.len() > 0,
    ensures
        signed_bits(value, count).len() == count,
        bits_value(signed_bits(value, count)) == if value < 0 {
            value + pow2(count)
        } else {
            value
        },
        signed_value(bits) == if bits[0] {
            bits_value(bits) - pow2(bits.len())
        } else {
            bits_value(bits) as int
        },
        signed_value(signed_bits(value, count)) == value,
{
    lemma_signed_bits_len(value, count);
    lemma_signed_bits_value(value, count);
    lemma_pow2_unfold(count);
    lemma_pow2_pos(count);
    lemma_unsigned_bits_value(
        if value < 0 {
            value + pow2(count)
        } else {
            value
        },
        count,
    );
}

/// A number in unary is as many zeros as it counts, and a one.
pub proof fn law_unary_numbers_are_counted_in_zeros(bits: Seq<bool>)
    ensures
        match read_unary(bits) {
            Some((count, rest)) => {
                &&& count < bits.len()
                &&& bits == unary_bits(count) + rest
                &&& forall|i: int| 0 <= i < count ==> !#[trigger] bits[i]
                &&& bits[count as int]
                &&& rest == bits.skip(count as int + 1)
            },
            None => forall|i: int| 0 <= i < bits.len() ==> !#[trigger] bits[i],
        },
    decreases bits.len(),
{
    if bits.len() > 0 {
        let tail = bits.skip(1);
        if bits[0] {
            assert(bits == unary_bits(0) + tail);
        } else {
            law_unary_numbers_are_counted_in_zeros(tail);
            match read_unary(tail) {
                Some((count, rest)) => {
                    assert forall|i: int| 0 <= i < count + 1 implies !#[trigger] bits[i] by {
                        if i > 0 {
                            assert(tail[i - 1] == bits[i]);
                        }
                    }
                    assert(tail[count as int] == bits[count as int + 1]);
                    assert(rest == bits.skip(count as int + 2));
                    assert(bits == unary_bits(count + 1) + rest);
                },
                None => {
                    assert forall|i: int| 0 <= i < bits.len() implies !#[trigger] bits[i] by {
                        if i > 0 {
                            assert(tail[i - 1] == bits[i]);
                        }
                    }
                },
            }
        }
    }
}

/// A residual is written as its folded number: what is above the parameter in unary, and as
/// many low bits as the parameter says.
pub proof fn law_rice_codes_split_folded_numbers(residual: int, parameter: nat)
    ensures
        ({
            let code = rice_code(residual, parameter);
            let high = folded(residual) / pow2(parameter);
            &&& code.len() == high + 1 + parameter
            &&& forall|i: int| 0 <= i < high ==> !#[trigger] code[i]
            &&& code[high as int]
            &&& high * pow2(parameter) + bits_value(code.skip(high as int + 1)) == folded(residual)
        }),
{
    let code = rice_code(residual, parameter);
    lemma_pow2_pos(parameter);
    let value = folded(residual);
    let high = value / pow2(parameter);
    let low = value % pow2(parameter);
    lemma_fundamental_div_mod(value as int, pow2(parameter) as int);
    lemma_unsigned_bits_len(low as int, parameter);
    lemma_unsigned_bits_value(low as int, parameter);
    assert(high * pow2(parameter) == pow2(parameter) * high) by (nonlinear_arith);
    assert(high >= 0) by (nonlinear_arith)
        requires
            value == pow2(parameter) * high + low,
            0 <= low < pow2(parameter),
            value >= 0,
    ;
    assert(code.skip(high as int + 1) == unsigned_bits(low as int, parameter));
}

/// The residual that is read from a code is the one whose folded number the code holds.
pub proof fn law_residuals_are_read_from_folded_numbers(bits: Seq<bool>, parameter: nat)
    ensures
        read_rice(bits, parameter) matches Some((residual, rest)) ==> {
            let high = read_unary(bits).unwrap().0;
            let low = bits.subrange(high as int + 1, (high + 1 + parameter) as int);
            &&& high + 1 + parameter <= bits.len()
            &&& folded(residual) == high * pow2(parameter) + bits_value(low)
            &&& rest == bits.skip((high + 1 + parameter) as int)
        },
{
    if read_rice(bits, parameter) is Some {
        law_unary_numbers_are_counted_in_zeros(bits);
        let (high, behind) = read_unary(bits).unwrap();
        assert(behind.take(parameter as int) == bits.subrange(
            high as int + 1,
            (high + 1 + parameter) as int,
        ));
        assert(behind.skip(parameter as int) == bits.skip((high + 1 + parameter) as int));
        let value = high * pow2(parameter) + bits_value(behind.take(parameter as int));
        crate::rice::law_fold_is_invertible(0, value);
    }
}

/// The code of a subframe's kind: 0 for one value, 1 for the samples themselves, 8 and the
/// order for a fixed predictor, and 31 and the order for a linear one.
pub open spec fn kind_code(subframe: SubframeView) -> int {
    match subframe {
        SubframeView::Constant(_) => 0,
        SubframeView::Verbatim(_) => 1,
        SubframeView::Fixed { order, .. } => 8 + order,
        SubframeView::Lpc { order, .. } => 31 + order,
    }
}

/// A subframe opens with a zero, six bits that say its kind, and a zero, which says that no low
/// bits were left out; all samples that it stores as they are have the width of its channel.
pub proof fn law_subframes_say_their_kind(subframe: SubframeView, bits_per_sample: nat)
    requires
        0 <= kind_code(subframe) < 64,
    ensures
        ({
            let bits = subframe_bits(subframe, bits_per_sample);
            &&& bits.len() >= 8
            &&& !bits[0] && !bits[7]
            &&& bits_value(bits.subrange(1, 7)) == kind_code(subframe)
            &&& match subframe {
                SubframeView::Constant(sample) => bits.skip(8) == signed_bits(
                    sample as int,
                    bits_per_sample,
                ),
                SubframeView::Verbatim(samples) => bits.skip(8) == sample_bits(
                    samples,
                    bits_per_sample,
                ),
                SubframeView::Fixed { warmup, residual, .. } => {
                    let end = 8 + warmup.len() * bits_per_sample;
                    &&& bits.subrange(8, end as int) == sample_bits(warmup, bits_per_sample)
                    &&& bits.skip(end as int) == encoding_bits(residual)
                },
                SubframeView::Lpc { warmup, .. } => {
                    let end = 8 + warmup.len() * bits_per_sample;
                    bits.subrange(8, end as int) == sample_bits(warmup, bits_per_sample)
                },
            }
        }),
{
    let code = kind_code(subframe);
    let bits = subframe_bits(subframe, bits_per_sample);
    lemma2_to64();
    lemma_unsigned_bits_len(code, 6);
    lemma_unsigned_bits_value(code, 6);
    let opening = header_bits(code);
    assert(opening.len() == 8);
    assert(opening.subrange(1, 7) == unsigned_bits(code, 6));
    match subframe {
        SubframeView::Constant(sample) => {
            assert(bits == opening + signed_bits(sample as int, bits_per_sample));
            assert(bits.skip(8) == signed_bits(sample as int, bits_per_sample));
        },
        SubframeView::Verbatim(samples) => {
            assert(bits.skip(8) == sample_bits(samples, bits_per_sample));
        },
        SubframeView::Fixed { warmup, residual, .. } => {
            lemma_sample_bits_len(warmup, bits_per_sample);
            let end = 8 + warmup.len() * bits_per_sample;
            assert(bits.subrange(8, end as int) == sample_bits(warmup, bits_per_sample));
            assert(bits.skip(end as int) == encoding_bits(residual));
        },
        SubframeView::Lpc { warmup, .. } => {
            lemma_sample_bits_len(warmup, bits_per_sample);
            let end = 8 + warmup.len() * bits_per_sample;
            assert(bits.subrange(8, end as int) == sample_bits(warmup, bits_per_sample));
        },
    }
    assert(bits.subrange(1, 7) == opening.subrange(1, 7));
    assert(bits[0] == opening[0] && bits[7] == opening[7]);
}

/// A subframe is read as the kind that its bits say: they open with a zero, and its six bits
/// are the code of its kind, unless low bits were left out.
pub proof fn law_subframes_are_read_as_their_kind(
    bits: Seq<bool>,
    bits_per_sample: nat,
    block_size: nat,
)
    ensures
        read_subframe(bits, bits_per_sample, block_size) matches Some((subframe, rest)) ==> {
            let code = bits_value(bits.subrange(1, 7));
            &&& bits.len() >= 8
            &&& !bits[0]
            &&& code <= 1 || 8 <= code <= 12 || 32 <= code < 64
            &&& !bits[7] ==> kind_code(subframe) == code
            &&& bits[7] ==> subframe is Verbatim
        },
{
    if read_subframe(bits, bits_per_sample, block_size) is Some {
        reveal(read_subframe);
        lemma2_to64();
        let first = bits.take(1);
        let second = bits.skip(1);
        let third = second.skip(6);
        assert(second.take(6) == bits.subrange(1, 7));
        law_bit_strings_are_numbers(bits.subrange(1, 7));
        lemma_single_bit(first);
        lemma_single_bit(third.take(1));
        assert(third.take(1)[0] == bits[7]);
        assert(first[0] == bits[0]);
    }
}

proof fn lemma_single_bit(bits: Seq<bool>)
    requires
        bits.len() == 1,
    ensures
        bits_value(bits) == if bits[0] {
            1int
        } else {
            0
        },
{
    reveal_with_fuel(bits_value, 2);
}

/// Where low bits of the samples were left out, there were as many as the zeros count and one
/// more, and they come back as zeros.
pub proof fn law_left_out_bits_come_back_as_zeros(
    bits: Seq<bool>,
    code: nat,
    bits_per_sample: nat,
    block_size: nat,
    index: int,
)
    ensures
        read_wasted(bits, code, bits_per_sample, block_size) matches Some((subframe, rest)) ==> {
            let left_out = read_unary(bits).unwrap().0 + 1;
            &&& left_out < bits_per_sample
            &&& subframe matches SubframeView::Verbatim(samples) && (0 <= index < samples.len()
                ==> samples[index] as int % (pow2(left_out) as int) == 0)
        },
{
    if let Some((subframe, rest)) = read_wasted(bits, code, bits_per_sample, block_size) {
        let left_out = read_unary(bits).unwrap().0 + 1;
        lemma_pow2_pos(left_out);
        let inner = crate::reading::read_coded(
            read_unary(bits).unwrap().1,
            code,
            (bits_per_sample - left_out) as nat,
            block_size,
        ).unwrap().0;
        let signal = crate::lossless::subframe_signal(inner, block_size);
        if let SubframeView::Verbatim(samples) = subframe {
            if 0 <= index < samples.len() {
                assert(samples[index] == signal[index] * pow2(left_out));
                vstd::arithmetic::div_mod::lemma_mod_multiples_basic(
                    signal[index],
                    pow2(left_out) as int,
                );
            }
        }
    }
}

/// The first four bytes of a frame say its codes: fourteen bits to find the frame by, a zero,
/// whether blocks have sizes of their own, four bits each for the size, the rate and the
/// channels, three for the width, and a zero. Codes without a meaning are not taken.
pub proof fn law_frame_codes_have_their_places(bits: Seq<bool>, codes: HeaderCodes)
    requires
        bits.len() == 32,
    ensures
        read_codes(bits) == Some(codes) <==> {
            &&& bits_value(bits.subrange(0, 14)) == 0x3ffe
            &&& !bits[14]
            &&& codes.variable == bits[15]
            &&& codes.block_size == bits_value(bits.subrange(16, 20))
            &&& codes.sample_rate == bits_value(bits.subrange(20, 24))
            &&& codes.assignment == bits_value(bits.subrange(24, 28))
            &&& codes.bit_depth == bits_value(bits.subrange(28, 31))
            &&& !bits[31]
            &&& codes.block_size != 0
            &&& codes.sample_rate != 15
            &&& codes.assignment <= 10
            &&& codes.bit_depth != 3
        },
{
    lemma2_to64();
    assert(bits.take(14) == bits.subrange(0, 14));
    let a = bits.skip(14);
    assert(a.take(2) == bits.subrange(14, 16));
    lemma_two_bits(bits.subrange(14, 16));
    let b = a.skip(2);
    assert(b.take(4) == bits.subrange(16, 20));
    let c = b.skip(4);
    assert(c.take(4) == bits.subrange(20, 24));
    let d = c.skip(4);
    assert(d.take(4) == bits.subrange(24, 28));
    let e = d.skip(4);
    assert(e.take(3) == bits.subrange(28, 31));
    let f = e.skip(3);
    assert(f.take(1) == bits.subrange(31, 32));
    lemma_single_bit(bits.subrange(31, 32));
    law_bit_strings_are_numbers(bits.subrange(16, 20));
    law_bit_strings_are_numbers(bits.subrange(20, 24));
    law_bit_strings_are_numbers(bits.subrange(24, 28));
    law_bit_strings_are_numbers(bits.subrange(28, 31));
}

proof fn lemma_two_bits(bits: Seq<bool>)
    requires
        bits.len() == 2,
    ensures
        bits_value(bits) == (if bits[0] {
            2int
        } else {
            0
        }) + (if bits[1] {
            1int
        } else {
            0
        }),
{
    reveal_with_fuel(bits_value, 3);
}

/// The residuals of a block are split evenly: all parts cover as many samples, the first of
/// them with those that start the prediction, and together they cover the block.
pub proof fn law_parts_of_a_block_are_even(
    block_size: nat,
    predictor_order: nat,
    partition_order: nat,
    index: nat,
)
    requires
        is_valid_partition_order(block_size, predictor_order, partition_order),
        0 < index < pow2(partition_order),
    ensures
        partition_len(block_size, predictor_order, partition_order, 0) + predictor_order
            == partition_len(block_size, predictor_order, partition_order, index),
        partition_len(block_size, predictor_order, partition_order, index) * pow2(partition_order)
            == block_size,
{
    lemma_pow2_pos(partition_order);
    lemma_fundamental_div_mod(block_size as int, pow2(partition_order) as int);
    let span = block_size / pow2(partition_order);
    assert(span * pow2(partition_order) == pow2(partition_order) * span) by (nonlinear_arith);
}

/// Encoded residuals open with their method in two bits and the number of times that the block
/// was halved in four.
pub proof fn law_encodings_say_method_and_order(encoding: EncodingView)
    requires
        encoding.partition_order < 16,
    ensures
        ({
            let bits = encoding_bits(encoding);
            &&& bits.len() >= 6
            &&& !bits[0]
            &&& bits[1] <==> encoding.method == RiceMethod::FiveBit
            &&& bits_value(bits.subrange(2, 6)) == encoding.partition_order
        }),
{
    lemma2_to64();
    let bits = encoding_bits(encoding);
    let code = encoding.method.spec_code() as int;
    let order = encoding.partition_order as int;
    lemma_unsigned_bits_len(code, 2);
    lemma_unsigned_bits_len(order, 4);
    lemma_unsigned_bits_value(order, 4);
    law_numbers_are_written_from_the_highest_bit(code as nat, 2, 0);
    law_numbers_are_written_from_the_highest_bit(code as nat, 2, 1);
    assert(bits.subrange(2, 6) == unsigned_bits(order, 4));
    assert(bits[0] == unsigned_bits(code, 2)[0] && bits[1] == unsigned_bits(code, 2)[1]);
}

/// A frame is filled up to whole bytes, with less than a byte.
pub proof fn law_frames_are_filled_up_to_bytes(written: nat, index: int)
    ensures
        padding_bits(written).len() < 8,
        (written + padding_bits(written).len()) % 8 == 0,
        0 <= index < padding_bits(written).len() ==> !padding_bits(written)[index],
{
}

/// Residuals that are stored as they are stand behind the largest parameter of the method and
/// five bits for their width, and are zeros if it is zero.
pub proof fn law_escaped_residuals_say_their_width(
    bits: Seq<bool>,
    method: RiceMethod,
    count: nat,
)
    ensures
        read_partition(bits, method, count) matches Some((partition, rest)) ==> {
            let field: int = if method == RiceMethod::FourBit {
                4
            } else {
                5
            };
            let parameter = bits_value(bits.take(field));
            let width = bits_value(bits.subrange(field, field + 5));
            &&& bits.len() >= field
            &&& partition is Escape <==> parameter == pow2(field as nat) - 1
            &&& partition matches PartitionView::Rice { parameter: found, .. } ==> found
                == parameter
            &&& partition matches PartitionView::Escape { bits: found, residuals } ==> {
                &&& found == width
                &&& width == 0 ==> residuals == Seq::new(count, |i: int| 0i32)
            }
        },
{
    lemma2_to64();
    if read_partition(bits, method, count) is Some {
        let field = method.spec_parameter_bits() as int;
        let behind = bits.skip(field);
        law_bit_strings_are_numbers(bits.take(field));
        assert(behind.len() >= 5 ==> behind.take(5) == bits.subrange(field, field + 5));
        if behind.len() >= 5 {
            law_bit_strings_are_numbers(behind.take(5));
        }
    }
}

/// The coefficients of a linear predictor fit in its precision of 15 bits, on both sides of
/// zero alike, and there are 32 of them at most.
pub proof fn law_coefficients_fit_their_precision(predictor: LpcView, order: nat, index: int)
    requires
        predictor.is_valid(order),
    ensures
        predictor.precision == 15,
        predictor.shift < 16,
        order <= 32,
        predictor.coefficients.len() == order,
        0 <= index < order ==> fits_signed(
            predictor.coefficients[index] as int,
            predictor.precision as nat,
        ) && fits_signed(-predictor.coefficients[index], predictor.precision as nat),
{
    lemma2_to64();
}

/// A predictor whose coefficients fit in 15 bits on both sides of zero can be used.
pub proof fn law_fitting_coefficients_can_be_used(predictor: LpcView)
    requires
        predictor.precision == 15,
        predictor.shift <= 15,
        predictor.coefficients.len() <= 32,
        forall|i: int|
            0 <= i < predictor.coefficients.len() ==> fits_signed(
                #[trigger] predictor.coefficients[i] as int,
                15,
            ) && fits_signed(-predictor.coefficients[i], 15),
    ensures
        predictor.is_valid(predictor.coefficients.len()),
{
    lemma2_to64();
}

} // verus!
