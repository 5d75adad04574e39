//! Subframes: the ways of coding one channel of a frame.

use vstd::prelude::*;

use crate::bit_writer::{written_bits, FrameBitWriter};
use crate::bits::{fits_signed, fits_unsigned, lemma_signed_bits_len, lemma_unsigned_bits_len, signed_bits, unsigned_bits};
use crate::error::{ErrorView, IoErrorKind, Result};
use crate::prediction::MAX_FLAC_LPC_ORDER;
use crate::rice::{all_fit, encoding_bits, encoding_cost, encoding_is_writable, law_encoding_cost_is_bit_count, lemma_sample_bits_len, sample_bits, write_residual, write_samples, wrote, EncodingView, ResidualEncoding};

verus! {

/// The highest predictor order that the streamable subset of the format allows
/// up to 48 kHz.
pub const MAX_STREAMABLE_LPC_ORDER_AT_48KHZ: u8 = 12;

/// The precision of quantised predictor coefficients.
pub const LPC_PRECISION: u8 = 15;

/// The bits of a subframe header.
pub const SUBFRAME_HEADER_BITS: u64 = 8;

/// The bits that any coded residual takes.
pub const MIN_RESIDUAL_ENCODING_BITS: u64 = 10;

/// A weighted-sum predictor with integer coefficients.
#[derive(Debug, Clone)]
pub struct QuantizedLpc {
    pub precision: u8,
    pub shift: u8,
    pub coefficients: Vec<i16>,
}

/// A [`QuantizedLpc`] over a mathematical sequence.
pub struct LpcView {
    pub precision: u8,
    pub shift: u8,
    pub coefficients: Seq<i16>,
}

impl LpcView {
    /// The predictor has `order` coefficients that can be written to a subframe.
    pub open spec fn is_valid(self, order: nat) -> bool {
        &&& self.precision == LPC_PRECISION
        &&& self.shift <= 15
        &&& self.coefficients.len() == order
        &&& order <= MAX_FLAC_LPC_ORDER
        &&& forall|i: int|
            0 <= i < self.coefficients.len() ==> -16383 <= #[trigger] self.coefficients[i] <= 16383
    }
}

impl View for QuantizedLpc {
    type V = LpcView;

    open spec fn view(&self) -> LpcView {
        LpcView {
            precision: self.precision,
            shift: self.shift,
            coefficients: self.coefficients@,
        }
    }
}

impl QuantizedLpc {
    /// A predictor of at most 32 coefficients, if each fits in 15 bits with a sign
    /// and the shift in five.
    pub fn new(shift: u8, coefficients: Vec<i16>) -> (predictor: Option<Self>)
        ensures
            predictor is Some <==> (LpcView {
                precision: LPC_PRECISION,
                shift,
                coefficients: coefficients@,
            }).is_valid(coefficients@.len()),
            predictor matches Some(valid) ==> valid@ == (LpcView {
                precision: LPC_PRECISION,
                shift,
                coefficients: coefficients@,
            }),
    {
        if shift > 15 || coefficients.len() > MAX_FLAC_LPC_ORDER as usize {
            return None;
        }
        let mut index: usize = 0;
        while index < coefficients.len()
            invariant
                index <= coefficients.len(),
                forall|i: int| 0 <= i < index ==> -16383 <= #[trigger] coefficients@[i] <= 16383,
            decreases coefficients.len() - index,
        {
            if coefficients[index] < -16383 || coefficients[index] > 16383 {
                assert(!(-16383 <= coefficients@[index as int] <= 16383));
                return None;
            }
            index = index + 1;
        }
        Some(QuantizedLpc { precision: LPC_PRECISION, shift, coefficients })
    }
}

/// The predictors that were estimated for a signal: the entry at `i` has order
/// `i + 1`, and is absent where its coefficients cannot be quantised. An empty
/// list stands for a signal without an estimate.
#[derive(Debug, Clone)]
pub struct LpcPredictors {
    pub by_order: Vec<Option<QuantizedLpc>>,
}

impl View for LpcPredictors {
    type V = Seq<Option<LpcView>>;

    open spec fn view(&self) -> Seq<Option<LpcView>> {
        self.by_order@.map_values(
            |entry: Option<QuantizedLpc>|
                match entry {
                    Some(predictor) => Some(predictor@),
                    None => None,
                },
        )
    }
}

/// Each predictor is valid for its order.
pub open spec fn predictors_are_valid(by_order: Seq<Option<LpcView>>) -> bool {
    forall|i: int|
        0 <= i < by_order.len() ==> (#[trigger] by_order[i] matches Some(predictor)
            ==> predictor.is_valid((i + 1) as nat))
}

/// The predictor of an order.
pub open spec fn predictor_of_order(by_order: Seq<Option<LpcView>>, order: nat) -> Option<LpcView> {
    if 1 <= order <= by_order.len() {
        by_order[order - 1]
    } else {
        None
    }
}

/// How a channel of a frame is coded.
#[derive(Debug, Clone)]
pub enum AnalyzedSubframe {
    Constant(i32),
    Verbatim(Vec<i32>),
    Fixed { order: u8, warmup: Vec<i32>, residual: ResidualEncoding },
    Lpc {
        order: u8,
        warmup: Vec<i32>,
        precision: u8,
        shift: u8,
        coefficients: Vec<i16>,
        residual: ResidualEncoding,
    },
}

/// An [`AnalyzedSubframe`] over mathematical sequences.
pub enum SubframeView {
    Constant(i32),
    Verbatim(Seq<i32>),
    Fixed { order: u8, warmup: Seq<i32>, residual: EncodingView },
    Lpc {
        order: u8,
        warmup: Seq<i32>,
        precision: u8,
        shift: u8,
        coefficients: Seq<i16>,
        residual: EncodingView,
    },
}

impl View for AnalyzedSubframe {
    type V = SubframeView;

    open spec fn view(&self) -> SubframeView {
        match self {
            AnalyzedSubframe::Constant(sample) => SubframeView::Constant(*sample),
            AnalyzedSubframe::Verbatim(samples) => SubframeView::Verbatim(samples@),
            AnalyzedSubframe::Fixed { order, warmup, residual } => SubframeView::Fixed {
                order: *order,
                warmup: warmup@,
                residual: residual@,
            },
            AnalyzedSubframe::Lpc {
                order,
                warmup,
                precision,
                shift,
                coefficients,
                residual,
            } => SubframeView::Lpc {
                order: *order,
                warmup: warmup@,
                precision: *precision,
                shift: *shift,
                coefficients: coefficients@,
                residual: residual@,
            },
        }
    }
}

/// Bits taken by a subframe.
pub open spec fn subframe_cost(subframe: SubframeView, bits_per_sample: nat) -> nat {
    match subframe {
        SubframeView::Constant(_) => 8 + bits_per_sample,
        SubframeView::Verbatim(samples) => 8 + samples.len() * bits_per_sample,
        SubframeView::Fixed { warmup, residual, .. } => 8 + warmup.len() * bits_per_sample
            + encoding_cost(residual),
        SubframeView::Lpc { order, warmup, precision, residual, .. } => 8 + warmup.len()
            * bits_per_sample + 4 + 5 + (precision as nat) * (order as nat) + encoding_cost(
            residual,
        ),
    }
}

/// Coefficients as samples.
pub open spec fn widened(coefficients: Seq<i16>) -> Seq<i32> {
    coefficients.map_values(|coefficient: i16| coefficient as i32)
}

/// A subframe header: a zero bit, the type in six bits, and a zero bit.
pub open spec fn header_bits(code: int) -> Seq<bool> {
    seq![false] + unsigned_bits(code, 6) + seq![false]
}

/// The bits of a subframe.
pub open spec fn subframe_bits(subframe: SubframeView, bits_per_sample: nat) -> Seq<bool> {
    match subframe {
        SubframeView::Constant(sample) => header_bits(0) + signed_bits(
            sample as int,
            bits_per_sample,
        ),
        SubframeView::Verbatim(samples) => header_bits(1) + sample_bits(samples, bits_per_sample),
        SubframeView::Fixed { order, warmup, residual } => header_bits(8 + order) + sample_bits(
            warmup,
            bits_per_sample,
        ) + encoding_bits(residual),
        SubframeView::Lpc { order, warmup, precision, shift, coefficients, residual } => header_bits(
            32 + (order - 1),
        ) + sample_bits(warmup, bits_per_sample) + unsigned_bits(precision - 1, 4) + signed_bits(
            shift as int,
            5,
        ) + sample_bits(widened(coefficients), precision as nat) + encoding_bits(residual),
    }
}

/// A run of samples can be written: there are none, or each fits in the width and
/// the width is no more than 32 bits.
pub open spec fn run_is_writable(samples: Seq<i32>, width: nat) -> bool {
    samples.len() == 0 || (width <= 32 && all_fit(samples, width))
}

/// Every field of a subframe fits where it is written.
pub open spec fn subframe_is_writable(subframe: SubframeView, bits_per_sample: nat) -> bool {
    match subframe {
        SubframeView::Constant(sample) => bits_per_sample <= 32 && fits_signed(
            sample as int,
            bits_per_sample,
        ),
        SubframeView::Verbatim(samples) => run_is_writable(samples, bits_per_sample),
        SubframeView::Fixed { order, warmup, residual } => {
            &&& fits_unsigned(8 + order, 6)
            &&& run_is_writable(warmup, bits_per_sample)
            &&& encoding_is_writable(residual)
        },
        SubframeView::Lpc { order, warmup, precision, shift, coefficients, residual } => {
            &&& fits_unsigned(32 + (order - 1), 6)
            &&& run_is_writable(warmup, bits_per_sample)
            &&& fits_unsigned(precision - 1, 4)
            &&& fits_signed(shift as int, 5)
            &&& run_is_writable(widened(coefficients), precision as nat)
            &&& encoding_is_writable(residual)
        },
    }
}

/// The type code of the subframe does not leave the range of a byte.
pub open spec fn subframe_is_codable(subframe: SubframeView) -> bool {
    match subframe {
        SubframeView::Constant(_) => true,
        SubframeView::Verbatim(_) => true,
        SubframeView::Fixed { order, .. } => order <= 247,
        SubframeView::Lpc { order, precision, .. } => 1 <= order <= 224 && precision >= 1,
    }
}

/// A subframe takes exactly the number of bits that its cost says.
pub proof fn law_subframe_cost_is_bit_count(subframe: SubframeView, bits_per_sample: nat)
    requires
        subframe matches SubframeView::Lpc { order, coefficients, .. } ==> coefficients.len()
            == order,
    ensures
        subframe_bits(subframe, bits_per_sample).len() == subframe_cost(subframe, bits_per_sample),
{
    match subframe {
        SubframeView::Constant(sample) => {
            lemma_unsigned_bits_len(0, 6);
            lemma_signed_bits_len(sample as int, bits_per_sample);
        },
        SubframeView::Verbatim(samples) => {
            lemma_unsigned_bits_len(1, 6);
            lemma_sample_bits_len(samples, bits_per_sample);
        },
        SubframeView::Fixed { order, warmup, residual } => {
            lemma_unsigned_bits_len(8 + order, 6);
            lemma_sample_bits_len(warmup, bits_per_sample);
            law_encoding_cost_is_bit_count(residual);
        },
        SubframeView::Lpc { order, warmup, precision, shift, coefficients, residual } => {
            lemma_unsigned_bits_len(32 + (order - 1), 6);
            lemma_sample_bits_len(warmup, bits_per_sample);
            lemma_unsigned_bits_len(precision - 1, 4);
            lemma_signed_bits_len(shift as int, 5);
            lemma_sample_bits_len(widened(coefficients), precision as nat);
            law_encoding_cost_is_bit_count(residual);
            assert(coefficients.len() * (precision as nat) == (precision as nat) * (order as nat))
                by (nonlinear_arith)
                requires
                    coefficients.len() == order,
            ;
        },
    }
}

impl AnalyzedSubframe {
    /// Bits taken by this subframe.
    pub fn bit_len(&self, bits_per_sample: u8) -> (bits: u64)
        requires
            subframe_cost(self@, bits_per_sample as nat) <= u64::MAX,
            forall|i: int|
                #![trigger self.residual_view().partitions[i]]
                0 <= i < self.residual_view().partitions.len() ==> (
                self.residual_view().partitions[i] is Rice
                    ==> self.residual_view().partitions[i]->parameter < 64),
        ensures
            bits == subframe_cost(self@, bits_per_sample as nat),
    {
        match self {
            AnalyzedSubframe::Constant(_) => SUBFRAME_HEADER_BITS + bits_per_sample as u64,
            AnalyzedSubframe::Verbatim(samples) => SUBFRAME_HEADER_BITS + samples.len() as u64
                * bits_per_sample as u64,
            AnalyzedSubframe::Fixed { warmup, residual, .. } => SUBFRAME_HEADER_BITS
                + warmup.len() as u64 * bits_per_sample as u64 + residual.bit_len(),
            AnalyzedSubframe::Lpc { order, warmup, precision, residual, .. } => {
                assert((*precision as nat) * (*order as nat) <= 255 * 255) by (nonlinear_arith)
                    requires
                        *precision <= 255,
                        *order <= 255,
                ;
                SUBFRAME_HEADER_BITS + warmup.len() as u64 * bits_per_sample as u64 + 4 + 5
                    + *precision as u64 * *order as u64 + residual.bit_len()
            },
        }
    }

    /// The coded residual, empty where the subframe has none.
    pub open spec fn residual_view(&self) -> EncodingView {
        match self@ {
            SubframeView::Fixed { residual, .. } => residual,
            SubframeView::Lpc { residual, .. } => residual,
            _ => EncodingView {
                method: crate::rice::RiceMethod::FourBit,
                partition_order: 0,
                partitions: Seq::empty(),
            },
        }
    }
}

/// Writes a subframe header.
fn write_header(writer: &mut FrameBitWriter, code: u8) -> (result: Result<()>)
    ensures
        result is Ok <==> fits_unsigned(code as int, 6),
        result is Ok ==> written_bits(*final(writer)) == written_bits(*old(writer)) + header_bits(
            code as int,
        ),
        result matches Err(error) ==> error@ == ErrorView::Io(IoErrorKind::InvalidInput),
{
    let ghost before = written_bits(*writer);
    match wrote(writer.write_bit(false)) {
        Ok(()) => {},
        Err(error) => return Err(error),
    }
    match wrote(writer.write_unsigned(6, code as u32)) {
        Ok(()) => {},
        Err(error) => return Err(error),
    }
    let result = wrote(writer.write_bit(false));
    assert(written_bits(*writer) == before + header_bits(code as int));
    result
}

/// Coefficients as samples.
fn widen(coefficients: &[i16]) -> (samples: Vec<i32>)
    ensures
        samples@ == widened(coefficients@),
{
    let mut samples: Vec<i32> = Vec::new();
    let mut index: usize = 0;
    while index < coefficients.len()
        invariant
            index <= coefficients.len(),
            samples@.len() == index,
            forall|i: int| 0 <= i < index ==> #[trigger] samples@[i] == coefficients@[i] as i32,
        decreases coefficients.len() - index,
    {
        samples.push(coefficients[index] as i32);
        index = index + 1;
    }
    assert(samples@ == widened(coefficients@));
    samples
}

/// Writes a subframe. It fails exactly where some field does not fit.
pub(crate) fn write_subframe(
    writer: &mut FrameBitWriter,
    subframe: &AnalyzedSubframe,
    bits_per_sample: u8,
) -> (result: Result<()>)
    requires
        subframe_is_codable(subframe@),
    ensures
        result is Ok <==> subframe_is_writable(subframe@, bits_per_sample as nat),
        result is Ok ==> written_bits(*final(writer)) == written_bits(*old(writer))
            + subframe_bits(subframe@, bits_per_sample as nat),
        result matches Err(error) ==> error@ == ErrorView::Io(IoErrorKind::InvalidInput),
{
    let ghost before = written_bits(*writer);
    proof {
        vstd::arithmetic::power2::lemma2_to64();
    }
    match subframe {
        AnalyzedSubframe::Constant(sample) => {
            match write_header(writer, 0) {
                Ok(()) => {},
                Err(error) => return Err(error),
            }
            let result = wrote(writer.write_signed(bits_per_sample as u32, *sample));
            assert(result is Ok ==> written_bits(*writer) == before + subframe_bits(
                subframe@,
                bits_per_sample as nat,
            ));
            result
        },
        AnalyzedSubframe::Verbatim(samples) => {
            match write_header(writer, 1) {
                Ok(()) => {},
                Err(error) => return Err(error),
            }
            let result = write_samples(writer, samples.as_slice(), bits_per_sample as u32);
            assert(result is Ok ==> written_bits(*writer) == before + subframe_bits(
                subframe@,
                bits_per_sample as nat,
            ));
            result
        },
        AnalyzedSubframe::Fixed { order, warmup, residual } => {
            match write_header(writer, 8 + *order) {
                Ok(()) => {},
                Err(error) => return Err(error),
            }
            match write_samples(writer, warmup.as_slice(), bits_per_sample as u32) {
                Ok(()) => {},
                Err(error) => return Err(error),
            }
            let result = write_residual(writer, residual);
            assert(result is Ok ==> written_bits(*writer) == before + subframe_bits(
                subframe@,
                bits_per_sample as nat,
            ));
            result
        },
        AnalyzedSubframe::Lpc { order, warmup, precision, shift, coefficients, residual } => {
            match write_header(writer, 32 + (*order - 1)) {
                Ok(()) => {},
                Err(error) => return Err(error),
            }
            match write_samples(writer, warmup.as_slice(), bits_per_sample as u32) {
                Ok(()) => {},
                Err(error) => return Err(error),
            }
            match wrote(writer.write_unsigned(4, (*precision - 1) as u32)) {
                Ok(()) => {},
                Err(error) => return Err(error),
            }
            match wrote(writer.write_signed(5, *shift as i32)) {
                Ok(()) => {},
                Err(error) => return Err(error),
            }
            let wide = widen(coefficients.as_slice());
            match write_samples(writer, wide.as_slice(), *precision as u32) {
                Ok(()) => {},
                Err(error) => return Err(error),
            }
            let result = write_residual(writer, residual);
            assert(result is Ok ==> written_bits(*writer) == before + subframe_bits(
                subframe@,
                bits_per_sample as nat,
            ));
            result
        },
    }
}

} // verus!
