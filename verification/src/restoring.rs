//! Restoring signals and samples from coded frames.

use vstd::prelude::*;

use crate::frame_header::ChannelAssignment;
use crate::lossless::{stereo_pair, subframe_signal};
use crate::prediction::{fixed_prediction, ints, restored, shifted_down, weighted_sum, PredictorView, MAX_FLAC_LPC_ORDER};
use crate::rice::{joined_residuals, partition_residuals, partition_views, ResidualPartition};
use crate::subframe::{AnalyzedSubframe, SubframeView};

verus! {

/// A number that a sample can hold.
pub open spec fn is_sample(value: int) -> bool {
    i32::MIN <= value <= i32::MAX
}

/// A signal as samples, if they can hold it.
pub open spec fn narrow(signal: Seq<int>) -> Option<Seq<i32>> {
    if forall|i: int| 0 <= i < signal.len() ==> is_sample(#[trigger] signal[i]) {
        Some(signal.map_values(|value: int| value as i32))
    } else {
        None
    }
}

/// Samples are what they are narrowed to.
pub proof fn lemma_narrow_samples(samples: Seq<i32>)
    ensures
        narrow(ints(samples)) == Some(samples),
{
    let signal = ints(samples);
    assert(signal.map_values(|value: int| value as i32) == samples);
}

/// What comes later does not change what was restored.
proof fn lemma_restored_prefix(
    warmup: Seq<int>,
    residuals: Seq<i32>,
    predictor: PredictorView,
    count: nat,
)
    requires
        count <= residuals.len(),
    ensures
        restored(warmup, residuals, predictor).len() == warmup.len() + residuals.len(),
        restored(warmup, residuals.take(count as int), predictor) == restored(
            warmup,
            residuals,
            predictor,
        ).take((warmup.len() + count) as int),
    decreases residuals.len(),
{
    let all = restored(warmup, residuals, predictor);
    if count == residuals.len() {
        assert(residuals.take(count as int) == residuals);
        if residuals.len() > 0 {
            lemma_restored_prefix(warmup, residuals.drop_last(), predictor, (count - 1) as nat);
        }
        assert(all.take((warmup.len() + count) as int) == all);
    } else {
        lemma_restored_prefix(warmup, residuals.drop_last(), predictor, count);
        assert(residuals.drop_last().take(count as int) == residuals.take(count as int));
        let earlier = restored(warmup, residuals.drop_last(), predictor);
        assert(all.take((warmup.len() + count) as int) == earlier.take(
            (warmup.len() + count) as int,
        ));
    }
}

/// One more restored sample.
proof fn lemma_one_more(
    warmup: Seq<int>,
    residuals: Seq<i32>,
    predictor: PredictorView,
    count: nat,
)
    requires
        count < residuals.len(),
    ensures
        ({
            let before = restored(warmup, residuals.take(count as int), predictor);
            let next = residuals[count as int] + predictor.prediction(before, before.len() as int);
            &&& before.len() == warmup.len() + count
            &&& restored(warmup, residuals.take(count as int + 1), predictor) == before.push(next)
            &&& restored(warmup, residuals, predictor)[(warmup.len() + count) as int] == next
            &&& restored(warmup, residuals, predictor).len() == warmup.len() + residuals.len()
        }),
{
    lemma_restored_prefix(warmup, residuals, predictor, count);
    lemma_restored_prefix(warmup, residuals, predictor, count + 1);
    lemma_restored_prefix(warmup, residuals.take(count as int), predictor, count);
    assert(residuals.take(count as int + 1).drop_last() == residuals.take(count as int));
    let all = restored(warmup, residuals, predictor);
    let more = restored(warmup, residuals.take(count as int + 1), predictor);
    assert(more == all.take((warmup.len() + count + 1) as int));
    assert(more.last() == all[(warmup.len() + count) as int]);
}

/// The polynomial prediction of the next sample.
fn predict_fixed(samples: &[i32], order: u8) -> (prediction: i64)
    requires
        order <= 4,
        order <= samples@.len(),
    ensures
        prediction == fixed_prediction(ints(samples@), samples@.len() as int, order as nat),
        -0x10_0000_0000 <= prediction <= 0x10_0000_0000,
{
    let index: usize = samples.len();
    if order == 0 {
        0
    } else if order == 1 {
        samples[index - 1] as i64
    } else if order == 2 {
        2 * samples[index - 1] as i64 - samples[index - 2] as i64
    } else if order == 3 {
        3 * samples[index - 1] as i64 - 3 * samples[index - 2] as i64 + samples[index - 3] as i64
    } else {
        4 * samples[index - 1] as i64 - 6 * samples[index - 2] as i64 + 4 * samples[index
            - 3] as i64 - samples[index - 4] as i64
    }
}

/// The weighted prediction of the next sample.
fn predict_weighted(samples: &[i32], coefficients: &[i16], shift: u8) -> (prediction: i64)
    requires
        coefficients@.len() <= MAX_FLAC_LPC_ORDER,
        coefficients@.len() <= samples@.len(),
        shift < 62,
    ensures
        prediction == (PredictorView::Lpc {
            coefficients: coefficients@,
            shift: shift as nat,
        }).prediction(ints(samples@), samples@.len() as int),
        -0x4000_0000_0000_0000 <= prediction <= 0x4000_0000_0000_0000,
{
    let index: usize = samples.len();
    let order: usize = coefficients.len();
    let mut sum: i64 = 0;
    let mut position: usize = 0;
    while position < order
        invariant
            position <= order,
            order == coefficients@.len(),
            order <= MAX_FLAC_LPC_ORDER,
            order <= index,
            index == samples@.len(),
            sum == weighted_sum(ints(samples@), index as int, coefficients@, position as nat),
            -0x4000_0000_0000 * position <= sum <= 0x4000_0000_0000 * position,
        decreases order - position,
    {
        let coefficient: i64 = coefficients[position] as i64;
        let sample: i64 = samples[index - position - 1] as i64;
        assert(-0x4000_0000_0000 <= coefficient * sample <= 0x4000_0000_0000) by (nonlinear_arith)
            requires
                -0x8000 <= coefficient <= 0x7fff,
                -0x8000_0000 <= sample <= 0x7fff_ffff,
        ;
        sum = sum + coefficient * sample;
        position = position + 1;
    }
    shifted_down(sum, shift)
}

/// A predictor that can be run.
enum Predictor<'a> {
    Fixed(u8),
    Weighted(&'a [i16], u8),
}

impl<'a> Predictor<'a> {
    spec fn model(self) -> PredictorView {
        match self {
            Predictor::Fixed(order) => PredictorView::Fixed { order: order as nat },
            Predictor::Weighted(coefficients, shift) => PredictorView::Lpc {
                coefficients: coefficients@,
                shift: shift as nat,
            },
        }
    }

    spec fn is_valid(self) -> bool {
        match self {
            Predictor::Fixed(order) => order <= 4,
            Predictor::Weighted(coefficients, shift) => coefficients@.len() <= MAX_FLAC_LPC_ORDER
                && shift < 62,
        }
    }

    fn predict(&self, samples: &[i32]) -> (prediction: i64)
        requires
            self.is_valid(),
            self.model().order() <= samples@.len(),
        ensures
            prediction == self.model().prediction(ints(samples@), samples@.len() as int),
            -0x4000_0000_0000_0000 <= prediction <= 0x4000_0000_0000_0000,
    {
        match self {
            Predictor::Fixed(order) => predict_fixed(samples, *order),
            Predictor::Weighted(coefficients, shift) => predict_weighted(
                samples,
                coefficients,
                *shift,
            ),
        }
    }
}

/// The signal that warm-up samples and a residual stand for, if samples can hold it.
fn restore(warmup: &[i32], residuals: &[i32], predictor: &Predictor<'_>) -> (signal: Option<
    Vec<i32>,
>)
    requires
        predictor.is_valid(),
        predictor.model().order() <= warmup@.len(),
    ensures
        match narrow(restored(ints(warmup@), residuals@, predictor.model())) {
            Some(expected) => signal matches Some(found) && found@ == expected,
            None => signal is None,
        },
{
    let ghost model = predictor.model();
    let ghost start = ints(warmup@);
    let mut signal: Vec<i32> = vstd::slice::slice_to_vec(warmup);
    let mut index: usize = 0;
    assert(residuals@.take(0) == Seq::<i32>::empty());
    while index < residuals.len()
        invariant
            predictor.is_valid(),
            model == predictor.model(),
            model.order() <= warmup@.len(),
            start == ints(warmup@),
            index <= residuals@.len(),
            signal@.len() == warmup@.len() + index,
            ints(signal@) == restored(start, residuals@.take(index as int), model),
        decreases residuals.len() - index,
    {
        let prediction: i64 = predictor.predict(signal.as_slice());
        let value: i64 = prediction + residuals[index] as i64;
        proof {
            lemma_one_more(start, residuals@, model, index as nat);
        }
        if value < -0x8000_0000 || value > 0x7fff_ffff {
            assert(!is_sample(restored(start, residuals@, model)[warmup@.len() + index]));
            return None;
        }
        let ghost before = signal@;
        signal.push(value as i32);
        assert(ints(signal@) == ints(before).push(value as int));
        index = index + 1;
    }
    assert(residuals@.take(residuals@.len() as int) == residuals@);
    proof {
        lemma_narrow_samples(signal@);
    }
    Some(signal)
}

/// The residuals of all partitions.
fn join_residuals(partitions: &[ResidualPartition]) -> (residuals: Vec<i32>)
    ensures
        residuals@ == joined_residuals(partition_views(partitions@)),
{
    let ghost views = partition_views(partitions@);
    let mut residuals: Vec<i32> = Vec::new();
    let mut index: usize = 0;
    assert(views.take(0) == Seq::<crate::rice::PartitionView>::empty());
    while index < partitions.len()
        invariant
            index <= partitions@.len(),
            views == partition_views(partitions@),
            residuals@ == joined_residuals(views.take(index as int)),
        decreases partitions.len() - index,
    {
        let part = match &partitions[index] {
            ResidualPartition::Rice { residuals: part, .. } => part,
            ResidualPartition::Escape { residuals: part, .. } => part,
        };
        let ghost before = residuals@;
        let mut inner: usize = 0;
        while inner < part.len()
            invariant
                inner <= part@.len(),
                residuals@ == before + part@.take(inner as int),
            decreases part.len() - inner,
        {
            residuals.push(part[inner]);
            inner = inner + 1;
            assert(residuals@ == before + part@.take(inner as int));
        }
        proof {
            assert(part@.take(part@.len() as int) == part@);
            assert(views.take(index + 1).drop_last() == views.take(index as int));
            assert(views.take(index + 1).last() == partitions@[index as int]@);
            assert(partition_residuals(views.take(index + 1).last()) == part@);
        }
        index = index + 1;
    }
    assert(views.take(partitions@.len() as int) == views);
    residuals
}

/// A subframe that was read has the parts that its kind asks for.
pub open spec fn is_restorable(subframe: SubframeView, block_size: nat) -> bool {
    match subframe {
        SubframeView::Constant(_) => true,
        SubframeView::Verbatim(samples) => samples.len() == block_size,
        SubframeView::Fixed { order, warmup, residual } => {
            &&& order <= 4
            &&& warmup.len() == order
            &&& joined_residuals(residual.partitions).len() + order == block_size
        },
        SubframeView::Lpc { order, warmup, shift, coefficients, residual, .. } => {
            &&& order <= MAX_FLAC_LPC_ORDER
            &&& warmup.len() == order
            &&& coefficients.len() == order
            &&& shift <= 31
            &&& joined_residuals(residual.partitions).len() + order == block_size
        },
    }
}

/// The signal of a subframe fills its block.
pub proof fn lemma_signal_len(subframe: SubframeView, block_size: nat)
    requires
        is_restorable(subframe, block_size),
    ensures
        subframe_signal(subframe, block_size).len() == block_size,
{
    match subframe {
        SubframeView::Fixed { order, warmup, residual } => {
            let residuals = joined_residuals(residual.partitions);
            lemma_restored_prefix(
                ints(warmup),
                residuals,
                PredictorView::Fixed { order: order as nat },
                residuals.len(),
            );
        },
        SubframeView::Lpc { warmup, shift, coefficients, residual, .. } => {
            let residuals = joined_residuals(residual.partitions);
            lemma_restored_prefix(
                ints(warmup),
                residuals,
                PredictorView::Lpc { coefficients, shift: shift as nat },
                residuals.len(),
            );
        },
        _ => {},
    }
}

/// The signal of a subframe, if samples can hold it.
pub fn restore_signal(subframe: &AnalyzedSubframe, block_size: usize) -> (signal: Option<Vec<i32>>)
    requires
        is_restorable(subframe@, block_size as nat),
    ensures
        match narrow(subframe_signal(subframe@, block_size as nat)) {
            Some(expected) => signal matches Some(found) && found@ == expected,
            None => signal is None,
        },
{
    match subframe {
        AnalyzedSubframe::Constant(sample) => {
            let mut signal: Vec<i32> = Vec::new();
            let mut index: usize = 0;
            while index < block_size
                invariant
                    index <= block_size,
                    signal@ == Seq::new(index as nat, |i: int| *sample),
                decreases block_size - index,
            {
                signal.push(*sample);
                index = index + 1;
                assert(signal@ == Seq::new(index as nat, |i: int| *sample));
            }
            proof {
                lemma_narrow_samples(signal@);
                assert(ints(signal@) == subframe_signal(subframe@, block_size as nat));
            }
            Some(signal)
        },
        AnalyzedSubframe::Verbatim(samples) => {
            proof {
                lemma_narrow_samples(samples@);
            }
            Some(vstd::slice::slice_to_vec(samples.as_slice()))
        },
        AnalyzedSubframe::Fixed { order, warmup, residual } => {
            let residuals = join_residuals(residual.partitions.as_slice());
            restore(warmup.as_slice(), residuals.as_slice(), &Predictor::Fixed(*order))
        },
        AnalyzedSubframe::Lpc { warmup, shift, coefficients, residual, .. } => {
            let residuals = join_residuals(residual.partitions.as_slice());
            restore(
                warmup.as_slice(),
                residuals.as_slice(),
                &Predictor::Weighted(coefficients.as_slice(), *shift),
            )
        },
    }
}

/// Half of an even number.
fn half(value: i64) -> (quotient: i64)
    requires
        -0x8_0000_0000 <= value <= 0x8_0000_0000,
        value as int % 2 == 0,
    ensures
        quotient == value as int / 2,
{
    if value >= 0 {
        value / 2
    } else {
        -((-value) / 2)
    }
}

/// The left and right samples that two stored values stand for.
#[verifier::rlimit(60)]
#[verifier::spinoff_prover]
pub fn restore_pair(assignment: ChannelAssignment, first: i32, second: i32) -> (pair: (i64, i64))
    ensures
        pair.0 == stereo_pair(assignment, first as int, second as int).0,
        pair.1 == stereo_pair(assignment, first as int, second as int).1,
{
    let left: i64 = first as i64;
    let right: i64 = second as i64;
    match assignment {
        ChannelAssignment::LeftSide => (left, left - right),
        ChannelAssignment::SideRight => (left + right, right),
        ChannelAssignment::MidSide => {
            let even = half_is_exact(right);
            let sum: i64 = if even {
                2 * left
            } else {
                2 * left + 1
            };
            (half(sum + right), half(sum - right))
        },
        _ => (left, right),
    }
}

/// Whether a number is even.
fn half_is_exact(value: i64) -> (even: bool)
    requires
        -0x8000_0000 <= value <= 0x7fff_ffff,
    ensures
        even == (value as int % 2 == 0),
{
    if value >= 0 {
        value % 2 == 0
    } else {
        (-value) % 2 == 0
    }
}

} // verus!
