//! Linear prediction: what is left of a signal once a predictor has spoken, and
//! how the signal comes back.

use vstd::arithmetic::power2::pow2;
use vstd::prelude::*;

use crate::bits::power_of_two;
use crate::residual::{is_encodable, residual_is_encodable};

verus! {

/// The largest predictor order of the format.
pub const MAX_FLAC_LPC_ORDER: u8 = 32;

/// Samples as mathematical integers.
pub open spec fn ints(samples: Seq<i32>) -> Seq<int> {
    samples.map_values(|sample: i32| sample as int)
}

/// A predictor: one of the fixed polynomials, or a weighted sum of earlier
/// samples.
pub enum PredictorView {
    Fixed { order: nat },
    Lpc { coefficients: Seq<i16>, shift: nat },
}

impl PredictorView {
    /// The number of samples that the predictor looks back.
    pub open spec fn order(self) -> nat {
        match self {
            PredictorView::Fixed { order } => order,
            PredictorView::Lpc { coefficients, .. } => coefficients.len(),
        }
    }

    /// The sample that the predictor expects at `index`.
    pub open spec fn prediction(self, samples: Seq<int>, index: int) -> int {
        match self {
            PredictorView::Fixed { order } => fixed_prediction(samples, index, order),
            PredictorView::Lpc { coefficients, shift } => weighted_sum(
                samples,
                index,
                coefficients,
                coefficients.len(),
            ) / (pow2(shift) as int),
        }
    }
}

/// The polynomial prediction from the last `order` samples.
pub open spec fn fixed_prediction(samples: Seq<int>, index: int, order: nat) -> int {
    if order == 0 {
        0
    } else if order == 1 {
        samples[index - 1]
    } else if order == 2 {
        2 * samples[index - 1] - samples[index - 2]
    } else if order == 3 {
        3 * samples[index - 1] - 3 * samples[index - 2] + samples[index - 3]
    } else {
        4 * samples[index - 1] - 6 * samples[index - 2] + 4 * samples[index - 3] - samples[index
            - 4]
    }
}

/// The sum of the last samples, weighted by the first `count` coefficients.
pub open spec fn weighted_sum(
    samples: Seq<int>,
    index: int,
    coefficients: Seq<i16>,
    count: nat,
) -> int
    decreases count,
{
    if count == 0 {
        0
    } else {
        weighted_sum(samples, index, coefficients, (count - 1) as nat) + coefficients[count - 1]
            * samples[index - count]
    }
}

/// What the predictor misses, from the first predicted sample on.
pub open spec fn prediction_errors(samples: Seq<int>, predictor: PredictorView) -> Seq<int> {
    Seq::new(
        if samples.len() >= predictor.order() {
            (samples.len() - predictor.order()) as nat
        } else {
            0
        },
        |i: int|
            samples[i + predictor.order()] - predictor.prediction(samples, i + predictor.order()),
    )
}

/// The residual of a signal, if each of its values can be coded.
pub open spec fn residuals_of(samples: Seq<i32>, predictor: PredictorView) -> Option<Seq<i32>> {
    let errors = prediction_errors(ints(samples), predictor);
    if forall|i: int| 0 <= i < errors.len() ==> is_encodable(#[trigger] errors[i]) {
        Some(errors.map_values(|error: int| error as i32))
    } else {
        None
    }
}

/// The signal that warm-up samples and a residual stand for.
pub open spec fn restored(warmup: Seq<int>, residuals: Seq<i32>, predictor: PredictorView) -> Seq<
    int,
>
    decreases residuals.len(),
{
    if residuals.len() == 0 {
        warmup
    } else {
        let earlier = restored(warmup, residuals.drop_last(), predictor);
        earlier.push(
            residuals.last() + predictor.prediction(earlier, earlier.len() as int),
        )
    }
}

proof fn lemma_weighted_sum_is_local(
    left: Seq<int>,
    right: Seq<int>,
    index: int,
    coefficients: Seq<i16>,
    count: nat,
)
    requires
        count <= coefficients.len(),
        coefficients.len() <= index <= left.len(),
        index <= right.len(),
        forall|i: int| 0 <= i < index ==> left[i] == right[i],
    ensures
        weighted_sum(left, index, coefficients, count) == weighted_sum(
            right,
            index,
            coefficients,
            count,
        ),
    decreases count,
{
    if count > 0 {
        lemma_weighted_sum_is_local(left, right, index, coefficients, (count - 1) as nat);
    }
}

/// A prediction depends only on the samples before it.
proof fn lemma_prediction_is_local(
    left: Seq<int>,
    right: Seq<int>,
    index: int,
    predictor: PredictorView,
)
    requires
        predictor matches PredictorView::Fixed { order } ==> order <= 4,
        predictor.order() <= index <= left.len(),
        index <= right.len(),
        forall|i: int| 0 <= i < index ==> left[i] == right[i],
    ensures
        predictor.prediction(left, index) == predictor.prediction(right, index),
{
    match predictor {
        PredictorView::Fixed { .. } => {},
        PredictorView::Lpc { coefficients, .. } => {
            lemma_weighted_sum_is_local(left, right, index, coefficients, coefficients.len());
        },
    }
}

/// Prediction loses nothing: the warm-up samples and the residual bring back
/// every sample of the signal.
pub proof fn law_residual_restores_samples(samples: Seq<i32>, predictor: PredictorView)
    requires
        predictor matches PredictorView::Fixed { order } ==> order <= 4,
        predictor.order() <= samples.len(),
        residuals_of(samples, predictor) is Some,
    ensures
        restored(
            ints(samples.take(predictor.order() as int)),
            residuals_of(samples, predictor).unwrap(),
            predictor,
        ) == ints(samples),
{
    let residuals = residuals_of(samples, predictor).unwrap();
    lemma_prefix_is_restored(samples, predictor, residuals.len());
    assert(residuals.take(residuals.len() as int) == residuals);
    assert(samples.take(samples.len() as int) == samples);
}

proof fn lemma_prefix_is_restored(samples: Seq<i32>, predictor: PredictorView, count: nat)
    requires
        predictor matches PredictorView::Fixed { order } ==> order <= 4,
        predictor.order() <= samples.len(),
        residuals_of(samples, predictor) is Some,
        count <= samples.len() - predictor.order(),
    ensures
        restored(
            ints(samples.take(predictor.order() as int)),
            residuals_of(samples, predictor).unwrap().take(count as int),
            predictor,
        ) == ints(samples.take((predictor.order() + count) as int)),
    decreases count,
{
    let order = predictor.order();
    let residuals = residuals_of(samples, predictor).unwrap();
    let warmup = ints(samples.take(order as int));
    if count > 0 {
        lemma_prefix_is_restored(samples, predictor, (count - 1) as nat);
        let prefix = residuals.take(count as int);
        assert(prefix.drop_last() == residuals.take(count - 1));
        let earlier = ints(samples.take(order + count - 1));
        let errors = prediction_errors(ints(samples), predictor);
        assert(is_encodable(errors[count - 1]));
        lemma_prediction_is_local(earlier, ints(samples), order + count - 1, predictor);
        assert(restored(warmup, prefix, predictor) == earlier.push(
            ints(samples)[order + count - 1],
        ));
        assert(ints(samples.take((order + count) as int)) == earlier.push(
            ints(samples)[order + count - 1],
        ));
    } else {
        assert(residuals.take(0) == Seq::<i32>::empty());
    }
}

/// The residual of a signal under a fixed predictor. There is none where a value
/// cannot be coded, or for an order that the format lacks.
pub fn fixed_residuals(samples: &[i32], order: u8) -> (residuals: Option<Vec<i32>>)
    ensures
        residuals matches Some(values) ==> (order <= 4 || samples@.len() <= order) && Some(
            values@,
        ) == residuals_of(samples@, PredictorView::Fixed { order: order as nat }),
        residuals is None ==> (order > 4 && samples@.len() > order) || residuals_of(
            samples@,
            PredictorView::Fixed { order: order as nat },
        ) is None,
{
    let ghost predictor = PredictorView::Fixed { order: order as nat };
    let ghost errors = prediction_errors(ints(samples@), predictor);
    let mut values: Vec<i32> = Vec::new();
    let mut index: usize = order as usize;
    while index < samples.len()
        invariant
            order <= index,
            samples@.len() >= order ==> index <= samples@.len(),
            samples@.len() < order ==> index == order,
            index > order ==> order <= 4,
            predictor == (PredictorView::Fixed { order: order as nat }),
            errors == prediction_errors(ints(samples@), predictor),
            values@.len() == index - order,
            forall|i: int|
                #![trigger values@[i]]
                #![trigger errors[i]]
                0 <= i < values@.len() ==> values@[i] == errors[i] && is_encodable(errors[i]),
        decreases samples.len() - index,
    {
        let prediction: i64 = match order {
            0 => 0,
            1 => samples[index - 1] as i64,
            2 => 2 * samples[index - 1] as i64 - samples[index - 2] as i64,
            3 => {
                3 * samples[index - 1] as i64 - 3 * samples[index - 2] as i64 + samples[index
                    - 3] as i64
            },
            4 => {
                4 * samples[index - 1] as i64 - 6 * samples[index - 2] as i64 + 4 * samples[index
                    - 3] as i64 - samples[index - 4] as i64
            },
            _ => {
                return None;
            },
        };
        let residual: i64 = samples[index] as i64 - prediction;
        assert(residual == errors[index - order]);
        if !residual_is_encodable(residual) {
            return None;
        }
        values.push(residual as i32);
        index = index + 1;
    }
    assert(values@ == errors.map_values(|error: int| error as i32));
    Some(values)
}

/// A quotient by a power of two, rounded down.
pub fn shifted_down(value: i64, shift: u8) -> (quotient: i64)
    requires
        -0x4000_0000_0000_0000 <= value <= 0x4000_0000_0000_0000,
        shift < 62,
    ensures
        quotient == value as int / pow2(shift as nat) as int,
        -0x4000_0000_0000_0000 <= quotient <= 0x4000_0000_0000_0000,
{
    let divisor: u64 = power_of_two(shift);
    proof {
        vstd::arithmetic::power2::lemma2_to64_rest();
        vstd::arithmetic::power2::lemma_pow2_strictly_increases(shift as nat, 62);
    }
    if value >= 0 {
        proof {
            vstd::arithmetic::div_mod::lemma_div_is_ordered_by_denominator(
                value as int,
                1,
                divisor as int,
            );
            vstd::arithmetic::div_mod::lemma_div_pos_is_pos(value as int, divisor as int);
        }
        (value as u64 / divisor) as i64
    } else {
        let magnitude: u64 = (-value) as u64;
        let rounded: u64 = (magnitude + (divisor - 1)) / divisor;
        let ghost m = magnitude as int;
        let ghost d = divisor as int;
        let ghost r = rounded as int;
        assert((-m) / d == -r && 0 <= r <= m) by (nonlinear_arith)
            requires
                d >= 1,
                m >= 1,
                r == (m + (d - 1)) / d,
        {
            let q = (m + (d - 1)) % d;
            assert(m + (d - 1) == d * r + q);
            assert(0 <= q < d);
            assert(-m == d * (-r) + (d - 1 - q));
            assert((-m) / d == -r);
            assert(r >= 0);
            assert(r <= m);
        }
        -(rounded as i64)
    }
}

/// The residual of a signal under a weighted-sum predictor. There is none where a
/// value cannot be coded.
pub fn lpc_residuals(samples: &[i32], coefficients: &[i16], shift: u8) -> (residuals: Option<
    Vec<i32>,
>)
    requires
        coefficients@.len() <= MAX_FLAC_LPC_ORDER,
        shift < 62,
    ensures
        residuals matches Some(values) ==> Some(values@) == residuals_of(
            samples@,
            PredictorView::Lpc { coefficients: coefficients@, shift: shift as nat },
        ),
        residuals is None ==> residuals_of(
            samples@,
            PredictorView::Lpc { coefficients: coefficients@, shift: shift as nat },
        ) is None,
{
    let ghost predictor = PredictorView::Lpc { coefficients: coefficients@, shift: shift as nat };
    let ghost errors = prediction_errors(ints(samples@), predictor);
    let order: usize = coefficients.len();
    let mut values: Vec<i32> = Vec::new();
    let mut index: usize = order;
    while index < samples.len()
        invariant
            order == coefficients@.len(),
            order <= MAX_FLAC_LPC_ORDER,
            shift < 62,
            order <= index,
            samples@.len() >= order ==> index <= samples@.len(),
            samples@.len() < order ==> index == order,
            predictor == (PredictorView::Lpc { coefficients: coefficients@, shift: shift as nat }),
            errors == prediction_errors(ints(samples@), predictor),
            values@.len() == index - order,
            forall|i: int|
                #![trigger values@[i]]
                #![trigger errors[i]]
                0 <= i < values@.len() ==> values@[i] == errors[i] && is_encodable(errors[i]),
        decreases samples.len() - index,
    {
        let mut sum: i64 = 0;
        let mut position: usize = 0;
        while position < order
            invariant
                position <= order,
                order == coefficients@.len(),
                order <= MAX_FLAC_LPC_ORDER,
                order <= index < samples@.len(),
                sum == weighted_sum(
                    ints(samples@),
                    index as int,
                    coefficients@,
                    position as nat,
                ),
                -0x4000_0000_0000 * position <= sum <= 0x4000_0000_0000 * position,
            decreases order - position,
        {
            let coefficient: i64 = coefficients[position] as i64;
            let sample: i64 = samples[index - position - 1] as i64;
            assert(-0x4000_0000_0000 <= coefficient * sample <= 0x4000_0000_0000)
                by (nonlinear_arith)
                requires
                    -0x8000 <= coefficient <= 0x7fff,
                    -0x8000_0000 <= sample <= 0x7fff_ffff,
            ;
            sum = sum + coefficient * sample;
            position = position + 1;
        }
        let prediction: i64 = shifted_down(sum, shift);
        let residual: i64 = samples[index] as i64 - prediction;
        assert(residual == errors[index - order]);
        if !residual_is_encodable(residual) {
            return None;
        }
        values.push(residual as i32);
        index = index + 1;
    }
    assert(values@ == errors.map_values(|error: int| error as i32));
    Some(values)
}

} // verus!
