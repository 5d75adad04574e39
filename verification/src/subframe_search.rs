//! Choosing the cheapest subframe for a signal.

use vstd::prelude::*;
use vstd::slice::{slice_subrange, slice_to_vec};

use crate::level::LevelProfile;
use crate::prediction::{fixed_residuals, lpc_residuals, residuals_of, PredictorView, MAX_FLAC_LPC_ORDER};
use crate::residual::{best_encoding, choose_residual_encoding, lemma_best_encoding, smaller, MAX_BLOCK_SIZE, MAX_RICE_PARTITION_ORDER};
use crate::subframe::{predictor_of_order, predictors_are_valid, subframe_cost, subframe_is_codable, AnalyzedSubframe, LpcPredictors, LpcView, QuantizedLpc, SubframeView, LPC_PRECISION, MAX_STREAMABLE_LPC_ORDER_AT_48KHZ, MIN_RESIDUAL_ENCODING_BITS, SUBFRAME_HEADER_BITS};

verus! {

/// All samples are the same.
pub open spec fn is_constant(samples: Seq<i32>) -> bool {
    forall|i: int| 0 <= i < samples.len() ==> #[trigger] samples[i] == samples[0]
}

/// The subframe without prediction: one value for a constant signal, all samples
/// otherwise.
pub open spec fn unpredicted(samples: Seq<i32>) -> SubframeView {
    if is_constant(samples) {
        SubframeView::Constant(samples[0])
    } else {
        SubframeView::Verbatim(samples)
    }
}

/// The candidate, if it is cheaper than the best subframe so far.
pub open spec fn cheaper(
    best: SubframeView,
    candidate: SubframeView,
    bits_per_sample: nat,
) -> SubframeView {
    if subframe_cost(candidate, bits_per_sample) < subframe_cost(best, bits_per_sample) {
        candidate
    } else {
        best
    }
}

/// The fewest bits that a fixed-predictor subframe is expected to take.
pub open spec fn fixed_lower_bound(order: nat, bits_per_sample: nat, sample_count: nat) -> nat {
    8 + order * bits_per_sample + 10 + remaining(sample_count, order)
}

/// The fewest bits that a weighted-sum subframe is expected to take.
pub open spec fn lpc_lower_bound(
    order: nat,
    precision: nat,
    bits_per_sample: nat,
    sample_count: nat,
) -> nat {
    8 + order * bits_per_sample + 4 + 5 + order * precision + 10 + remaining(sample_count, order)
}

/// The samples after the warm-up.
pub open spec fn remaining(sample_count: nat, order: nat) -> nat {
    if sample_count >= order {
        (sample_count - order) as nat
    } else {
        0
    }
}

/// The fixed-predictor subframe of an order, if there is one.
pub open spec fn fixed_candidate(
    samples: Seq<i32>,
    order: u8,
    max_partition_order: nat,
) -> Option<SubframeView> {
    match residuals_of(samples, PredictorView::Fixed { order: order as nat }) {
        None => None,
        Some(residuals) => match best_encoding(residuals, order as nat, max_partition_order) {
            None => None,
            Some(residual) => Some(
                SubframeView::Fixed { order, warmup: samples.take(order as int), residual },
            ),
        },
    }
}

/// The best subframe once the fixed predictors below `orders` were tried. An order
/// whose lower bound is no better than the best so far is passed over.
pub open spec fn fixed_search(
    samples: Seq<i32>,
    bits_per_sample: nat,
    max_partition_order: nat,
    orders: nat,
) -> SubframeView
    decreases orders,
{
    if orders == 0 {
        unpredicted(samples)
    } else {
        let order = (orders - 1) as u8;
        let best = fixed_search(
            samples,
            bits_per_sample,
            max_partition_order,
            (orders - 1) as nat,
        );
        if samples.len() < order || fixed_lower_bound(
            order as nat,
            bits_per_sample,
            samples.len(),
        ) >= subframe_cost(best, bits_per_sample) {
            best
        } else {
            match fixed_candidate(samples, order, max_partition_order) {
                None => best,
                Some(candidate) => cheaper(best, candidate, bits_per_sample),
            }
        }
    }
}

/// The predictor orders that are tried: all up to four, else 8, 12 and the limit.
pub open spec fn lpc_orders(max_lpc_order: u8) -> Seq<u8> {
    if max_lpc_order <= 4 {
        Seq::new(max_lpc_order as nat, |i: int| (i + 1) as u8)
    } else if max_lpc_order < 8 {
        seq![max_lpc_order]
    } else if max_lpc_order == 8 {
        seq![8]
    } else if max_lpc_order < 12 {
        seq![8, max_lpc_order]
    } else if max_lpc_order == 12 {
        seq![8, 12]
    } else {
        seq![8, 12, max_lpc_order]
    }
}

/// The weighted-sum subframe of a predictor, if there is one.
pub open spec fn lpc_candidate(
    samples: Seq<i32>,
    order: u8,
    predictor: LpcView,
    max_partition_order: nat,
) -> Option<SubframeView> {
    match residuals_of(
        samples,
        PredictorView::Lpc {
            coefficients: predictor.coefficients,
            shift: predictor.shift as nat,
        },
    ) {
        None => None,
        Some(residuals) => match best_encoding(residuals, order as nat, max_partition_order) {
            None => None,
            Some(residual) => Some(
                SubframeView::Lpc {
                    order,
                    warmup: samples.take(order as int),
                    precision: predictor.precision,
                    shift: predictor.shift,
                    coefficients: predictor.coefficients,
                    residual,
                },
            ),
        },
    }
}

/// The best subframe once the first `tried` of the orders were tried, from `best`
/// on. An order whose lower bound is no better than the best so far is passed
/// over; an order that cannot be coded ends the search without a result.
pub open spec fn lpc_search(
    samples: Seq<i32>,
    bits_per_sample: nat,
    max_partition_order: nat,
    predictors: Seq<Option<LpcView>>,
    best: SubframeView,
    orders: Seq<u8>,
    tried: nat,
) -> Option<SubframeView>
    decreases tried,
{
    if tried == 0 {
        Some(best)
    } else {
        match lpc_search(
            samples,
            bits_per_sample,
            max_partition_order,
            predictors,
            best,
            orders,
            (tried - 1) as nat,
        ) {
            None => None,
            Some(best) => {
                let order = orders[tried - 1];
                if lpc_lower_bound(
                    order as nat,
                    LPC_PRECISION as nat,
                    bits_per_sample,
                    samples.len(),
                ) >= subframe_cost(best, bits_per_sample) {
                    Some(best)
                } else {
                    match predictor_of_order(predictors, order as nat) {
                        None => None,
                        Some(predictor) => match lpc_candidate(
                            samples,
                            order,
                            predictor,
                            max_partition_order,
                        ) {
                            None => None,
                            Some(candidate) => Some(cheaper(best, candidate, bits_per_sample)),
                        },
                    }
                }
            },
        }
    }
}

/// The highest predictor order for a stream.
pub open spec fn stream_lpc_limit(profile: LevelProfile, sample_rate: u32) -> nat {
    let limit = smaller(profile.max_lpc_order as nat, MAX_FLAC_LPC_ORDER as nat);
    if sample_rate <= 48_000 {
        smaller(limit, MAX_STREAMABLE_LPC_ORDER_AT_48KHZ as nat)
    } else {
        limit
    }
}

/// The highest predictor order for a signal: the stream's, but no more than the
/// lowest eight bits of the number of samples after the first.
pub open spec fn signal_lpc_limit(profile: LevelProfile, sample_rate: u32, sample_count: nat) -> nat {
    smaller(
        stream_lpc_limit(profile, sample_rate),
        if sample_count == 0 {
            0
        } else {
            ((sample_count - 1) % 256) as nat
        },
    )
}

/// The highest partition order for a stream.
pub open spec fn partition_order_limit(profile: LevelProfile) -> nat {
    smaller(profile.max_residual_partition_order as nat, MAX_RICE_PARTITION_ORDER as nat)
}

/// The number of fixed predictors to try.
pub open spec fn fixed_order_count(profile: LevelProfile) -> nat {
    smaller(profile.max_fixed_order as nat, 4) + 1
}

/// The subframe that is chosen for a signal.
#[verifier::opaque]
pub open spec fn best_subframe(
    samples: Seq<i32>,
    bits_per_sample: nat,
    sample_rate: u32,
    profile: LevelProfile,
    predictors: Seq<Option<LpcView>>,
) -> SubframeView {
    let limit = partition_order_limit(profile);
    let best = fixed_search(samples, bits_per_sample, limit, fixed_order_count(profile));
    let orders = lpc_orders(signal_lpc_limit(profile, sample_rate, samples.len()) as u8);
    match lpc_search(
        samples,
        bits_per_sample,
        limit,
        predictors,
        best,
        orders,
        orders.len(),
    ) {
        Some(improved) => improved,
        None => best,
    }
}

/// The highest predictor order for a stream. The streamable subset of the format
/// allows no more than twelve up to 48 kHz.
pub fn max_lpc_order_for_stream(profile: LevelProfile, sample_rate: u32) -> (order: u8)
    ensures
        order == stream_lpc_limit(profile, sample_rate),
{
    let mut order: u8 = profile.max_lpc_order;
    if order > MAX_FLAC_LPC_ORDER {
        order = MAX_FLAC_LPC_ORDER;
    }
    if sample_rate <= 48_000 && order > MAX_STREAMABLE_LPC_ORDER_AT_48KHZ {
        order = MAX_STREAMABLE_LPC_ORDER_AT_48KHZ;
    }
    order
}

/// The highest predictor order for a signal of a stream.
pub fn max_lpc_order_for_signal(
    profile: LevelProfile,
    sample_rate: u32,
    sample_count: usize,
) -> (order: u8)
    ensures
        order == signal_lpc_limit(profile, sample_rate, sample_count as nat),
        order <= MAX_FLAC_LPC_ORDER,
        order > 0 ==> order < sample_count,
{
    let limit: u8 = max_lpc_order_for_stream(profile, sample_rate);
    let available: usize = if sample_count == 0 {
        0
    } else {
        (sample_count - 1) % 256
    };
    if limit as usize <= available {
        limit
    } else {
        available as u8
    }
}

/// The predictor orders to try up to a limit.
pub fn lpc_order_candidates(max_lpc_order: u8) -> (orders: Vec<u8>)
    ensures
        orders@ == lpc_orders(max_lpc_order),
        forall|i: int| 0 <= i < orders@.len() ==> 1 <= #[trigger] orders@[i] <= max_lpc_order,
{
    let mut orders: Vec<u8> = Vec::new();
    if max_lpc_order <= 4 {
        let mut order: u8 = 0;
        while order < max_lpc_order
            invariant
                order <= max_lpc_order <= 4,
                orders@.len() == order,
                forall|i: int| 0 <= i < order ==> #[trigger] orders@[i] == i + 1,
            decreases max_lpc_order - order,
        {
            order = order + 1;
            orders.push(order);
        }
    } else {
        if max_lpc_order >= 8 {
            orders.push(8);
        }
        if max_lpc_order >= 12 {
            orders.push(12);
        }
        if max_lpc_order != 8 && max_lpc_order != 12 {
            orders.push(max_lpc_order);
        }
    }
    assert(orders@ == lpc_orders(max_lpc_order));
    orders
}

/// The fewest bits that a fixed-predictor subframe is expected to take.
pub fn fixed_subframe_lower_bound(order: u8, bits_per_sample: u8, sample_count: usize) -> (bits:
    u64)
    requires
        sample_count <= MAX_BLOCK_SIZE,
    ensures
        bits == fixed_lower_bound(order as nat, bits_per_sample as nat, sample_count as nat),
{
    let residual_count: u64 = if sample_count >= order as usize {
        (sample_count - order as usize) as u64
    } else {
        0
    };
    assert(order as nat * (bits_per_sample as nat) <= 255 * 255) by (nonlinear_arith)
        requires
            order <= 255,
            bits_per_sample <= 255,
    ;
    SUBFRAME_HEADER_BITS + order as u64 * bits_per_sample as u64 + MIN_RESIDUAL_ENCODING_BITS
        + residual_count
}

/// The fewest bits that a weighted-sum subframe is expected to take.
pub fn lpc_subframe_lower_bound(
    order: u8,
    precision: u8,
    bits_per_sample: u8,
    sample_count: usize,
) -> (bits: u64)
    requires
        sample_count <= MAX_BLOCK_SIZE,
    ensures
        bits == lpc_lower_bound(
            order as nat,
            precision as nat,
            bits_per_sample as nat,
            sample_count as nat,
        ),
{
    let residual_count: u64 = if sample_count >= order as usize {
        (sample_count - order as usize) as u64
    } else {
        0
    };
    assert(order as nat * (bits_per_sample as nat) <= 255 * 255) by (nonlinear_arith)
        requires
            order <= 255,
            bits_per_sample <= 255,
    ;
    assert(order as nat * (precision as nat) <= 255 * 255) by (nonlinear_arith)
        requires
            order <= 255,
            precision <= 255,
    ;
    SUBFRAME_HEADER_BITS + order as u64 * bits_per_sample as u64 + 4 + 5 + order as u64
        * precision as u64 + MIN_RESIDUAL_ENCODING_BITS + residual_count
}

/// The samples before the first predicted one.
fn warmup_samples(samples: &[i32], order: u8) -> (warmup: Vec<i32>)
    requires
        order <= samples@.len(),
    ensures
        warmup@ == samples@.take(order as int),
{
    let warmup = slice_to_vec(slice_subrange(samples, 0, order as usize));
    assert(warmup@ == samples@.take(order as int));
    warmup
}

proof fn lemma_product_bound(count: nat, bits: nat)
    requires
        count <= 65535,
        bits <= 255,
    ensures
        count * bits <= 0x100_0000,
{
    assert(count * bits <= 0x100_0000) by (nonlinear_arith)
        requires
            count <= 65535,
            bits <= 255,
    ;
}

/// The subframe without prediction.
fn unpredicted_subframe(samples: &[i32]) -> (subframe: AnalyzedSubframe)
    requires
        samples@.len() >= 1,
    ensures
        subframe@ == unpredicted(samples@),
{
    let mut index: usize = 1;
    while index < samples.len()
        invariant
            1 <= index <= samples@.len(),
            forall|i: int| 0 <= i < index ==> #[trigger] samples@[i] == samples@[0],
        decreases samples.len() - index,
    {
        if samples[index] != samples[0] {
            assert(!is_constant(samples@)) by {
                assert(samples@[index as int] != samples@[0]);
            }
            return AnalyzedSubframe::Verbatim(slice_to_vec(samples));
        }
        index = index + 1;
    }
    AnalyzedSubframe::Constant(samples[0])
}

/// The fixed-predictor subframe of an order, with its length in bits.
fn fixed_subframe(
    samples: &[i32],
    bits_per_sample: u8,
    order: u8,
    max_partition_order: u8,
) -> (candidate: Option<(u64, AnalyzedSubframe)>)
    requires
        1 <= samples@.len() <= MAX_BLOCK_SIZE,
        order <= 4,
        order <= samples@.len(),
    ensures
        candidate is Some <==> fixed_candidate(samples@, order, max_partition_order as nat) is Some,
        candidate matches Some((bits, subframe)) ==> {
            &&& Some(subframe@) == fixed_candidate(samples@, order, max_partition_order as nat)
            &&& bits == subframe_cost(subframe@, bits_per_sample as nat)
        },
{
    match fixed_residuals(samples, order) {
        None => None,
        Some(residuals) => {
            proof {
                lemma_best_encoding(residuals@, order as nat, max_partition_order as nat);
                lemma_product_bound(order as nat, bits_per_sample as nat);
            }
            match choose_residual_encoding(residuals.as_slice(), order, max_partition_order) {
                None => None,
                Some(residual) => {
                    let subframe = AnalyzedSubframe::Fixed {
                        order,
                        warmup: warmup_samples(samples, order),
                        residual,
                    };
                    let bits: u64 = subframe.bit_len(bits_per_sample);
                    Some((bits, subframe))
                },
            }
        },
    }
}

/// The weighted-sum subframe of a predictor, with its length in bits.
fn lpc_subframe(
    samples: &[i32],
    bits_per_sample: u8,
    order: u8,
    predictor: &QuantizedLpc,
    max_partition_order: u8,
) -> (candidate: Option<(u64, AnalyzedSubframe)>)
    requires
        1 <= samples@.len() <= MAX_BLOCK_SIZE,
        1 <= order <= MAX_FLAC_LPC_ORDER,
        order <= samples@.len(),
        predictor@.is_valid(order as nat),
    ensures
        candidate is Some <==> lpc_candidate(
            samples@,
            order,
            predictor@,
            max_partition_order as nat,
        ) is Some,
        candidate matches Some((bits, subframe)) ==> {
            &&& Some(subframe@) == lpc_candidate(
                samples@,
                order,
                predictor@,
                max_partition_order as nat,
            )
            &&& bits == subframe_cost(subframe@, bits_per_sample as nat)
        },
{
    match lpc_residuals(samples, predictor.coefficients.as_slice(), predictor.shift) {
        None => None,
        Some(residuals) => {
            proof {
                lemma_best_encoding(residuals@, order as nat, max_partition_order as nat);
                lemma_product_bound(order as nat, bits_per_sample as nat);
                lemma_product_bound(predictor.precision as nat, order as nat);
            }
            match choose_residual_encoding(residuals.as_slice(), order, max_partition_order) {
                None => None,
                Some(residual) => {
                    let subframe = AnalyzedSubframe::Lpc {
                        order,
                        warmup: warmup_samples(samples, order),
                        precision: predictor.precision,
                        shift: predictor.shift,
                        coefficients: slice_to_vec(predictor.coefficients.as_slice()),
                        residual,
                    };
                    let bits: u64 = subframe.bit_len(bits_per_sample);
                    Some((bits, subframe))
                },
            }
        },
    }
}

/// The best subframe without a weighted-sum predictor, with its length in bits.
fn choose_fixed_subframe(
    samples: &[i32],
    bits_per_sample: u8,
    max_fixed_order: u8,
    max_partition_order: u8,
) -> (best: (u64, AnalyzedSubframe))
    requires
        1 <= samples@.len() <= MAX_BLOCK_SIZE,
    ensures
        best.1@ == fixed_search(
            samples@,
            bits_per_sample as nat,
            max_partition_order as nat,
            smaller(max_fixed_order as nat, 4) + 1,
        ),
        best.0 == subframe_cost(best.1@, bits_per_sample as nat),
{
    let last_order: u8 = if max_fixed_order <= 4 {
        max_fixed_order
    } else {
        4
    };
    proof {
        lemma_product_bound(samples@.len(), bits_per_sample as nat);
    }
    let mut best = unpredicted_subframe(samples);
    let mut best_bits: u64 = best.bit_len(bits_per_sample);
    let mut order: u8 = 0;
    while order <= last_order
        invariant
            1 <= samples@.len() <= MAX_BLOCK_SIZE,
            last_order <= 4,
            order <= last_order + 1,
            best@ == fixed_search(
                samples@,
                bits_per_sample as nat,
                max_partition_order as nat,
                order as nat,
            ),
            best_bits == subframe_cost(best@, bits_per_sample as nat),
        decreases last_order + 1 - order,
    {
        if order as usize <= samples.len() && fixed_subframe_lower_bound(
            order,
            bits_per_sample,
            samples.len(),
        ) < best_bits {
            match fixed_subframe(samples, bits_per_sample, order, max_partition_order) {
                None => {},
                Some((bits, candidate)) => {
                    if bits < best_bits {
                        best_bits = bits;
                        best = candidate;
                    }
                },
            }
        }
        order = order + 1;
    }
    (best_bits, best)
}

/// A cheaper subframe with one of the predictors, if the search finds one.
pub fn choose_lpc_subframe(
    samples: &[i32],
    bits_per_sample: u8,
    max_lpc_order: u8,
    max_partition_order: u8,
    predictors: &LpcPredictors,
    current_best: &AnalyzedSubframe,
    current_best_bits: u64,
) -> (improved: Option<AnalyzedSubframe>)
    requires
        1 <= samples@.len() <= MAX_BLOCK_SIZE,
        max_lpc_order <= MAX_FLAC_LPC_ORDER,
        max_lpc_order <= samples@.len(),
        predictors_are_valid(predictors@),
        current_best_bits == subframe_cost(current_best@, bits_per_sample as nat),
    ensures
        ({
            let found = lpc_search(
                samples@,
                bits_per_sample as nat,
                max_partition_order as nat,
                predictors@,
                current_best@,
                lpc_orders(max_lpc_order),
                lpc_orders(max_lpc_order).len(),
            );
            &&& improved matches Some(subframe) ==> found == Some(subframe@)
            &&& improved is None ==> found is None || found == Some(current_best@)
        }),
{
    let orders = lpc_order_candidates(max_lpc_order);
    let mut best: Option<AnalyzedSubframe> = None;
    let ghost mut best_view: SubframeView = current_best@;
    let mut best_bits: u64 = current_best_bits;
    let mut index: usize = 0;
    while index < orders.len()
        invariant
            index <= orders.len(),
            1 <= samples@.len() <= MAX_BLOCK_SIZE,
            max_lpc_order <= MAX_FLAC_LPC_ORDER,
            max_lpc_order <= samples@.len(),
            predictors_are_valid(predictors@),
            orders@ == lpc_orders(max_lpc_order),
            forall|i: int| 0 <= i < orders@.len() ==> 1 <= #[trigger] orders@[i] <= max_lpc_order,
            best_view == match best {
                Some(subframe) => subframe@,
                None => current_best@,
            },
            Some(best_view) == lpc_search(
                samples@,
                bits_per_sample as nat,
                max_partition_order as nat,
                predictors@,
                current_best@,
                orders@,
                index as nat,
            ),
            best_bits == subframe_cost(best_view, bits_per_sample as nat),
        decreases orders.len() - index,
    {
        let order: u8 = orders[index];
        if lpc_subframe_lower_bound(order, LPC_PRECISION, bits_per_sample, samples.len())
            < best_bits {
            if order as usize > predictors.by_order.len() {
                proof {
                    lemma_search_ends(
                        samples@,
                        bits_per_sample as nat,
                        max_partition_order as nat,
                        predictors@,
                        current_best@,
                        orders@,
                        (index + 1) as nat,
                        orders@.len(),
                    );
                }
                return None;
            }
            let found = match &predictors.by_order[order as usize - 1] {
                None => None,
                Some(predictor) => lpc_subframe(
                    samples,
                    bits_per_sample,
                    order,
                    predictor,
                    max_partition_order,
                ),
            };
            match found {
                None => {
                    proof {
                        lemma_search_ends(
                            samples@,
                            bits_per_sample as nat,
                            max_partition_order as nat,
                            predictors@,
                            current_best@,
                            orders@,
                            (index + 1) as nat,
                            orders@.len(),
                        );
                    }
                    return None;
                },
                Some((bits, candidate)) => {
                    if bits < best_bits {
                        proof {
                            best_view = candidate@;
                        }
                        best_bits = bits;
                        best = Some(candidate);
                    }
                },
            }
        }
        index = index + 1;
    }
    best
}

/// A search that has ended without a result stays without one.
proof fn lemma_search_ends(
    samples: Seq<i32>,
    bits_per_sample: nat,
    max_partition_order: nat,
    predictors: Seq<Option<LpcView>>,
    best: SubframeView,
    orders: Seq<u8>,
    ended: nat,
    tried: nat,
)
    requires
        ended <= tried,
        lpc_search(
            samples,
            bits_per_sample,
            max_partition_order,
            predictors,
            best,
            orders,
            ended,
        ) is None,
    ensures
        lpc_search(
            samples,
            bits_per_sample,
            max_partition_order,
            predictors,
            best,
            orders,
            tried,
        ) is None,
    decreases tried,
{
    if ended < tried {
        lemma_search_ends(
            samples,
            bits_per_sample,
            max_partition_order,
            predictors,
            best,
            orders,
            ended,
            (tried - 1) as nat,
        );
    }
}

/// Chooses the subframe for a signal: the cheapest of the constant, verbatim,
/// fixed-predictor and weighted-sum subframes that are tried.
pub fn choose_subframe(
    samples: &[i32],
    bits_per_sample: u8,
    sample_rate: u32,
    profile: LevelProfile,
    predictors: &LpcPredictors,
) -> (subframe: AnalyzedSubframe)
    requires
        1 <= samples@.len() <= MAX_BLOCK_SIZE,
        predictors_are_valid(predictors@),
    ensures
        subframe@ == best_subframe(
            samples@,
            bits_per_sample as nat,
            sample_rate,
            profile,
            predictors@,
        ),
{
    proof {
        reveal(best_subframe);
    }
    let max_partition_order: u8 = if profile.max_residual_partition_order
        <= MAX_RICE_PARTITION_ORDER {
        profile.max_residual_partition_order
    } else {
        MAX_RICE_PARTITION_ORDER
    };
    let (best_bits, best) = choose_fixed_subframe(
        samples,
        bits_per_sample,
        profile.max_fixed_order,
        max_partition_order,
    );
    let max_lpc_order: u8 = max_lpc_order_for_signal(profile, sample_rate, samples.len());
    match choose_lpc_subframe(
        samples,
        bits_per_sample,
        max_lpc_order,
        max_partition_order,
        predictors,
        &best,
        best_bits,
    ) {
        Some(improved) => improved,
        None => best,
    }
}

proof fn lemma_fixed_search_is_codable(
    samples: Seq<i32>,
    bits_per_sample: nat,
    max_partition_order: nat,
    orders: nat,
)
    requires
        orders <= 5,
    ensures
        subframe_is_codable(fixed_search(samples, bits_per_sample, max_partition_order, orders)),
    decreases orders,
{
    if orders > 0 {
        lemma_fixed_search_is_codable(
            samples,
            bits_per_sample,
            max_partition_order,
            (orders - 1) as nat,
        );
    }
}

proof fn lemma_lpc_search_is_codable(
    samples: Seq<i32>,
    bits_per_sample: nat,
    max_partition_order: nat,
    predictors: Seq<Option<LpcView>>,
    best: SubframeView,
    orders: Seq<u8>,
    tried: nat,
)
    requires
        tried <= orders.len(),
        subframe_is_codable(best),
        predictors_are_valid(predictors),
        forall|i: int| 0 <= i < orders.len() ==> 1 <= #[trigger] orders[i] <= MAX_FLAC_LPC_ORDER,
    ensures
        lpc_search(
            samples,
            bits_per_sample,
            max_partition_order,
            predictors,
            best,
            orders,
            tried,
        ) matches Some(found) ==> subframe_is_codable(found),
    decreases tried,
{
    if tried > 0 {
        lemma_lpc_search_is_codable(
            samples,
            bits_per_sample,
            max_partition_order,
            predictors,
            best,
            orders,
            (tried - 1) as nat,
        );
        let order = orders[tried - 1];
        assert(1 <= order <= MAX_FLAC_LPC_ORDER);
    }
}

/// The chosen subframe has a type code of the format.
pub proof fn lemma_best_subframe_is_codable(
    samples: Seq<i32>,
    bits_per_sample: nat,
    sample_rate: u32,
    profile: LevelProfile,
    predictors: Seq<Option<LpcView>>,
)
    requires
        predictors_are_valid(predictors),
    ensures
        subframe_is_codable(
            best_subframe(samples, bits_per_sample, sample_rate, profile, predictors),
        ),
{
    reveal(best_subframe);
    let limit = partition_order_limit(profile);
    lemma_fixed_search_is_codable(samples, bits_per_sample, limit, fixed_order_count(profile));
    let best = fixed_search(samples, bits_per_sample, limit, fixed_order_count(profile));
    let orders = lpc_orders(signal_lpc_limit(profile, sample_rate, samples.len()) as u8);
    lemma_lpc_search_is_codable(
        samples,
        bits_per_sample,
        limit,
        predictors,
        best,
        orders,
        orders.len(),
    );
}

} // verus!
