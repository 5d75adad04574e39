//! What a coded frame stands for, and that coding loses nothing.

use vstd::arithmetic::div_mod::lemma_fundamental_div_mod;
use vstd::arithmetic::power2::{lemma_pow2_pos, pow2};
use vstd::prelude::*;

use crate::frame::{analysis_of, channel_of, difference_fits, law_mid_side_restores_stereo, lemma_whole_frames, predictors_for, signals_of, AnalysisView};
use crate::frame_header::{channel_widths, width_at, ChannelAssignment};
use crate::level::LevelProfile;
use crate::prediction::{ints, law_residual_restores_samples, residuals_of, restored, PredictorView, MAX_FLAC_LPC_ORDER};
use crate::residual::{best_encoding, best_partition, is_valid_partition_order, lemma_best_encoding, lemma_best_partition, lemma_partition_slice, partition_slice, partitioned, MAX_BLOCK_SIZE};
use crate::restoring::{lemma_narrow_samples, narrow};
use crate::rice::{joined_residuals, partition_residuals, PartitionView, RiceMethod};
use crate::subframe::{predictors_are_valid, subframe_cost, LpcPredictors, LpcView, SubframeView};
use crate::subframe_search::{best_subframe, fixed_candidate, fixed_order_count, fixed_search, lpc_orders, lpc_search, partition_order_limit, signal_lpc_limit, unpredicted};

verus! {

/// The signal that a subframe stands for.
pub open spec fn subframe_signal(subframe: SubframeView, block_size: nat) -> Seq<int> {
    match subframe {
        SubframeView::Constant(sample) => Seq::new(block_size, |i: int| sample as int),
        SubframeView::Verbatim(samples) => ints(samples),
        SubframeView::Fixed { order, warmup, residual } => restored(
            ints(warmup),
            joined_residuals(residual.partitions),
            PredictorView::Fixed { order: order as nat },
        ),
        SubframeView::Lpc { warmup, shift, coefficients, residual, .. } => restored(
            ints(warmup),
            joined_residuals(residual.partitions),
            PredictorView::Lpc { coefficients, shift: shift as nat },
        ),
    }
}

/// The left and right samples that two stored values stand for.
pub open spec fn stereo_pair(assignment: ChannelAssignment, first: int, second: int) -> (int, int) {
    match assignment {
        ChannelAssignment::LeftSide => (first, first - second),
        ChannelAssignment::SideRight => (first + second, second),
        ChannelAssignment::MidSide => (
            (2 * first + second % 2 + second) / 2,
            (2 * first + second % 2 - second) / 2,
        ),
        _ => (first, second),
    }
}

/// The interleaved samples that a coded frame stands for.
pub open spec fn frame_samples(analysis: AnalysisView) -> Seq<int> {
    frame_signal(analysis.channel_assignment, analysis.subframes, analysis.block_size as nat)
}

/// The interleaved samples that subframes stand for.
pub open spec fn frame_signal(
    assignment: ChannelAssignment,
    subframes: Seq<SubframeView>,
    block_size: nat,
) -> Seq<int> {
    if subframes.len() == 2 {
        let first = subframe_signal(subframes[0], block_size);
        let second = subframe_signal(subframes[1], block_size);
        Seq::new(
            2 * block_size,
            |i: int|
                {
                    let pair = stereo_pair(assignment, first[i / 2], second[i / 2]);
                    if i % 2 == 0 {
                        pair.0
                    } else {
                        pair.1
                    }
                },
        )
    } else {
        let channels = subframes.len() as int;
        Seq::new(
            (channels * block_size) as nat,
            |i: int| subframe_signal(subframes[i % channels], block_size)[i / channels],
        )
    }
}

proof fn lemma_partition_keeps_residuals(residuals: Seq<i32>, method: RiceMethod)
    requires
        residuals.len() <= MAX_BLOCK_SIZE,
    ensures
        partition_residuals(best_partition(residuals, method)) == residuals,
{
    lemma_best_partition(residuals, method);
}

proof fn lemma_joined_prefix(
    residuals: Seq<i32>,
    predictor_order: nat,
    partition_order: u8,
    method: RiceMethod,
    count: nat,
)
    requires
        residuals.len() <= MAX_BLOCK_SIZE,
        is_valid_partition_order(
            residuals.len() + predictor_order,
            predictor_order,
            partition_order as nat,
        ),
        count <= pow2(partition_order as nat),
    ensures
        ({
            let partitions = partitioned(
                residuals,
                predictor_order,
                partition_order,
                method,
            ).partitions;
            let span = ((residuals.len() + predictor_order) / pow2(partition_order as nat)) as int;
            let end = if count == 0 { 0 } else { count * span - predictor_order };
            &&& 0 <= end <= residuals.len()
            &&& joined_residuals(partitions.take(count as int)) == residuals.take(end)
        }),
    decreases count,
{
    let partitions = partitioned(residuals, predictor_order, partition_order, method).partitions;
    let span = ((residuals.len() + predictor_order) / pow2(partition_order as nat)) as int;
    if count > 0 {
        lemma_joined_prefix(
            residuals,
            predictor_order,
            partition_order,
            method,
            (count - 1) as nat,
        );
        lemma_partition_slice(residuals, predictor_order, partition_order as nat, count - 1);
        let slice = partition_slice(
            residuals,
            predictor_order,
            partition_order as nat,
            count - 1,
        );
        lemma_partition_keeps_residuals(slice, method);
        let taken = partitions.take(count as int);
        assert(taken.drop_last() == partitions.take(count - 1));
        assert(taken.last() == best_partition(slice, method));
        let start = if count == 1 { 0 } else { (count - 1) * span - predictor_order };
        assert(residuals.take(start) + residuals.subrange(start, count * span - predictor_order)
            == residuals.take(count * span - predictor_order));
    } else {
        assert(partitions.take(0) == Seq::<PartitionView>::empty());
        assert(residuals.take(0) == Seq::<i32>::empty());
    }
}

/// The partitions of a coded residual hold the residual, in order.
pub proof fn law_partitions_hold_the_residual(
    residuals: Seq<i32>,
    predictor_order: nat,
    max_partition_order: nat,
)
    requires
        residuals.len() + predictor_order <= MAX_BLOCK_SIZE,
    ensures
        best_encoding(residuals, predictor_order, max_partition_order) matches Some(encoding)
            ==> joined_residuals(encoding.partitions) == residuals,
{
    lemma_best_encoding(residuals, predictor_order, max_partition_order);
    match best_encoding(residuals, predictor_order, max_partition_order) {
        None => {},
        Some(encoding) => {
            let order = encoding.partition_order;
            let count = pow2(order as nat);
            lemma_pow2_pos(order as nat);
            lemma_joined_prefix(residuals, predictor_order, order, encoding.method, count);
            lemma_partition_slice(residuals, predictor_order, order as nat, 0);
            assert(encoding.partitions.take(count as int) == encoding.partitions);
            assert(residuals.take(residuals.len() as int) == residuals);
        },
    }
}

proof fn lemma_fixed_candidate_is_lossless(
    samples: Seq<i32>,
    order: u8,
    max_partition_order: nat,
)
    requires
        1 <= samples.len() <= MAX_BLOCK_SIZE,
        order <= 4,
        order <= samples.len(),
    ensures
        fixed_candidate(samples, order, max_partition_order) matches Some(subframe)
            ==> subframe_signal(subframe, samples.len()) == ints(samples),
{
    let predictor = PredictorView::Fixed { order: order as nat };
    if let Some(residuals) = residuals_of(samples, predictor) {
        law_partitions_hold_the_residual(residuals, order as nat, max_partition_order);
        law_residual_restores_samples(samples, predictor);
    }
}

proof fn lemma_fixed_search_is_lossless(
    samples: Seq<i32>,
    bits_per_sample: nat,
    max_partition_order: nat,
    orders: nat,
)
    requires
        1 <= samples.len() <= MAX_BLOCK_SIZE,
        orders <= 5,
    ensures
        subframe_signal(
            fixed_search(samples, bits_per_sample, max_partition_order, orders),
            samples.len(),
        ) == ints(samples),
        subframe_cost(
            fixed_search(samples, bits_per_sample, max_partition_order, orders),
            bits_per_sample,
        ) <= subframe_cost(unpredicted(samples), bits_per_sample),
    decreases orders,
{
    if orders == 0 {
        assert(subframe_signal(unpredicted(samples), samples.len()) == ints(samples));
    } else {
        let order = (orders - 1) as u8;
        lemma_fixed_search_is_lossless(
            samples,
            bits_per_sample,
            max_partition_order,
            (orders - 1) as nat,
        );
        if order <= samples.len() {
            lemma_fixed_candidate_is_lossless(samples, order, max_partition_order);
        }
    }
}

proof fn lemma_lpc_search_is_lossless(
    samples: Seq<i32>,
    bits_per_sample: nat,
    max_partition_order: nat,
    predictors: Seq<Option<LpcView>>,
    best: SubframeView,
    orders: Seq<u8>,
    tried: nat,
)
    requires
        1 <= samples.len() <= MAX_BLOCK_SIZE,
        tried <= orders.len(),
        predictors_are_valid(predictors),
        subframe_signal(best, samples.len()) == ints(samples),
        forall|i: int|
            0 <= i < orders.len() ==> 1 <= #[trigger] orders[i] <= MAX_FLAC_LPC_ORDER && orders[i]
                <= samples.len(),
    ensures
        lpc_search(
            samples,
            bits_per_sample,
            max_partition_order,
            predictors,
            best,
            orders,
            tried,
        ) matches Some(found) ==> subframe_signal(found, samples.len()) == ints(samples)
            && subframe_cost(found, bits_per_sample) <= subframe_cost(best, bits_per_sample),
    decreases tried,
{
    if tried > 0 {
        lemma_lpc_search_is_lossless(
            samples,
            bits_per_sample,
            max_partition_order,
            predictors,
            best,
            orders,
            (tried - 1) as nat,
        );
        let order = orders[tried - 1];
        assert(1 <= order <= MAX_FLAC_LPC_ORDER && order <= samples.len());
        if let Some(quantized) = crate::subframe::predictor_of_order(predictors, order as nat) {
            assert(quantized.is_valid(order as nat));
            let predictor = PredictorView::Lpc {
                coefficients: quantized.coefficients,
                shift: quantized.shift as nat,
            };
            if let Some(residuals) = residuals_of(samples, predictor) {
                law_partitions_hold_the_residual(residuals, order as nat, max_partition_order);
                law_residual_restores_samples(samples, predictor);
            }
        }
    }
}

/// The subframe that is chosen for a signal stands for that signal, and takes no
/// more bits than the signal without prediction.
pub proof fn law_chosen_subframe_is_lossless(
    samples: Seq<i32>,
    bits_per_sample: nat,
    sample_rate: u32,
    profile: LevelProfile,
    predictors: Seq<Option<LpcView>>,
)
    requires
        1 <= samples.len() <= MAX_BLOCK_SIZE,
        predictors_are_valid(predictors),
    ensures
        subframe_signal(
            best_subframe(samples, bits_per_sample, sample_rate, profile, predictors),
            samples.len(),
        ) == ints(samples),
        subframe_cost(
            best_subframe(samples, bits_per_sample, sample_rate, profile, predictors),
            bits_per_sample,
        ) <= subframe_cost(unpredicted(samples), bits_per_sample),
{
    reveal(best_subframe);
    let limit = partition_order_limit(profile);
    let best = fixed_search(samples, bits_per_sample, limit, fixed_order_count(profile));
    lemma_fixed_search_is_lossless(samples, bits_per_sample, limit, fixed_order_count(profile));
    let highest = signal_lpc_limit(profile, sample_rate, samples.len()) as u8;
    let orders = lpc_orders(highest);
    assert forall|i: int| 0 <= i < orders.len() implies 1 <= #[trigger] orders[i]
        <= MAX_FLAC_LPC_ORDER && orders[i] <= samples.len() by {
        assert(orders[i] <= highest);
    }
    lemma_lpc_search_is_lossless(
        samples,
        bits_per_sample,
        limit,
        predictors,
        best,
        orders,
        orders.len(),
    );
}

/// A coded frame stands for the samples that it was made of.
pub proof fn law_frame_is_lossless(
    interleaved: Seq<i32>,
    channels: u8,
    bits_per_sample: u8,
    sample_rate: u32,
    profile: LevelProfile,
    predictors: Seq<LpcPredictors>,
)
    requires
        interleaved.len() > 0,
        channels > 0,
        channels == 2 && profile.use_mid_side_stereo ==> difference_fits(interleaved),
        forall|i: int| 0 <= i < predictors.len() ==> predictors_are_valid(#[trigger] predictors[i]@),
    ensures
        analysis_of(
            interleaved,
            channels,
            bits_per_sample,
            sample_rate,
            profile,
            predictors,
        ) matches Ok(analysis) ==> {
            &&& frame_samples(analysis) == ints(interleaved)
            &&& forall|i: int|
                0 <= i < analysis.subframes.len() ==> narrow(
                    #[trigger] subframe_signal(
                        analysis.subframes[i],
                        analysis.block_size as nat,
                    ),
                ) is Some
        },
{
    match signals_of(interleaved, channels, profile) {
        Err(_) => {},
        Ok(split) => {
            lemma_whole_frames(interleaved.len() as int, channels as int);
            let analysis = analysis_of(
                interleaved,
                channels,
                bits_per_sample,
                sample_rate,
                profile,
                predictors,
            )->Ok_0;
            let widths = channel_widths(split.assignment, bits_per_sample as nat);
            let block_size = analysis.block_size as nat;
            assert forall|i: int| 0 <= i < analysis.subframes.len() implies #[trigger] subframe_signal(
                analysis.subframes[i],
                block_size,
            ) == ints(split.signals[i]) && narrow(ints(split.signals[i])) is Some by {
                law_chosen_subframe_is_lossless(
                    split.signals[i],
                    width_at(widths, i),
                    sample_rate,
                    profile,
                    predictors_for(predictors, i),
                );
                lemma_narrow_samples(split.signals[i]);
            }
            if channels != 2 {
                let count = channels as int;
                let found = frame_samples(analysis);
                assert(found.len() == interleaved.len()) by (nonlinear_arith)
                    requires
                        found.len() == count * block_size,
                        interleaved.len() == (interleaved.len() as int / count) * count,
                        block_size == interleaved.len() as int / count,
                ;
                assert forall|i: int| 0 <= i < interleaved.len() implies found[i] == ints(
                    interleaved,
                )[i] by {
                    let channel = i % count;
                    let place = i / count;
                    lemma_fundamental_div_mod(i, count);
                    assert(0 <= place < block_size && place * count + channel == i) by (nonlinear_arith)
                        requires
                            i == count * place + channel,
                            0 <= channel < count,
                            0 <= i < count * block_size,
                    ;
                    assert(subframe_signal(analysis.subframes[channel], block_size) == ints(
                        split.signals[channel],
                    ));
                    assert(split.signals[channel][place] == interleaved[place * count + channel]);
                }
                assert(found == ints(interleaved));
            } else {
                assert(subframe_signal(analysis.subframes[0], block_size) == ints(split.signals[0]));
                assert(subframe_signal(analysis.subframes[1], block_size) == ints(split.signals[1]));
                let left = channel_of(interleaved, 2, 0);
                let right = channel_of(interleaved, 2, 1);
                assert forall|i: int| 0 <= i < interleaved.len() implies frame_samples(analysis)[i]
                    == ints(interleaved)[i] by {
                    let place = i / 2;
                    assert(left[place] == interleaved[place * 2 + 0]);
                    assert(right[place] == interleaved[place * 2 + 1]);
                    law_mid_side_restores_stereo(left[place], right[place]);
                    assert(i == place * 2 + i % 2);
                }
                assert(frame_samples(analysis) == ints(interleaved));
            }
        },
    }
}

} // verus!
