//! What the search for a coding finds: nothing that was tried is cheaper.

use vstd::arithmetic::logarithm::log;
use vstd::arithmetic::power2::{lemma_pow2, pow2};
use vstd::prelude::*;

use crate::frame::{channel_of, magnitude_cost, mid_of, side_of, stereo_signals};
use crate::frame_header::ChannelAssignment;
use crate::level::LevelProfile;
use crate::prediction::{fixed_prediction, prediction_errors, weighted_sum, PredictorView};
use crate::residual::{best_encoding, best_partition, encoding_candidates, encoding_costs, escape_width, estimated_parameter, folded_mean, highest_valid_order, is_encodable, is_least_width, is_valid_partition_order, partition_candidates, partition_costs, partition_orders, partitioned, rice_methods, rice_parameters, smaller, width_suffices};
use crate::rice::{encoding_cost, folded, partition_cost, rice_cost, PartitionView, RiceMethod};
use crate::selection::law_cheapest_is_first_minimum;
use crate::subframe::{predictor_of_order, subframe_cost, LpcView, SubframeView};
use crate::subframe_search::{best_subframe, fixed_candidate, fixed_order_count, fixed_search, is_constant, lpc_candidate, lpc_orders, lpc_search, partition_order_limit, signal_lpc_limit, stream_lpc_limit, unpredicted};

verus! {

/// The fixed predictors are the differences of the signal: the errors of each order are the
/// differences of neighbouring errors of the order below, and those of order zero are the
/// samples.
pub proof fn law_fixed_errors_are_differences(samples: Seq<int>, order: nat, index: int)
    requires
        order <= 4,
        order <= index < samples.len(),
    ensures
        ({
            let error = samples[index] - fixed_prediction(samples, index, order);
            &&& order == 0 ==> error == samples[index]
            &&& order > 0 ==> error == (samples[index] - fixed_prediction(
                samples,
                index,
                (order - 1) as nat,
            )) - (samples[index - 1] - fixed_prediction(samples, index - 1, (order - 1) as nat))
            &&& prediction_errors(samples, PredictorView::Fixed { order })[index - order] == error
            &&& prediction_errors(samples, PredictorView::Fixed { order }).len() == samples.len()
                - order
        }),
{
}

/// A weighted sum takes the latest sample with the first coefficient: one coefficient more
/// weighs the sample before all others.
pub proof fn law_weighted_sums_start_at_the_latest_sample(
    samples: Seq<int>,
    index: int,
    coefficients: Seq<i16>,
    count: nat,
)
    requires
        1 <= count <= coefficients.len(),
        count <= index <= samples.len(),
    ensures
        count == 1 ==> weighted_sum(samples, index, coefficients, count) == coefficients[0]
            * samples[index - 1],
        count > 1 ==> weighted_sum(samples, index, coefficients, count) - weighted_sum(
            samples,
            index,
            coefficients,
            (count - 1) as nat,
        ) == coefficients[count - 1] * samples[index - count],
{
    reveal_with_fuel(weighted_sum, 3);
}

/// An order of linear prediction that is tried under a limit: the limit itself, 8 and 12, and
/// all where there are no more than four.
pub open spec fn is_tried_order(limit: int, order: int) -> bool {
    1 <= order <= limit && (order == limit || order == 8 || order == 12 || limit <= 4)
}

/// The orders of linear prediction that are tried are these and no others, from the lowest on.
pub proof fn law_tried_orders_reach_the_limit(limit: u8, order: u8)
    ensures
        lpc_orders(limit).contains(order) <==> is_tried_order(limit as int, order as int),
        forall|i: int, j: int|
            0 <= i < j < lpc_orders(limit).len() ==> #[trigger] lpc_orders(limit)[i]
                < #[trigger] lpc_orders(limit)[j],
{
    let orders = lpc_orders(limit);
    if is_tried_order(limit as int, order as int) {
        if limit <= 4 {
            assert(orders[order - 1] == order);
        } else if limit < 8 {
            assert(orders[0] == order);
        } else if order == 8 {
            assert(orders[0] == order);
        } else if order == 12 {
            assert(orders[1] == order);
        } else {
            assert(orders[orders.len() - 1] == order);
        }
    }
}

/// The order of linear prediction is limited by the level, by the format, up to 48 kHz by its
/// streamable subset, and by the samples there are; it is the least of these limits.
pub proof fn law_prediction_orders_are_limited(
    profile: LevelProfile,
    sample_rate: u32,
    sample_count: nat,
)
    ensures
        ({
            let stream = stream_lpc_limit(profile, sample_rate);
            let signal = signal_lpc_limit(profile, sample_rate, sample_count);
            &&& stream <= profile.max_lpc_order
            &&& stream <= 32
            &&& sample_rate <= 48_000 ==> stream <= 12
            &&& stream == profile.max_lpc_order || stream == 32 || (stream == 12 && sample_rate
                <= 48_000)
            &&& signal <= stream
            &&& 1 <= sample_count <= 256 ==> signal < sample_count
            &&& signal == stream || sample_count == 0 && signal == 0 || signal == (sample_count - 1)
                % 256
        }),
{
}

/// The cost is no more than that of a candidate, or than a floor below which none was expected.
pub open spec fn is_no_worse(found: nat, candidate: nat, floor: int) -> bool {
    found <= candidate || found <= floor
}

proof fn lemma_fixed(
    samples: Seq<i32>,
    bits: nat,
    limit: nat,
    orders: nat,
    order: u8,
)
    requires
        orders <= 5,
        samples.len() >= order,
    ensures
        subframe_cost(fixed_search(samples, bits, limit, orders), bits) <= subframe_cost(
            unpredicted(samples),
            bits,
        ),
        order < orders ==> (fixed_candidate(samples, order, limit) matches Some(candidate)
            ==> is_no_worse(
            subframe_cost(fixed_search(samples, bits, limit, orders), bits),
            subframe_cost(candidate, bits),
            18 + order * bits + (samples.len() - order),
        )),
    decreases orders,
{
    if orders > 0 {
        lemma_fixed(samples, bits, limit, (orders - 1) as nat, order);
    }
}

proof fn lemma_lpc(
    samples: Seq<i32>,
    bits: nat,
    limit: nat,
    predictors: Seq<Option<LpcView>>,
    best: SubframeView,
    orders: Seq<u8>,
    tried: nat,
    place: int,
)
    requires
        tried <= orders.len(),
        0 <= place < orders.len(),
        forall|i: int| 0 <= i < orders.len() ==> #[trigger] orders[i] <= samples.len(),
    ensures
        lpc_search(samples, bits, limit, predictors, best, orders, tried) matches Some(found) ==> {
            &&& subframe_cost(found, bits) <= subframe_cost(best, bits)
            &&& place < tried ==> {
                let order = orders[place];
                predictor_of_order(predictors, order as nat) matches Some(predictor) ==> (
                lpc_candidate(samples, order, predictor, limit) matches Some(candidate)
                    ==> is_no_worse(
                    subframe_cost(found, bits),
                    subframe_cost(candidate, bits),
                    27 + order * bits + 15 * order + (samples.len() - order),
                ))
            }
        },
        (forall|i: int|
            0 <= i < tried ==> (predictor_of_order(
                predictors,
                #[trigger] orders[i] as nat,
            ) matches Some(predictor) && lpc_candidate(samples, orders[i], predictor, limit) is Some))
            ==> lpc_search(samples, bits, limit, predictors, best, orders, tried) is Some,
    decreases tried,
{
    if tried > 0 {
        lemma_lpc(samples, bits, limit, predictors, best, orders, (tried - 1) as nat, place);
        assert(orders[tried - 1] <= samples.len());
        assert((orders[tried - 1] as nat) * 15 == 15 * orders[tried - 1]);
    }
}

/// The predictor of an order that is tried is there and codes the signal.
pub open spec fn is_predictable(
    samples: Seq<i32>,
    order: u8,
    predictors: Seq<Option<LpcView>>,
    partition_limit: nat,
) -> bool {
    predictor_of_order(predictors, order as nat) matches Some(predictor) && lpc_candidate(
        samples,
        order,
        predictor,
        partition_limit,
    ) is Some
}

/// The subframe that is chosen is no worse than the others: than all samples as they are, than
/// one value for a constant signal, than each fixed predictor that the level allows, and, where
/// all orders of linear prediction that are tried can be coded, than each of those. A predictor
/// is passed over only where the warm-up samples and one bit for each other sample take more.
pub proof fn law_chosen_subframe_is_the_cheapest(
    samples: Seq<i32>,
    bits: nat,
    sample_rate: u32,
    profile: LevelProfile,
    predictors: Seq<Option<LpcView>>,
    order: u8,
)
    requires
        1 <= samples.len() <= 0xffff,
        order <= samples.len(),
    ensures
        ({
            let count = samples.len() as int;
            let partitions = partition_order_limit(profile);
            let limit = signal_lpc_limit(profile, sample_rate, samples.len());
            let found = subframe_cost(
                best_subframe(samples, bits, sample_rate, profile, predictors),
                bits,
            );
            &&& found <= 8 + samples.len() * bits
            &&& is_constant(samples) ==> found <= 8 + bits
            &&& partitions == smaller(profile.max_residual_partition_order as nat, 8)
            &&& order <= 4 && order <= profile.max_fixed_order ==> (fixed_candidate(
                samples,
                order,
                partitions,
            ) matches Some(candidate) ==> is_no_worse(
                found,
                subframe_cost(candidate, bits),
                18 + order * bits + (count - order),
            ))
            &&& (forall|other: u8|
                is_tried_order(limit as int, other as int) ==> #[trigger] is_predictable(
                    samples,
                    other,
                    predictors,
                    partitions,
                )) && is_tried_order(limit as int, order as int) ==> is_no_worse(
                found,
                subframe_cost(
                    lpc_candidate(
                        samples,
                        order,
                        predictor_of_order(predictors, order as nat).unwrap(),
                        partitions,
                    ).unwrap(),
                    bits,
                ),
                27 + order * bits + 15 * order + (count - order),
            )
        }),
{
    reveal(best_subframe);
    let limit = partition_order_limit(profile);
    let orders_allowed = fixed_order_count(profile);
    lemma_fixed(samples, bits, limit, orders_allowed, order);
    assert(bits <= samples.len() * bits) by (nonlinear_arith)
        requires
            samples.len() >= 1,
    ;
    let best = fixed_search(samples, bits, limit, orders_allowed);
    let highest = signal_lpc_limit(profile, sample_rate, samples.len()) as u8;
    let orders = lpc_orders(highest);
    assert forall|i: int| 0 <= i < orders.len() implies #[trigger] orders[i] <= samples.len() by {
        law_tried_orders_reach_the_limit(highest, orders[i]);
        assert(orders.contains(orders[i]));
        law_prediction_orders_are_limited(profile, sample_rate, samples.len());
    }
    if orders.len() > 0 {
        law_tried_orders_reach_the_limit(highest, order);
        let place = if orders.contains(order) {
            orders.index_of(order)
        } else {
            0
        };
        lemma_lpc(samples, bits, limit, predictors, best, orders, orders.len(), place);
        if forall|other: u8|
            is_tried_order(highest as int, other as int) ==> #[trigger] is_predictable(
                samples,
                other,
                predictors,
                limit,
            ) {
            assert forall|i: int| 0 <= i < orders.len() implies (predictor_of_order(
                predictors,
                #[trigger] orders[i] as nat,
            ) matches Some(predictor) && lpc_candidate(samples, orders[i], predictor, limit) is Some) by {
                law_tried_orders_reach_the_limit(highest, orders[i]);
                assert(orders.contains(orders[i]));
                assert(is_predictable(samples, orders[i], predictors, limit));
            }
        }
    } else {
        law_tried_orders_reach_the_limit(highest, order);
        assert(lpc_search(samples, bits, limit, predictors, best, orders, 0) == Some(best));
    }
}

/// The first guess of a Rice parameter is the binary logarithm of the mean folded residual,
/// rounded down.
pub proof fn law_estimated_parameter_is_the_logarithm_of_the_mean(residuals: Seq<i32>)
    ensures
        folded_mean(residuals) == 0 ==> estimated_parameter(residuals) == 0,
        folded_mean(residuals) > 0 ==> pow2(estimated_parameter(residuals)) <= folded_mean(
            residuals,
        ) < pow2(estimated_parameter(residuals) + 1),
{
    let mean = folded_mean(residuals) as int;
    if mean > 0 {
        vstd::arithmetic::logarithm::lemma_log_nonnegative(2, mean);
        lemma_log_upper(mean);
        let guess = log(2, mean) as nat;
        lemma_pow2(guess);
        lemma_pow2(guess + 1);
    }
}

/// A number is below the power of two behind its logarithm.
proof fn lemma_log_upper(value: int)
    requires
        value >= 1,
    ensures
        log(2, value) >= 0,
        vstd::arithmetic::power::pow(2, log(2, value) as nat) <= value,
        value < vstd::arithmetic::power::pow(2, (log(2, value) + 1) as nat),
    decreases value,
{
    vstd::arithmetic::power::lemma_pow0(2);
    vstd::arithmetic::power::lemma_pow1(2);
    vstd::arithmetic::logarithm::lemma_log_nonnegative(2, value);
    if value < 2 {
        vstd::arithmetic::logarithm::lemma_log0(2, value);
    } else {
        vstd::arithmetic::logarithm::lemma_log_s(2, value);
        lemma_log_upper(value / 2);
        let below = log(2, value / 2) as nat;
        reveal(vstd::arithmetic::power::pow);
        assert(vstd::arithmetic::power::pow(2, below + 1) == 2 * vstd::arithmetic::power::pow(
            2,
            below,
        ));
        assert(vstd::arithmetic::power::pow(2, (below + 2) as nat) == 2
            * vstd::arithmetic::power::pow(2, below + 1));
    }
}

/// A partition is coded no worse than with the guessed Rice parameter, than with none where the
/// guess is small, and than with any width that all its residuals fit in.
pub proof fn law_chosen_partition_is_the_cheapest(
    residuals: Seq<i32>,
    method: RiceMethod,
    width: u8,
)
    ensures
        ({
            let guess = smaller(estimated_parameter(residuals), method.spec_max_parameter() as nat);
            let found = partition_cost(best_partition(residuals, method), method);
            let field = method.spec_parameter_bits() as nat;
            &&& found <= field + rice_cost(residuals, guess)
            &&& guess <= 2 ==> found <= field + rice_cost(residuals, 0)
            &&& width <= 31 && width_suffices(residuals, width as nat) ==> found <= field + 5
                + residuals.len() * width
        }),
{
    let guess = smaller(estimated_parameter(residuals), method.spec_max_parameter() as nat) as u8;
    let candidates = partition_candidates(residuals, method);
    let costs = partition_costs(candidates, method);
    let parameters = rice_parameters(residuals, method);
    let escape = match escape_width(residuals) {
        Some(bits) => seq![PartitionView::Escape { bits, residuals }],
        None => Seq::<PartitionView>::empty(),
    };
    law_cheapest_is_first_minimum(costs);
    if residuals.len() == 0 {
        assert(folded_mean(residuals) == 0);
    }
    let last = candidates.len() - 1;
    assert(parameters[parameters.len() - 1] == guess);
    assert(candidates[last] == PartitionView::Rice { parameter: guess, residuals });
    assert(costs[last] == partition_cost(candidates[last], method));
    if guess <= 2 {
        let place = escape.len() as int;
        assert(parameters[0] == 0);
        assert(candidates[place] == PartitionView::Rice { parameter: 0, residuals });
        assert(costs[place] == partition_cost(candidates[place], method));
    }
    if width <= 31 && width_suffices(residuals, width as nat) {
        lemma_least_width(residuals, width);
        let bits = escape_width(residuals)->Some_0;
        assert(is_least_width(residuals, bits));
        assert(bits <= width) by {
            if width < bits {
                assert(!width_suffices(residuals, width as nat));
            }
        }
        assert(candidates[0] == PartitionView::Escape { bits, residuals });
        assert(costs[0] == partition_cost(candidates[0], method));
        assert(residuals.len() * bits <= residuals.len() * width) by (nonlinear_arith)
            requires
                bits <= width,
        ;
    }
}

/// Where some width suffices, there is a least one.
proof fn lemma_least_width(residuals: Seq<i32>, width: u8)
    requires
        width <= 31,
        width_suffices(residuals, width as nat),
    ensures
        exists|bits: u8| bits <= 31 && #[trigger] is_least_width(residuals, bits),
    decreases width,
{
    if forall|less: nat| less < width ==> !#[trigger] width_suffices(residuals, less) {
        assert(is_least_width(residuals, width));
    } else {
        let less = choose|less: nat| less < width && #[trigger] width_suffices(residuals, less);
        lemma_least_width(residuals, less as u8);
    }
}

/// The highest partition order is the highest one up to the limit that splits the block evenly
/// and leaves residuals in the first partition.
pub proof fn law_highest_partition_order_is_the_highest(
    block_size: nat,
    predictor_order: nat,
    limit: nat,
    other: nat,
)
    ensures
        highest_valid_order(block_size, predictor_order, limit) matches Some(order) ==> {
            &&& order <= limit
            &&& is_valid_partition_order(block_size, predictor_order, order)
            &&& order < other <= limit ==> !is_valid_partition_order(
                block_size,
                predictor_order,
                other,
            )
        },
        highest_valid_order(block_size, predictor_order, limit) is None && other <= limit
            ==> !is_valid_partition_order(block_size, predictor_order, other),
    decreases limit,
{
    if limit > 0 {
        law_highest_partition_order_is_the_highest(
            block_size,
            predictor_order,
            (limit - 1) as nat,
            other,
        );
    }
}

/// A residual is coded no worse than in one partition, in as many as the limit allows, and in
/// half of those, each partition in the cheapest way; parameters of five bits are tried where
/// the guessed one does not fit in four.
pub proof fn law_chosen_encoding_is_the_cheapest(
    residuals: Seq<i32>,
    predictor_order: nat,
    max_partition_order: nat,
    order: u8,
    method: RiceMethod,
)
    ensures
        ({
            let highest = highest_valid_order(
                residuals.len() + predictor_order,
                predictor_order,
                smaller(max_partition_order, 8),
            );
            best_encoding(residuals, predictor_order, max_partition_order) matches Some(found) ==> {
                &&& highest is Some
                &&& (order == highest->Some_0 || order + 1 == highest->Some_0 || order == 0) && (
                method == RiceMethod::FourBit || estimated_parameter(residuals) > 14)
                    ==> encoding_cost(found) <= encoding_cost(
                    partitioned(residuals, predictor_order, order, method),
                )
            }
        }),
        best_encoding(residuals, predictor_order, max_partition_order) is None
            ==> highest_valid_order(
            residuals.len() + predictor_order,
            predictor_order,
            smaller(max_partition_order, 8),
        ) is None,
{
    let block = residuals.len() + predictor_order;
    let candidates = encoding_candidates(residuals, predictor_order, max_partition_order);
    let costs = encoding_costs(candidates);
    let orders = partition_orders(block, predictor_order, max_partition_order);
    let methods = rice_methods(residuals);
    let count = methods.len() as int;
    assert(orders.len() == 0 ==> orders.len() * methods.len() == 0);
    assert(orders.len() >= 1 ==> orders.len() * methods.len() >= 1) by (nonlinear_arith)
        requires
            methods.len() >= 1,
    ;
    if best_encoding(residuals, predictor_order, max_partition_order) is Some {
        law_cheapest_is_first_minimum(costs);
        let highest = highest_valid_order(block, predictor_order, smaller(max_partition_order, 8));
        law_highest_partition_order_is_the_highest(
            block,
            predictor_order,
            smaller(max_partition_order, 8),
            0,
        );
        if (order == highest->Some_0 || order + 1 == highest->Some_0 || order == 0) && (method
            == RiceMethod::FourBit || estimated_parameter(residuals) > 14) {
            let row: int = if order == highest->Some_0 {
                0
            } else if order + 1 == highest->Some_0 {
                1
            } else {
                orders.len() - 1
            };
            let column: int = if method == RiceMethod::FourBit {
                0
            } else {
                1
            };
            assert(orders[row] == order);
            assert(methods[column] == method);
            let place = row * count + column;
            assert(0 <= place < orders.len() * methods.len() && place / count == row && place
                % count == column) by (nonlinear_arith)
                requires
                    0 <= row < orders.len(),
                    0 <= column < count,
                    count == methods.len(),
                    1 <= count <= 2,
                    place == row * count + column,
            ;
            assert(candidates[place] == partitioned(residuals, predictor_order, order, method));
            assert(costs[place] == encoding_cost(candidates[place]));
        }
    }
}

/// Where the level allows it, a stereo frame stores mean and difference exactly if they are
/// smaller than left and right.
pub proof fn law_stereo_is_stored_as_the_smaller_pair(interleaved: Seq<i32>, use_mid_side: bool)
    ensures
        ({
            let left = channel_of(interleaved, 2, 0);
            let right = channel_of(interleaved, 2, 1);
            let mean = mid_of(left, right);
            let difference = side_of(left, right);
            let stored = stereo_signals(interleaved, use_mid_side);
            let apart = magnitude_cost(left) + magnitude_cost(right);
            let together = magnitude_cost(mean) + magnitude_cost(difference);
            &&& stored.signals.len() == 2
            &&& stored.assignment == ChannelAssignment::MidSide <==> use_mid_side && together < apart
            &&& stored.assignment == ChannelAssignment::MidSide ==> stored.signals[0] == mean
                && stored.signals[1] == difference
            &&& stored.assignment != ChannelAssignment::MidSide ==> stored.assignment
                == ChannelAssignment::IndependentStereo && stored.signals[0] == left
                && stored.signals[1] == right
            &&& use_mid_side ==> magnitude_cost(stored.signals[0]) + magnitude_cost(
                stored.signals[1],
            ) <= apart
            &&& use_mid_side ==> magnitude_cost(stored.signals[0]) + magnitude_cost(
                stored.signals[1],
            ) <= together
        }),
{
}

/// A residual can be coded exactly if its folded number has 31 bits at most.
pub proof fn law_coded_residuals_fold_into_31_bits(residual: int)
    ensures
        is_encodable(residual) <==> folded(residual) < 0x8000_0000,
{
}

/// The parameters that are tried end with the guessed one, or the largest of the method, and
/// start with zero where the guess is small; those of five bits are tried exactly if the guess
/// does not fit in those of four.
pub proof fn law_tried_parameters_are_around_the_guess(residuals: Seq<i32>, method: RiceMethod)
    ensures
        ({
            let guess = estimated_parameter(residuals);
            let tried = rice_parameters(residuals, method);
            let largest: int = if method == RiceMethod::FourBit {
                14
            } else {
                30
            };
            &&& 1 <= tried.len() <= 2
            &&& guess <= largest ==> tried.last() == guess
            &&& guess > largest ==> tried.last() == largest
            &&& tried.len() == 2 <==> 1 <= guess <= 2
            &&& tried.len() == 2 ==> tried[0] == 0
            &&& rice_methods(residuals)[0] == RiceMethod::FourBit
            &&& rice_methods(residuals).contains(RiceMethod::FiveBit) <==> guess > 14
        }),
{
    if residuals.len() == 0 {
        assert(folded_mean(residuals) == 0);
    }
    let methods = rice_methods(residuals);
    if estimated_parameter(residuals) > 14 {
        assert(methods[1] == RiceMethod::FiveBit);
    }
}

/// The width of residuals that are stored as they are is the least in which all of them fit,
/// and 31 bits at most.
pub proof fn law_escape_widths_are_the_least(residuals: Seq<i32>, width: u8)
    ensures
        escape_width(residuals) == Some(width) ==> width <= 31 && width_suffices(
            residuals,
            width as nat,
        ),
        escape_width(residuals) matches Some(least) && width < least ==> !width_suffices(
            residuals,
            width as nat,
        ),
        width <= 31 && width_suffices(residuals, width as nat) ==> (escape_width(residuals)
            matches Some(least) && least <= width),
{
    if width <= 31 && width_suffices(residuals, width as nat) {
        lemma_least_width(residuals, width);
    }
    if let Some(found) = escape_width(residuals) {
        assert(is_least_width(residuals, found));
        if width <= 31 && width_suffices(residuals, width as nat) && width < found {
            assert(!width_suffices(residuals, width as nat));
        }
    }
}

} // verus!
