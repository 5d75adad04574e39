//! When encoding a frame succeeds.

use vstd::arithmetic::power2::{lemma_pow2_strictly_increases, lemma_pow2_unfold};
use vstd::prelude::*;

use crate::bits::fits_signed;
use crate::frame::{analysis_of, channel_of, encoded_frame, lemma_whole_frames, predictors_for, signals_of};
use crate::frame_header::{bit_depth_code, channel_widths, coded_value, frame_header, sample_rate_field, width_at, FrameHeaderNumber, MAX_CHANNELS};
use crate::level::LevelProfile;
use crate::prediction::{residuals_of, PredictorView, MAX_FLAC_LPC_ORDER};
use crate::reading::{is_candidate, is_fixed_candidate, lemma_best_partition_is_readable, lemma_best_subframe_is_candidate, partition_is_readable};
use crate::residual::{best_encoding, lemma_best_encoding, lemma_partition_slice, partition_slice, value_fits, MAX_BLOCK_SIZE};
use crate::rice::{all_fit, encoding_is_writable, partition_is_writable, PartitionView, RiceMethod};
use crate::subframe::{predictors_are_valid, subframe_is_writable, widened, LpcPredictors, LpcView};
use crate::subframe_search::{best_subframe, fixed_candidate, lpc_candidate, partition_order_limit, unpredicted};

verus! {

proof fn lemma_readable_is_writable(partition: PartitionView, method: RiceMethod)
    requires
        partition_is_readable(partition, method),
    ensures
        partition_is_writable(partition, method),
{
    vstd::arithmetic::power2::lemma2_to64();
    match partition {
        PartitionView::Rice { .. } => {},
        PartitionView::Escape { bits, residuals } => {
            assert forall|i: int| bits > 0 && 0 <= i < residuals.len() implies fits_signed(
                #[trigger] residuals[i] as int,
                bits as nat,
            ) by {
                assert(value_fits(residuals[i] as int, bits as nat));
            }
        },
    }
}

/// The chosen coding of a residual can be written.
proof fn lemma_best_encoding_is_writable(
    residuals: Seq<i32>,
    predictor_order: nat,
    max_partition_order: nat,
)
    requires
        residuals.len() + predictor_order <= MAX_BLOCK_SIZE,
    ensures
        best_encoding(residuals, predictor_order, max_partition_order) matches Some(encoding)
            ==> encoding_is_writable(encoding),
{
    lemma_best_encoding(residuals, predictor_order, max_partition_order);
    let found = best_encoding(residuals, predictor_order, max_partition_order);
    if found is Some {
        let encoding = found.unwrap();
        vstd::arithmetic::power2::lemma2_to64();
        assert forall|i: int| 0 <= i < encoding.partitions.len() implies partition_is_writable(
            #[trigger] encoding.partitions[i],
            encoding.method,
        ) by {
            let slice = partition_slice(
                residuals,
                predictor_order,
                encoding.partition_order as nat,
                i,
            );
            lemma_partition_slice(residuals, predictor_order, encoding.partition_order as nat, i);
            lemma_best_partition_is_readable(slice, encoding.method);
            lemma_readable_is_writable(encoding.partitions[i], encoding.method);
        }
    }
}

proof fn lemma_prefix_fits(samples: Seq<i32>, count: int, width: nat)
    requires
        all_fit(samples, width),
        0 <= count <= samples.len(),
    ensures
        all_fit(samples.take(count), width),
{
    assert forall|i: int| 0 <= i < count implies fits_signed(
        #[trigger] samples.take(count)[i] as int,
        width,
    ) by {
        assert(fits_signed(samples[i] as int, width));
    }
}

/// The subframe that is chosen for samples of a width can be written with it.
pub proof fn law_chosen_subframe_is_writable(
    samples: Seq<i32>,
    bits_per_sample: nat,
    sample_rate: u32,
    profile: LevelProfile,
    predictors: Seq<Option<LpcView>>,
)
    requires
        1 <= samples.len() <= MAX_BLOCK_SIZE,
        bits_per_sample <= 32,
        all_fit(samples, bits_per_sample),
        predictors_are_valid(predictors),
    ensures
        subframe_is_writable(
            best_subframe(samples, bits_per_sample, sample_rate, profile, predictors),
            bits_per_sample,
        ),
{
    let subframe = best_subframe(samples, bits_per_sample, sample_rate, profile, predictors);
    let limit = partition_order_limit(profile);
    lemma_best_subframe_is_candidate(samples, bits_per_sample, sample_rate, profile, predictors);
    reveal(is_candidate);
    vstd::arithmetic::power2::lemma2_to64();
    if subframe == unpredicted(samples) {
        assert(fits_signed(samples[0] as int, bits_per_sample));
    } else if is_fixed_candidate(subframe, samples, limit) {
        let order = choose|order: u8|
            order <= 4 && order <= samples.len() && #[trigger] fixed_candidate(
                samples,
                order,
                limit,
            ) == Some(subframe);
        let residuals = residuals_of(
            samples,
            PredictorView::Fixed { order: order as nat },
        ).unwrap();
        lemma_best_encoding_is_writable(residuals, order as nat, limit);
        lemma_prefix_fits(samples, order as int, bits_per_sample);
    } else {
        let (order, predictor) = choose|order: u8, predictor: LpcView|
            1 <= order <= MAX_FLAC_LPC_ORDER && order <= samples.len() && predictor.is_valid(
                order as nat,
            ) && #[trigger] lpc_candidate(samples, order, predictor, limit) == Some(subframe);
        let residuals = residuals_of(
            samples,
            PredictorView::Lpc {
                coefficients: predictor.coefficients,
                shift: predictor.shift as nat,
            },
        ).unwrap();
        lemma_best_encoding_is_writable(residuals, order as nat, limit);
        lemma_prefix_fits(samples, order as int, bits_per_sample);
        let wide = widened(predictor.coefficients);
        assert forall|i: int| 0 <= i < wide.len() implies fits_signed(
            #[trigger] wide[i] as int,
            predictor.precision as nat,
        ) by {
            assert(-16383 <= predictor.coefficients[i] <= 16383);
        }
    }
}

/// Encoding succeeds for whole frames of one to eight channels and at most 65535 samples
/// of a width and rate that a frame header can carry. In 32 bits there is no room for a
/// side channel.
pub proof fn law_valid_frames_encode(
    interleaved: Seq<i32>,
    channels: u8,
    bits_per_sample: u8,
    sample_rate: u32,
    number: FrameHeaderNumber,
    profile: LevelProfile,
    predictors: Seq<LpcPredictors>,
)
    requires
        interleaved.len() > 0,
        1 <= channels <= MAX_CHANNELS,
        interleaved.len() % (channels as nat) == 0,
        interleaved.len() / (channels as nat) <= MAX_BLOCK_SIZE,
        all_fit(interleaved, bits_per_sample as nat),
        bit_depth_code(bits_per_sample) is Some,
        bits_per_sample < 32 || channels != 2 || !profile.use_mid_side_stereo,
        sample_rate_field(sample_rate) is Some,
        coded_value(number) < 0x10_0000_0000,
        forall|i: int| 0 <= i < predictors.len() ==> predictors_are_valid(#[trigger] predictors[i]@),
    ensures
        encoded_frame(
            interleaved,
            channels,
            bits_per_sample,
            sample_rate,
            number,
            profile,
            predictors,
        ) is Ok,
{
    reveal(frame_header);
    let split = signals_of(interleaved, channels, profile)->Ok_0;
    let widths = channel_widths(split.assignment, bits_per_sample as nat);
    lemma_signals_fit(interleaved, channels, bits_per_sample, profile);
    lemma_whole_frames(interleaved.len() as int, channels as int);
    let analysis = analysis_of(
        interleaved,
        channels,
        bits_per_sample,
        sample_rate,
        profile,
        predictors,
    )->Ok_0;
    assert forall|i: int| 0 <= i < analysis.subframes.len() implies subframe_is_writable(
        #[trigger] analysis.subframes[i],
        width_at(widths, i),
    ) by {
        assert(all_fit(split.signals[i], width_at(widths, i)));
        law_chosen_subframe_is_writable(
            split.signals[i],
            width_at(widths, i),
            sample_rate,
            profile,
            predictors_for(predictors, i),
        );
    }
}

proof fn lemma_signals_fit(
    interleaved: Seq<i32>,
    channels: u8,
    bits_per_sample: u8,
    profile: LevelProfile,
)
    requires
        1 <= channels <= MAX_CHANNELS,
        1 <= bits_per_sample <= 32,
        bits_per_sample < 32 || channels != 2 || !profile.use_mid_side_stereo,
        all_fit(interleaved, bits_per_sample as nat),
        signals_of(interleaved, channels, profile) is Ok,
    ensures
        ({
            let split = signals_of(interleaved, channels, profile)->Ok_0;
            let widths = channel_widths(split.assignment, bits_per_sample as nat);
            &&& forall|i: int|
                0 <= i < split.signals.len() ==> all_fit(
                    #[trigger] split.signals[i],
                    width_at(widths, i),
                )
            &&& widths.0 <= 32
            &&& widths.1 <= 32
        }),
{
    let split = signals_of(interleaved, channels, profile)->Ok_0;
    let width = bits_per_sample as nat;
    let widths = channel_widths(split.assignment, width);
    let count = (interleaved.len() / (channels as nat)) as int;
    lemma_pow2_unfold(width);
    lemma_pow2_unfold(width + 1);
    if channels == 2 && width < 32 {
        vstd::arithmetic::power2::lemma2_to64();
        if width < 31 {
            lemma_pow2_strictly_increases(width, 31);
        }
    }
    assert forall|channel: int| 0 <= channel < split.signals.len() implies all_fit(
        #[trigger] split.signals[channel],
        width_at(widths, channel),
    ) by {
        assert forall|i: int| 0 <= i < split.signals[channel].len() implies fits_signed(
            #[trigger] split.signals[channel][i] as int,
            width_at(widths, channel),
        ) by {
            let place = i * (channels as int);
            assert(split.signals[channel].len() == count);
            assert(0 <= place && place + channels <= interleaved.len()) by (nonlinear_arith)
                requires
                    0 <= i,
                    i + 1 <= interleaved.len() / (channels as nat),
                    channels > 0,
                    place == i * (channels as int),
            ;
            if channels == 2 {
                let left = channel_of(interleaved, 2, 0)[i];
                let right = channel_of(interleaved, 2, 1)[i];
                assert(left == interleaved[place]);
                assert(right == interleaved[place + 1]);
                assert(fits_signed(interleaved[place] as int, width));
                assert(fits_signed(interleaved[place + 1] as int, width));
            } else {
                assert(split.signals[channel][i] == interleaved[place + channel]);
                assert(fits_signed(interleaved[place + channel] as int, width));
            }
        }
    }
}

} // verus!
