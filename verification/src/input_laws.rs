//! What holds of the contents of containers, and of the streams made from them.

use vstd::arithmetic::div_mod::{lemma_div_by_multiple, lemma_fundamental_div_mod, lemma_mod_bound};
use vstd::arithmetic::mul::{lemma_mul_inequality, lemma_mul_is_associative, lemma_mul_is_commutative};
use vstd::prelude::*;

use crate::aiff::{aiff_layout, FORM_ID};
use crate::aiff_reader::lemma_layout_is_storable;
use crate::aiff_round_trip::law_aiff_file_reads_back;
use crate::bits::fits_signed;
use crate::byte_reader::{bytes_at, end_of_file};
use crate::caf::CAF_MAGIC;
use crate::caf_reader::{caf_contents, lemma_contents_descriptor};
use crate::caf_round_trip::{law_caf_file_reads_back, read_mask};
use crate::config::EncoderSettings;
use crate::convenience::{input_is_fit, is_encoding_of, reader_options};
use crate::cuesheet::{is_normalized, law_normalized_points_are_unique, normalized_points};
use crate::encode_frames::{all_predictors_are_valid, samples_of_frame, FrameView};
use crate::encode_pipeline::is_ended_early;
use crate::encoder::{declared_digest, flac_frames, flac_stream, has_more_frames, lemma_session_len, plan_view, policy_for, EncodeSummary};
use crate::error::{ErrorView, Result};
use crate::flac_writer::blocks_fit;
use crate::frame::{channel_of, difference_fits, AnalysisView};
use crate::frame_header::{bit_depth_code, sample_rate_field, MAX_CHANNELS};
use crate::frame_reading::read_frame;
use crate::input::{input_contents, input_kind, InputContents, PcmInputKind};
use crate::level::profile_of;
use crate::lossless::frame_samples;
use crate::metadata::{empty_metadata, flac_block_views, wide_points, MetadataView};
use crate::pcm::{law_stored_samples_fit, ByteOrder, PcmEnvelope, PcmSpec};
use crate::pcm_output::{container_file, OutputFamily};
use crate::plan::{blocks_total, law_blocks_cover_the_stream, plan_failure};
use crate::prediction::ints;
use crate::raw::{mask_or_zero, order_of, raw_envelope};
use crate::rice::all_fit;
use crate::sample_source::{bytes_from, frame_size, held_samples, is_storable, lemma_complete_source};
use crate::stream_laws::{law_chunking_does_not_matter, law_streams_are_lossless, law_valid_sessions_encode, lemma_session_has_samples, session_is_faithful};
use crate::subframe::LpcPredictors;
use crate::wav::{wav_layout, RF64_ID, RIFF_ID, WAVE64_RIFF_GUID};
use crate::wav_reader::{wav_contents, wav_envelope, WavReaderOptions};
use crate::wav_round_trip::{law_wav_file_reads_back, named_spec};

verus! {

/// Samples that bytes hold fit in their valid width.
proof fn lemma_held_samples_fit(
    bytes: Seq<u8>,
    frames: nat,
    envelope: PcmEnvelope,
    order: ByteOrder,
)
    requires
        is_storable(envelope),
    ensures
        all_fit(
            held_samples(bytes, frames, envelope, order),
            envelope.valid_bits_per_sample as nat,
        ),
        frames * frame_size(envelope) <= bytes.len() ==> held_samples(
            bytes,
            frames,
            envelope,
            order,
        ).len() == frames * envelope.channels,
{
    law_stored_samples_fit(bytes, envelope, order);
    if frames * frame_size(envelope) <= bytes.len() {
        law_stored_samples_fit(
            bytes.take((frames * frame_size(envelope)) as int),
            envelope,
            order,
        );
        lemma_complete_source(bytes, frames, envelope, order, 0);
    }
}

/// What a container hands out fits in the width that it declares, and a complete
/// container holds the samples of all declared frames.
pub proof fn law_input_samples_fit(bytes: Seq<u8>, position: nat, options: WavReaderOptions)
    ensures
        input_contents(bytes, position, options) matches Ok(contents) ==> {
            &&& contents.spec.channels >= 1
            &&& all_fit(contents.samples, contents.spec.bits_per_sample as nat)
            &&& contents.is_complete ==> contents.samples.len() == contents.spec.total_samples
                * contents.spec.channels
        },
{
    if let Ok(contents) = input_contents(bytes, position, options) {
        match input_kind(bytes, position) {
            PcmInputKind::AiffLike => {
                let layout = aiff_layout(bytes, position)->Ok_0;
                lemma_layout_is_storable(bytes, position);
                lemma_held_samples_fit(
                    bytes_from(bytes, layout.data_offset as nat),
                    layout.total_samples as nat,
                    layout.envelope,
                    layout.byte_order,
                );
            },
            PcmInputKind::Caf => {
                let (parsed, frames) = caf_contents(bytes, position)->Ok_0;
                let envelope = raw_envelope(parsed.descriptor)->Ok_0;
                lemma_held_samples_fit(
                    bytes_from(bytes, parsed.data_offset as nat),
                    frames as nat,
                    envelope,
                    order_of(parsed.descriptor.byte_order),
                );
            },
            PcmInputKind::RiffLike => {
                let layout = wav_contents(bytes, position, options)->Ok_0.0;
                lemma_held_samples_fit(
                    bytes_from(bytes, layout.data_offset),
                    layout.frames as nat,
                    wav_envelope(layout),
                    ByteOrder::Wave,
                );
            },
        }
    }
}

/// Samples of less than 32 bits have differences that fit.
pub proof fn lemma_narrow_differences(samples: Seq<i32>, width: nat)
    requires
        width < 32,
        all_fit(samples, width),
    ensures
        difference_fits(samples),
{
    vstd::arithmetic::power2::lemma2_to64();
    if width >= 1 && width < 31 {
        vstd::arithmetic::power2::lemma_pow2_strictly_increases((width - 1) as nat, 30);
    }
    let left = channel_of(samples, 2, 0);
    let right = channel_of(samples, 2, 1);
    assert forall|i: int| 0 <= i < samples.len() / 2 implies i32::MIN <= #[trigger] left[i]
        - right[i] <= i32::MAX by {
        assert(fits_signed(samples[i * 2 + 0] as int, width));
        assert(fits_signed(samples[i * 2 + 1] as int, width));
    }
}

/// A container has what success takes: one to eight channels of a width and a rate that frame
/// headers can hold, no sample missing, and settings that suit it. In stereo of 32 bits
/// no differences are taken.
pub open spec fn encoding_is_owed(
    contents: InputContents,
    settings: EncoderSettings,
    predictors: Seq<Vec<LpcPredictors>>,
) -> bool {
    let spec = contents.spec;
    &&& contents.is_complete
    &&& plan_failure(spec, settings) is None
    &&& 1 <= spec.channels <= MAX_CHANNELS
    &&& spec.total_samples * spec.channels <= usize::MAX
    &&& bit_depth_code(spec.bits_per_sample) is Some
    &&& spec.bits_per_sample < 32 || spec.channels != 2 || !profile_of(
        settings.level,
    ).use_mid_side_stereo
    &&& sample_rate_field(spec.sample_rate) is Some
    &&& all_predictors_are_valid(predictors)
    &&& blocks_fit(flac_block_views(contents.metadata, spec.total_samples))
}

/// A container holds samples of its width, and all that it declares.
pub open spec fn holds_its_samples(contents: InputContents) -> bool {
    &&& contents.spec.channels >= 1
    &&& all_fit(contents.samples, contents.spec.bits_per_sample as nat)
    &&& contents.samples.len() == contents.spec.total_samples * contents.spec.channels
}

/// No metadata make no blocks.
pub proof fn lemma_no_blocks(total_samples: u64)
    ensures
        flac_block_views(empty_metadata(), total_samples).len() == 0,
{
    let points = wide_points(empty_metadata().cue_points);
    assert(points == Seq::<u64>::empty());
    assert(is_normalized(points, points, total_samples));
    law_normalized_points_are_unique(
        points,
        normalized_points(points, total_samples),
        points,
        total_samples,
    );
}

/// A container with as many samples as it declares is complete.
proof fn lemma_all_samples_are_there(bytes: Seq<u8>, position: nat, options: WavReaderOptions)
    ensures
        input_contents(bytes, position, options) matches Ok(contents) ==> contents.samples.len()
            >= contents.spec.total_samples * contents.spec.channels ==> contents.is_complete,
{
    if let Ok(contents) = input_contents(bytes, position, options) {
        if contents.samples.len() >= contents.spec.total_samples * contents.spec.channels {
            match input_kind(bytes, position) {
                PcmInputKind::AiffLike => {
                    let layout = aiff_layout(bytes, position)->Ok_0;
                    lemma_layout_is_storable(bytes, position);
                    lemma_held_is_complete(
                        bytes_from(bytes, layout.data_offset as nat),
                        layout.total_samples as nat,
                        layout.envelope,
                        layout.byte_order,
                    );
                },
                PcmInputKind::Caf => {
                    let (parsed, frames) = caf_contents(bytes, position)->Ok_0;
                    let envelope = raw_envelope(parsed.descriptor)->Ok_0;
                    lemma_held_is_complete(
                        bytes_from(bytes, parsed.data_offset as nat),
                        frames as nat,
                        envelope,
                        order_of(parsed.descriptor.byte_order),
                    );
                },
                PcmInputKind::RiffLike => {
                    let layout = wav_contents(bytes, position, options)->Ok_0.0;
                    lemma_held_is_complete(
                        bytes_from(bytes, layout.data_offset),
                        layout.frames as nat,
                        wav_envelope(layout),
                        ByteOrder::Wave,
                    );
                },
            }
        }
    }
}

/// A container that was encoded is complete, and its samples can be taken out of the frames
/// again.
pub proof fn lemma_encoded_session(
    bytes: Seq<u8>,
    contents: InputContents,
    settings: EncoderSettings,
    predictors: Seq<Vec<LpcPredictors>>,
    after: Seq<u8>,
    summary: Result<EncodeSummary>,
)
    requires
        input_contents(bytes, 0, reader_options(settings)) == Ok::<InputContents, ErrorView>(
            contents,
        ),
        input_is_fit(bytes, settings),
        all_predictors_are_valid(predictors),
        is_encoding_of(contents, settings, predictors, after, summary),
        summary is Ok,
    ensures
        contents.is_complete,
        holds_its_samples(contents),
        plan_failure(contents.spec, settings) is None,
        flac_frames(
            contents.spec,
            settings,
            (None, None),
            contents.metadata,
            contents.samples,
            predictors,
        ) is Ok,
        session_is_faithful(plan_view(contents.spec, settings), predictors, contents.samples),
        blocks_total(plan_view(contents.spec, settings).blocks) == contents.spec.total_samples,
{
    let spec = contents.spec;
    let plan = plan_view(spec, settings);
    let options = reader_options(settings);
    law_input_samples_fit(bytes, 0, options);
    law_blocks_cover_the_stream(spec, settings);
    assert(plan.blocks.take(plan.blocks.len() as int) == plan.blocks);
    if plan.blocks.len() > 0 {
        assert(plan.blocks.take(0) == Seq::<u16>::empty());
        assert(0 * (spec.channels as int) == 0);
        lemma_session_has_samples(
            plan,
            policy_for((None, None)),
            predictors,
            contents.samples,
            0,
        );
    } else {
        assert(spec.total_samples * spec.channels == 0) by (nonlinear_arith)
            requires
                spec.total_samples == 0,
        ;
    }
    lemma_all_samples_are_there(bytes, 0, options);
    if spec.bits_per_sample < 32 {
        lemma_narrow_differences(contents.samples, spec.bits_per_sample as nat);
    }
}

/// The frames of a container are encoded.
pub proof fn lemma_frames_are_owed(
    contents: InputContents,
    settings: EncoderSettings,
    predictors: Seq<Vec<LpcPredictors>>,
)
    requires
        holds_its_samples(contents),
        encoding_is_owed(contents, settings, predictors),
    ensures
        flac_frames(
            contents.spec,
            settings,
            (None, None),
            contents.metadata,
            contents.samples,
            predictors,
        ) is Ok,
        !has_more_frames(contents.spec, contents.samples.len()),
{
    let spec = contents.spec;
    let plan = plan_view(spec, settings);
    law_blocks_cover_the_stream(spec, settings);
    assert(spec.total_samples < 0x10_0000_0000);
    law_valid_sessions_encode(plan, policy_for((None, None)), predictors, contents.samples);
    assert(contents.samples.len() < (spec.total_samples + 1) * spec.channels) by (nonlinear_arith)
        requires
            contents.samples.len() == spec.total_samples * spec.channels,
            spec.channels >= 1,
    ;
}

/// Success is owed to a readable container.
pub proof fn law_readable_inputs_encode(
    bytes: Seq<u8>,
    contents: InputContents,
    settings: EncoderSettings,
    predictors: Seq<Vec<LpcPredictors>>,
    after: Seq<u8>,
    summary: Result<EncodeSummary>,
)
    requires
        input_contents(bytes, 0, reader_options(settings)) == Ok::<InputContents, ErrorView>(contents),
        encoding_is_owed(contents, settings, predictors),
        is_encoding_of(contents, settings, predictors, after, summary),
    ensures
        summary is Ok,
{
    law_input_samples_fit(bytes, 0, reader_options(settings));
    lemma_frames_are_owed(contents, settings, predictors);
}

/// A container that lacks samples is not encoded. Where all its samples could be counted, the
/// error is that of the frames that cannot be encoded, or the end of the bytes if that comes
/// first.
pub proof fn law_incomplete_inputs_fail(
    bytes: Seq<u8>,
    contents: InputContents,
    settings: EncoderSettings,
    predictors: Seq<Vec<LpcPredictors>>,
    after: Seq<u8>,
    summary: Result<EncodeSummary>,
)
    requires
        input_contents(bytes, 0, reader_options(settings)) == Ok::<InputContents, ErrorView>(
            contents,
        ),
        !contents.is_complete,
        is_encoding_of(contents, settings, predictors, after, summary),
    ensures
        summary is Err,
        ({
            let outcome = flac_frames(
                contents.spec,
                settings,
                (None, None),
                contents.metadata,
                contents.samples,
                predictors,
            );
            &&& outcome is Err
            &&& contents.spec.total_samples * (contents.spec.channels
                * contents.spec.bytes_per_sample) <= usize::MAX ==> {
                let error = summary->Err_0@;
                error == outcome->Err_0 || (error == end_of_file() && is_ended_early(
                    outcome->Err_0,
                ))
            }
        }),
{
    let spec = contents.spec;
    let plan = plan_view(spec, settings);
    let options = reader_options(settings);
    law_input_samples_fit(bytes, 0, options);
    lemma_all_samples_are_there(bytes, 0, options);
    if flac_frames(
        spec,
        settings,
        (None, None),
        contents.metadata,
        contents.samples,
        predictors,
    ) is Ok {
        law_blocks_cover_the_stream(spec, settings);
        if plan.blocks.len() > 0 {
            assert(plan.blocks.take(0) == Seq::<u16>::empty());
            assert(0 * (spec.channels as int) == 0);
            lemma_session_has_samples(
                plan,
                policy_for((None, None)),
                predictors,
                contents.samples,
                0,
            );
        } else {
            assert(spec.total_samples * spec.channels == 0) by (nonlinear_arith)
                requires
                    spec.total_samples == 0,
            ;
        }
        assert(false);
    }
    lemma_shortage_is_end(bytes, 0, options);
}

/// An incomplete container breaks off at the end of its bytes.
proof fn lemma_shortage_is_end(bytes: Seq<u8>, position: nat, options: WavReaderOptions)
    ensures
        input_contents(bytes, position, options) matches Ok(contents) ==> !contents.is_complete
            && contents.spec.total_samples * (contents.spec.channels
            * contents.spec.bytes_per_sample) <= usize::MAX ==> contents.breaks_off == Some(
            end_of_file(),
        ),
{
    if input_contents(bytes, position, options) is Ok {
        match input_kind(bytes, position) {
            PcmInputKind::AiffLike => {
                lemma_layout_is_storable(bytes, position);
            },
            PcmInputKind::Caf => {
                lemma_contents_descriptor(bytes, position);
            },
            PcmInputKind::RiffLike => {},
        }
    }
}

/// A frame of a stream reads back as the samples that were put into it.
pub open spec fn frame_holds(
    contents: InputContents,
    settings: EncoderSettings,
    frames: Seq<FrameView>,
    index: int,
) -> bool {
    let plan = plan_view(contents.spec, settings);
    &&& read_frame(frames[index].bytes) matches Some((header, subframes))
    &&& header.sample_rate == contents.spec.sample_rate
    &&& header.bits_per_sample == contents.spec.bits_per_sample
    &&& frame_samples(
        AnalysisView {
            block_size: header.block_size as u16,
            channel_assignment: header.assignment,
            subframes,
        },
    ) == ints(samples_of_frame(plan, contents.samples, 0, index))
}

proof fn lemma_frames_hold(
    contents: InputContents,
    settings: EncoderSettings,
    predictors: Seq<Vec<LpcPredictors>>,
    frames: Seq<FrameView>,
)
    requires
        plan_failure(contents.spec, settings) is None,
        session_is_faithful(plan_view(contents.spec, settings), predictors, contents.samples),
        flac_frames(
            contents.spec,
            settings,
            (None, None),
            contents.metadata,
            contents.samples,
            predictors,
        ) == Ok::<Seq<FrameView>, ErrorView>(frames),
    ensures
        frames.len() == plan_view(contents.spec, settings).blocks.len(),
        forall|i: int|
            0 <= i < frames.len() ==> #[trigger] frame_holds(contents, settings, frames, i),
{
    let spec = contents.spec;
    let plan = plan_view(spec, settings);
    let policy = policy_for((None, None));
    law_blocks_cover_the_stream(spec, settings);
    law_chunking_does_not_matter(plan, policy, predictors, contents.samples);
    lemma_session_len(plan, policy, predictors, contents.samples);
    assert forall|i: int| 0 <= i < frames.len() implies #[trigger] frame_holds(
        contents,
        settings,
        frames,
        i,
    ) by {
        law_streams_are_lossless(plan, predictors, contents.samples, i);
    }
}

/// What a container holds comes back from the stream that was made of it: the stream has
/// a frame for each planned block, and each frame reads back as its part of the samples.
pub proof fn law_encoded_inputs_are_lossless(
    bytes: Seq<u8>,
    contents: InputContents,
    settings: EncoderSettings,
    predictors: Seq<Vec<LpcPredictors>>,
    after: Seq<u8>,
    summary: Result<EncodeSummary>,
)
    requires
        input_contents(bytes, 0, reader_options(settings)) == Ok::<InputContents, ErrorView>(contents),
        input_is_fit(bytes, settings),
        all_predictors_are_valid(predictors),
        is_encoding_of(contents, settings, predictors, after, summary),
        summary is Ok,
    ensures
        exists|frames: Seq<FrameView>|
            #![trigger flac_stream(
                contents.spec,
                settings,
                contents.metadata,
                declared_digest(contents.spec, contents.samples),
                frames,
            )]
            {
                &&& after == flac_stream(
                    contents.spec,
                    settings,
                    contents.metadata,
                    declared_digest(contents.spec, contents.samples),
                    frames,
                )
                &&& frames.len() == plan_view(contents.spec, settings).blocks.len()
                &&& forall|i: int|
                    0 <= i < frames.len() ==> #[trigger] frame_holds(contents, settings, frames, i)
            },
{
    lemma_encoded_session(bytes, contents, settings, predictors, after, summary);
    let frames = flac_frames(
        contents.spec,
        settings,
        (None, None),
        contents.metadata,
        contents.samples,
        predictors,
    )->Ok_0;
    lemma_frames_hold(contents, settings, predictors, frames);
    let made = flac_stream(
        contents.spec,
        settings,
        contents.metadata,
        declared_digest(contents.spec, contents.samples),
        frames,
    );
    assert(Seq::<u8>::empty() + made == made);
}

/// A file with a layout is told to be one.
proof fn lemma_layouts_are_told(bytes: Seq<u8>)
    ensures
        aiff_layout(bytes, 0) is Ok ==> input_kind(bytes, 0) == PcmInputKind::AiffLike,
        caf_contents(bytes, 0) is Ok ==> input_kind(bytes, 0) == PcmInputKind::Caf,
        wav_layout(bytes, 0) is Ok ==> input_kind(bytes, 0) == PcmInputKind::RiffLike,
{
    assert(RIFF_ID@[0] == 0x52 && RF64_ID@[0] == 0x52 && WAVE64_RIFF_GUID@[0] == 0x72);
    assert(FORM_ID@[0] == 0x46 && CAF_MAGIC@[0] == 0x63);
    if wav_layout(bytes, 0) is Ok {
        assert(bytes_at(bytes, 0, 4)[0] == bytes[0]);
        assert(bytes_at(bytes, 0, 16)[0] == bytes[0] || bytes.len() < 16);
    }
    assert(FORM_ID@[0] != CAF_MAGIC@[0]);
    if caf_contents(bytes, 0) is Ok {
        assert(bytes_at(bytes, 0, 4)[0] == CAF_MAGIC@[0]);
    }
}

/// Bytes that hold the samples of all frames are complete.
proof fn lemma_held_is_complete(
    bytes: Seq<u8>,
    frames: nat,
    envelope: PcmEnvelope,
    order: ByteOrder,
)
    requires
        is_storable(envelope),
        held_samples(bytes, frames, envelope, order).len() >= frames * envelope.channels,
    ensures
        frames * frame_size(envelope) <= bytes.len(),
{
    let width = (envelope.container_bits_per_sample / 8) as int;
    let count = frames * envelope.channels;
    if frames * frame_size(envelope) > bytes.len() {
        lemma_fundamental_div_mod(bytes.len() as int, width);
        lemma_mod_bound(bytes.len() as int, width);
        lemma_mul_is_associative(frames as int, envelope.channels as int, width);
        lemma_mul_is_commutative(width, count as int);
        lemma_mul_inequality(count as int, bytes.len() as int / width, width);
        lemma_mul_is_commutative(width, bytes.len() as int / width);
        assert(false);
    }
}

/// The description that a file of a family gives back: a RIFF/WAVE file names the speaker
/// positions of convention where there were none, and a CAF file names its layout only where
/// it has to, and counts the frames that it was given.
pub open spec fn described(family: OutputFamily, spec: PcmSpec, samples: nat) -> PcmSpec {
    match family {
        OutputFamily::Wave(_) => named_spec(spec),
        OutputFamily::Aiff(_) => spec,
        OutputFamily::Caf => PcmSpec {
            total_samples: (samples / (spec.channels as nat)) as u64,
            channel_mask: mask_or_zero(read_mask(spec)),
            ..spec
        },
    }
}

/// Bytes are a container of samples with a description, and none of them is missing.
pub open spec fn is_container_of(
    bytes: Seq<u8>,
    options: WavReaderOptions,
    spec: PcmSpec,
    samples: Seq<i32>,
) -> bool {
    &&& input_contents(bytes, 0, options) matches Ok(contents)
    &&& contents.spec == spec
    &&& contents.samples == samples
    &&& contents.is_complete
}

/// A file that was written is a container with the samples that went into it.
pub proof fn law_written_files_are_inputs(
    family: OutputFamily,
    spec: PcmSpec,
    samples: Seq<i32>,
    metadata: MetadataView,
    options: WavReaderOptions,
)
    requires
        spec.sample_rate > 0,
        all_fit(samples, spec.bits_per_sample as nat),
        container_file(family, spec, samples, metadata) matches Ok(file) ==> file.len() + 64
            <= u64::MAX,
    ensures
        container_file(family, spec, samples, metadata) matches Ok(file) ==> is_container_of(
            file,
            options,
            described(family, spec, samples.len()),
            samples,
        ),
{
    if let Ok(file) = container_file(family, spec, samples, metadata) {
        lemma_layouts_are_told(file);
        match family {
            OutputFamily::Wave(kind) => {
                law_wav_file_reads_back(kind, spec, samples, metadata, options);
            },
            OutputFamily::Aiff(container) => {
                law_aiff_file_reads_back(spec, samples, metadata, container);
            },
            OutputFamily::Caf => {
                law_caf_file_reads_back(spec, samples, metadata);
                lemma_contents_descriptor(file, 0);
                let (parsed, frames) = caf_contents(file, 0)->Ok_0;
                let envelope = raw_envelope(parsed.descriptor)->Ok_0;
                lemma_held_is_complete(
                    bytes_from(file, parsed.data_offset as nat),
                    frames as nat,
                    envelope,
                    order_of(parsed.descriptor.byte_order),
                );
                lemma_div_by_multiple(frames as int, spec.channels as int);
            },
        }
    }
}

} // verus!
