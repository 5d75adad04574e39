//! What a reader of FLAC streams gets back of what was encoded.

use vstd::arithmetic::div_mod::{lemma_div_by_multiple, lemma_mod_multiples_basic};
use vstd::arithmetic::mul::{lemma_mul_inequality, lemma_mul_is_associative, lemma_mul_is_distributive_add_other_way};
use vstd::prelude::*;

use crate::bits::fits_signed;
use crate::bytes::{be_bytes, law_be_bytes_read_back, lemma_byte_ranges};
use crate::aiff_round_trip::{lemma_be_bytes_len, lemma_fitting_samples_are_stored};
use crate::byte_reader::bytes_at;
use crate::config::{DecodeSettings, EncoderSettings};
use crate::convenience::{input_is_fit, is_encoding_of, reader_options};
use crate::decode::mask_is_trusted;
use crate::decode_output::{digest_agrees, is_decoded_at_once, streamed_outcome, whole_frames};
use crate::encode_frames::{all_predictors_are_valid, lemma_part_difference, planned_frame_bytes, planned_frames, predictors_of_frame, samples_of_frame, FrameView};
use crate::encode_pipeline::{info_after, joined_frames};
use crate::encoder::{declared_digest, flac_frames, flac_stream, lemma_digest_len, plan_view, policy_for, EncodeSummary};
use crate::error::{ErrorView, Result};
use crate::flac_bytes::{decode_options, decoded_bytes, decoded_file};
use crate::flac_reader::{contents_spec, flac_contents, frame_matches, frames_from, stream_format, stream_mask, FlacContents};
use crate::flac_writer::blocks_bytes;
use crate::frame::AnalysisView;
use crate::frame_decoding::{decoded_front, signals_fit};
use crate::frame_header::MAX_CHANNELS;
use crate::frame_reading::{law_encoded_frame_reads_back, read_front};
use crate::input::{input_contents, InputContents};
use crate::input_laws::{described, holds_its_samples, is_container_of, law_written_files_are_inputs, lemma_encoded_session, lemma_no_blocks};
use crate::lossless::{frame_samples, frame_signal};
use crate::md5::{digest_envelope, streaminfo_digest};
use crate::metadata::{emitted, empty_metadata, flac_block_views, MetadataView};
use crate::pcm::{container_bits, encoded_samples, ByteOrder, PcmEnvelope, PcmSpec};
use crate::pcm_output::{container_file, output_family, OutputFamily};
use crate::plan::{block_offset, blocks_total, header_number, lemma_next_offset, lemma_offsets_grow, plan_failure, planned_blocks, planned_frame, planned_info, PlanView};
use crate::recompress::FlacReaderOptions;
use crate::recompress_laws::{is_plain_block, lemma_blocks_read_back, lemma_stream_start, taken};
use crate::restoring::lemma_narrow_samples;
use crate::rice::all_fit;
use crate::stream_info::{info_fits, info_numbers, info_word, lemma_word, read_info, InfoFields, StreamInfo};
use crate::stream_laws::{law_chunking_does_not_matter, lemma_frame_of_stream, session_is_faithful};
use crate::subframe::LpcPredictors;
use crate::wav_reader::WavReaderOptions;

verus! {

/// What a description has to say of a stream for its frames to match.
pub open spec fn describes(info: InfoFields, plan: PlanView) -> bool {
    &&& info.sample_rate == plan.spec.sample_rate
    &&& info.channels == plan.spec.channels
    &&& info.bits_per_sample == plan.spec.bits_per_sample
}

/// A frame is not empty: it ends with a check.
proof fn lemma_frame_is_long(
    plan: PlanView,
    predictors: Seq<Vec<LpcPredictors>>,
    samples: Seq<i32>,
    index: int,
)
    ensures
        planned_frame_bytes(plan, samples, 0, predictors, index) matches Ok(bytes) ==> bytes.len()
            >= 2,
{
    reveal_with_fuel(be_bytes, 3);
}

/// A frame that was encoded is decoded to the samples that were put into it, whatever
/// follows.
proof fn lemma_frame_decodes(
    plan: PlanView,
    predictors: Seq<Vec<LpcPredictors>>,
    samples: Seq<i32>,
    index: int,
    bytes: Seq<u8>,
    rest: Seq<u8>,
    info: InfoFields,
)
    requires
        session_is_faithful(plan, predictors, samples),
        0 <= index < plan.blocks.len(),
        planned_frame_bytes(plan, samples, 0, predictors, index) == Ok::<Seq<u8>, ErrorView>(bytes),
        describes(info, plan),
    ensures
        ({
            let part = samples_of_frame(plan, samples, 0, index);
            &&& decoded_front(bytes + rest, stream_format(info)) matches Some((header, found, end))
            &&& frame_matches(header, info)
            &&& found == part
            &&& end == bytes.len()
            &&& all_fit(part, info.bits_per_sample)
        }),
{
    let channels = plan.spec.channels as int;
    let offset = block_offset(plan.blocks, index) as int;
    let size = plan.blocks[index] as int;
    let frame = planned_frame(plan.blocks, plan.variable, index);
    let part = samples_of_frame(plan, samples, 0, index);
    lemma_next_offset(plan.blocks, index);
    lemma_offsets_grow(plan.blocks, index + 1, plan.blocks.len() as int);
    lemma_mul_is_distributive_add_other_way(channels, offset, size);
    lemma_mul_inequality(offset + size, blocks_total(plan.blocks) as int, channels);
    assert(offset * channels >= 0 && size * channels >= 1) by (nonlinear_arith)
        requires
            offset >= 0,
            size >= 1,
            channels >= 1,
    ;
    if channels == 2 && plan.effort.use_mid_side_stereo {
        lemma_part_difference(samples, offset, size);
        assert(part == samples.subrange(offset * 2, offset * 2 + size * 2));
    }
    assert forall|i: int| 0 <= i < part.len() implies fits_signed(
        #[trigger] part[i] as int,
        info.bits_per_sample,
    ) by {
        assert(part[i] == samples[offset * channels + i]);
    }
    let found = predictors_of_frame(predictors, index);
    assert forall|i: int| 0 <= i < found.len() implies crate::subframe::predictors_are_valid(
        #[trigger] found[i]@,
    ) by {
        assert(found[i] == predictors[index]@[i]);
    }
    law_encoded_frame_reads_back(
        part,
        plan.spec.channels,
        plan.spec.bits_per_sample,
        plan.spec.sample_rate,
        header_number(frame.coded_number_kind, frame.coded_number),
        plan.effort,
        found,
        rest,
        stream_format(info),
    );
    let (header, subframes, end) = read_front(bytes + rest, stream_format(info)).unwrap();
    let analysis = AnalysisView {
        block_size: header.block_size as u16,
        channel_assignment: header.assignment,
        subframes,
    };
    assert(frame_signal(header.assignment, subframes, header.block_size) == frame_samples(analysis));
    lemma_narrow_samples(part);
    assert(signals_fit(subframes, header.block_size));
}

/// The bytes of frames start with the bytes of the first of them.
proof fn lemma_joined_front(frames: Seq<FrameView>, count: int)
    requires
        0 <= count < frames.len(),
    ensures
        ({
            let front = joined_frames(frames.take(count));
            let more = front + frames[count].bytes;
            &&& joined_frames(frames.take(count + 1)) == more
            &&& more.len() <= joined_frames(frames).len()
            &&& joined_frames(frames).take(more.len() as int) == more
        }),
    decreases frames.len(),
{
    assert(frames.take(count + 1).drop_last() == frames.take(count));
    let all = joined_frames(frames);
    let more = joined_frames(frames.take(count)) + frames[count].bytes;
    if count == frames.len() - 1 {
        assert(frames.take(count + 1) == frames);
        assert(all.take(more.len() as int) == all);
    } else {
        lemma_joined_front(frames.drop_last(), count);
        assert(frames.drop_last().take(count) == frames.take(count));
        let earlier = joined_frames(frames.drop_last());
        assert(all.take(more.len() as int) == earlier.take(more.len() as int));
    }
}

/// Where a frame starts.
spec fn frame_start(start: nat, frames: Seq<FrameView>, index: int) -> nat {
    start + joined_frames(frames.take(index)).len()
}

/// What stands behind a place in a stream: a frame and what stands behind it.
proof fn lemma_frame_place(frames: Seq<FrameView>, stream: Seq<u8>, start: nat, index: int)
    requires
        start <= stream.len(),
        stream.skip(start as int) == joined_frames(frames),
        0 <= index < frames.len(),
    ensures
        ({
            let position = frame_start(start, frames, index);
            let next = frame_start(start, frames, index + 1);
            let bytes = frames[index].bytes;
            &&& next == position + bytes.len()
            &&& next <= stream.len()
            &&& stream.skip(position as int) == bytes + stream.skip(next as int)
        }),
{
    lemma_joined_front(frames, index);
    let position = frame_start(start, frames, index);
    let next = frame_start(start, frames, index + 1);
    let bytes = frames[index].bytes;
    let joined = joined_frames(frames);
    let front = joined_frames(frames.take(index));
    let behind = stream.skip(position as int);
    let rest = stream.skip(next as int);
    assert forall|i: int| 0 <= i < behind.len() implies behind[i] == (bytes + rest)[i] by {
        assert(stream[position + i] == stream.skip(start as int)[front.len() + i]);
        if i < bytes.len() {
            assert(joined.take((front + bytes).len() as int)[front.len() + i] == joined[front.len()
                + i]);
        }
    }
    assert(behind == bytes + rest);
}

/// One frame more.
proof fn lemma_one_frame(
    stream: Seq<u8>,
    position: nat,
    info: InfoFields,
    bytes: Seq<u8>,
    part: Seq<i32>,
    rest: Seq<i32>,
    frames: nat,
)
    requires
        position < stream.len(),
        bytes.len() > 0,
        decoded_front(stream.skip(position as int), stream_format(info)) matches Some((header, found, end))
            && frame_matches(header, info) && found == part && end == bytes.len(),
        all_fit(part, info.bits_per_sample),
        frames_from(stream, position + bytes.len(), info) == Ok::<(Seq<i32>, nat), ErrorView>(
            (rest, frames),
        ),
    ensures
        frames_from(stream, position, info) == Ok::<(Seq<i32>, nat), ErrorView>(
            (part + rest, frames + 1),
        ),
{
}

/// The samples of a block and of those behind it.
proof fn lemma_part_and_rest(plan: PlanView, samples: Seq<i32>, index: int)
    requires
        0 <= index < plan.blocks.len(),
        blocks_total(plan.blocks) * plan.spec.channels <= samples.len(),
        plan.spec.channels >= 1,
    ensures
        ({
            let channels = plan.spec.channels as int;
            let first = block_offset(plan.blocks, index) * channels;
            let second = block_offset(plan.blocks, index + 1) * channels;
            let last = blocks_total(plan.blocks) * channels;
            samples_of_frame(plan, samples, 0, index) + samples.subrange(second, last)
                == samples.subrange(first, last)
        }),
{
    let channels = plan.spec.channels as int;
    let offset = block_offset(plan.blocks, index) as int;
    let size = plan.blocks[index] as int;
    let total = blocks_total(plan.blocks) as int;
    lemma_next_offset(plan.blocks, index);
    lemma_offsets_grow(plan.blocks, index + 1, plan.blocks.len() as int);
    lemma_mul_is_distributive_add_other_way(channels, offset, size);
    lemma_mul_inequality(offset + size, total, channels);
    assert(offset * channels >= 0 && size * channels >= 0) by (nonlinear_arith)
        requires
            offset >= 0,
            size >= 0,
            channels >= 1,
    ;
    let first = offset * channels;
    let second = (offset + size) * channels;
    let last = total * channels;
    assert(samples_of_frame(plan, samples, 0, index) == samples.subrange(first, second));
    assert(samples.subrange(first, second) + samples.subrange(second, last) == samples.subrange(
        first,
        last,
    ));
}

/// All frames decode, from a frame on.
spec fn rest_decodes(
    plan: PlanView,
    samples: Seq<i32>,
    frames: Seq<FrameView>,
    stream: Seq<u8>,
    start: nat,
    info: InfoFields,
    index: int,
) -> bool {
    let channels = plan.spec.channels as int;
    let first = block_offset(plan.blocks, index) * channels;
    let last = blocks_total(plan.blocks) * channels;
    frames_from(stream, frame_start(start, frames, index), info) == Ok::<
        (Seq<i32>, nat),
        ErrorView,
    >((samples.subrange(first, last), (frames.len() - index) as nat))
}

/// The frames of a stream are decoded one after the other.
proof fn lemma_frames_decode(
    plan: PlanView,
    predictors: Seq<Vec<LpcPredictors>>,
    samples: Seq<i32>,
    frames: Seq<FrameView>,
    stream: Seq<u8>,
    start: nat,
    info: InfoFields,
    index: int,
)
    requires
        session_is_faithful(plan, predictors, samples),
        frames.len() == plan.blocks.len(),
        forall|i: int|
            0 <= i < frames.len() ==> planned_frame_bytes(
                plan,
                samples,
                0,
                predictors,
                i,
            ) == Ok::<Seq<u8>, ErrorView>((#[trigger] frames[i]).bytes),
        start <= stream.len(),
        stream.skip(start as int) == joined_frames(frames),
        describes(info, plan),
        0 <= index <= frames.len(),
    ensures
        rest_decodes(plan, samples, frames, stream, start, info, index),
    decreases frames.len() - index,
{
    let position = frame_start(start, frames, index);
    if index == frames.len() {
        assert(frames.take(index) == frames);
        assert(plan.blocks.take(index) == plan.blocks);
        let last = blocks_total(plan.blocks) * plan.spec.channels;
        assert(last >= 0) by (nonlinear_arith)
            requires
                last == blocks_total(plan.blocks) * plan.spec.channels,
                blocks_total(plan.blocks) >= 0,
                plan.spec.channels >= 0,
        ;
        assert(samples.subrange(last, last) == Seq::<i32>::empty());
    } else {
        let bytes = frames[index].bytes;
        let next = frame_start(start, frames, index + 1);
        lemma_frame_place(frames, stream, start, index);
        lemma_frame_is_long(plan, predictors, samples, index);
        lemma_frame_decodes(
            plan,
            predictors,
            samples,
            index,
            bytes,
            stream.skip(next as int),
            info,
        );
        lemma_frames_decode(plan, predictors, samples, frames, stream, start, info, index + 1);
        lemma_part_and_rest(plan, samples, index);
        let channels = plan.spec.channels as int;
        lemma_one_frame(
            stream,
            position,
            info,
            bytes,
            samples_of_frame(plan, samples, 0, index),
            samples.subrange(
                block_offset(plan.blocks, index + 1) * channels,
                blocks_total(plan.blocks) * channels,
            ),
            (frames.len() - index - 1) as nat,
        );
    }
}

/// The frames behind a place in a stream are decoded to the samples of the plan.
pub proof fn lemma_stream_frames_decode(
    plan: PlanView,
    predictors: Seq<Vec<LpcPredictors>>,
    samples: Seq<i32>,
    frames: Seq<FrameView>,
    stream: Seq<u8>,
    start: nat,
    info: InfoFields,
)
    requires
        session_is_faithful(plan, predictors, samples),
        planned_frames(plan, samples, 0, predictors, 0, plan.blocks.len() as int) == Ok::<
            Seq<FrameView>,
            ErrorView,
        >(frames),
        start <= stream.len(),
        stream.skip(start as int) == joined_frames(frames),
        describes(info, plan),
    ensures
        frames.len() == plan.blocks.len(),
        frames_from(stream, start, info) == Ok::<(Seq<i32>, nat), ErrorView>(
            (samples.take(blocks_total(plan.blocks) * plan.spec.channels), frames.len()),
        ),
{
    lemma_frames_planned(plan, predictors, samples, frames, plan.blocks.len() as int);
    lemma_frames_decode(plan, predictors, samples, frames, stream, start, info, 0);
    assert(frames.take(0) == Seq::<FrameView>::empty());
    assert(plan.blocks.take(0) == Seq::<u16>::empty());
    assert(0 * (plan.spec.channels as int) == 0);
    let last = blocks_total(plan.blocks) * plan.spec.channels;
    assert(samples.subrange(0, last) == samples.take(last));
}

/// Frames do not change the rate, the channels, the width and the length of a stream.
pub proof fn lemma_info_after(info: StreamInfo, frames: Seq<FrameView>)
    ensures
        ({
            let after = info_after(info, frames);
            &&& after.sample_rate == info.sample_rate
            &&& after.channels == info.channels
            &&& after.bits_per_sample == info.bits_per_sample
            &&& after.total_samples == info.total_samples
        }),
    decreases frames.len(),
{
    if frames.len() > 0 {
        lemma_info_after(info, frames.drop_last());
    }
}

/// The numbers of a STREAMINFO payload, and the digest behind them.
pub proof fn lemma_info_reads(info: StreamInfo, digest: Seq<u8>)
    requires
        info_fits(info),
        digest.len() == 16,
    ensures
        ({
            let payload = info_numbers(info) + digest;
            let found = read_info(payload);
            &&& payload.len() == 34
            &&& found.sample_rate == info.sample_rate
            &&& found.channels == info.channels
            &&& found.bits_per_sample == info.bits_per_sample
            &&& found.total_samples == info.total_samples
            &&& found.md5 == digest
        }),
{
    let payload = info_numbers(info) + digest;
    let word = be_bytes(info_word(info), 8);
    lemma_word(info);
    lemma_byte_ranges();
    law_be_bytes_read_back(info_word(info), 8);
    lemma_be_bytes_len(info.min_block_size as nat, 2);
    lemma_be_bytes_len(info.max_block_size as nat, 2);
    lemma_be_bytes_len(info.min_frame_size as nat, 3);
    lemma_be_bytes_len(info.max_frame_size as nat, 3);
    lemma_be_bytes_len(info_word(info), 8);
    assert(payload.subrange(10, 18) == word);
    assert(payload.skip(18) == digest);
}

/// The metadata of a container reach a reader of its stream, who takes them as `carried`:
/// the blocks that are written can be read, and their speaker positions are trusted.
pub open spec fn metadata_is_carried(
    contents: InputContents,
    options: FlacReaderOptions,
    carried: MetadataView,
) -> bool {
    let total = contents.spec.total_samples;
    let blocks = flac_block_views(contents.metadata, total);
    &&& forall|i: int| 0 <= i < blocks.len() ==> is_plain_block(#[trigger] blocks[i])
    &&& taken(
        blocks,
        blocks.len(),
        total,
        options.strict_seektable_validation,
        contents.spec.channels,
    ) == Ok::<MetadataView, ErrorView>(carried)
    &&& mask_is_trusted(
        carried,
        restored_spec(contents.spec, carried),
        options.strict_channel_mask_provenance,
    )
}

/// A container without metadata has none to carry.
pub proof fn law_no_metadata_are_carried(contents: InputContents, options: FlacReaderOptions)
    requires
        contents.metadata == empty_metadata(),
        1 <= contents.spec.channels <= MAX_CHANNELS,
    ensures
        metadata_is_carried(contents, options, empty_metadata()),
{
    lemma_no_blocks(contents.spec.total_samples);
}

/// What a reader finds in the stream that was made of a container.
pub open spec fn is_stream_of(
    found: FlacContents,
    contents: InputContents,
    carried: MetadataView,
    frames: nat,
) -> bool {
    &&& found.samples == contents.samples
    &&& found.metadata == carried
    &&& found.frames == frames
    &&& found.info.sample_rate == contents.spec.sample_rate
    &&& found.info.channels == contents.spec.channels
    &&& found.info.bits_per_sample == contents.spec.bits_per_sample
    &&& found.info.total_samples == contents.spec.total_samples
    &&& found.info.md5 == declared_digest(contents.spec, contents.samples)
}

/// A stream of planned frames reads back.
proof fn lemma_stream_reads_back(
    contents: InputContents,
    settings: EncoderSettings,
    predictors: Seq<Vec<LpcPredictors>>,
    frames: Seq<FrameView>,
    options: FlacReaderOptions,
    carried: MetadataView,
)
    requires
        holds_its_samples(contents),
        plan_failure(contents.spec, settings) is None,
        metadata_is_carried(contents, options, carried),
        session_is_faithful(plan_view(contents.spec, settings), predictors, contents.samples),
        blocks_total(plan_view(contents.spec, settings).blocks) == contents.spec.total_samples,
        planned_frames(
            plan_view(contents.spec, settings),
            contents.samples,
            0,
            predictors,
            0,
            plan_view(contents.spec, settings).blocks.len() as int,
        ) == Ok::<Seq<FrameView>, ErrorView>(frames),
    ensures
        ({
            let stream = flac_stream(
                contents.spec,
                settings,
                contents.metadata,
                declared_digest(contents.spec, contents.samples),
                frames,
            );
            flac_contents(stream, options) matches Ok(found) && is_stream_of(
                found,
                contents,
                carried,
                frames.len(),
            )
        }),
{
    let spec = contents.spec;
    let plan = plan_view(spec, settings);
    let samples = contents.samples;
    let digest = declared_digest(spec, samples);
    let start = planned_info(
        spec,
        planned_blocks(spec.total_samples as nat, settings),
        settings.block_schedule is Some,
        settings.block_size,
    );
    let info = info_after(start, frames);
    let joined = joined_frames(frames);
    let stream = flac_stream(spec, settings, contents.metadata, digest, frames);
    let blocks = flac_block_views(contents.metadata, spec.total_samples);
    let strict = options.strict_seektable_validation;
    lemma_info_after(start, frames);
    lemma_digest_len(
        encoded_samples(
            samples.take(spec.total_samples * spec.channels),
            digest_envelope(spec),
            ByteOrder::Little,
        )->Ok_0,
    );
    lemma_stream_start(info, digest, blocks, joined);
    lemma_info_reads(info, digest);
    let fields = read_info(bytes_at(stream, 8, 34));
    assert(describes(fields, plan));
    let written = blocks_bytes(blocks, blocks.len());
    let place = 42 + written.len();
    assert(stream.skip(place as int) == joined) by {
        assert(stream.skip(place as int) == stream.skip(42).skip(written.len() as int));
        assert((written + joined).skip(written.len() as int) == joined);
    }
    lemma_stream_frames_decode(plan, predictors, samples, frames, stream, place, fields);
    assert(samples.take(samples.len() as int) == samples);
    if blocks.len() > 0 {
        assert(blocks_bytes(blocks, 0).len() == 0);
        lemma_blocks_read_back(
            blocks,
            stream,
            42,
            joined,
            spec.total_samples,
            strict,
            0,
            empty_metadata(),
            spec.channels,
        );
    }
    lemma_div_by_multiple(spec.total_samples as int, spec.channels as int);
}

/// The frames of a plan are those that were planned one by one.
proof fn lemma_frames_planned(
    plan: PlanView,
    predictors: Seq<Vec<LpcPredictors>>,
    samples: Seq<i32>,
    frames: Seq<FrameView>,
    end: int,
)
    requires
        0 <= end,
        planned_frames(plan, samples, 0, predictors, 0, end) == Ok::<Seq<FrameView>, ErrorView>(
            frames,
        ),
    ensures
        frames.len() == end,
        forall|i: int|
            0 <= i < end ==> planned_frame_bytes(plan, samples, 0, predictors, i) == Ok::<
                Seq<u8>,
                ErrorView,
            >((#[trigger] frames[i]).bytes),
{
    assert forall|i: int| 0 <= i < end implies planned_frame_bytes(
        plan,
        samples,
        0,
        predictors,
        i,
    ) == Ok::<Seq<u8>, ErrorView>((#[trigger] frames[i]).bytes) by {
        lemma_frame_of_stream(plan, predictors, samples, end, i);
    }
    if end > 0 {
        lemma_frame_of_stream(plan, predictors, samples, end, 0);
    }
}

/// What a container holds is decoded from the stream that was made of it: the same
/// samples, with the container's rate, channels, width and length, their digest, and the
/// metadata that the stream carries.
pub proof fn law_encoded_inputs_decode(
    bytes: Seq<u8>,
    contents: InputContents,
    settings: EncoderSettings,
    predictors: Seq<Vec<LpcPredictors>>,
    after: Seq<u8>,
    summary: Result<EncodeSummary>,
    options: FlacReaderOptions,
    carried: MetadataView,
)
    requires
        input_contents(bytes, 0, reader_options(settings)) == Ok::<InputContents, ErrorView>(contents),
        input_is_fit(bytes, settings),
        all_predictors_are_valid(predictors),
        is_encoding_of(contents, settings, predictors, after, summary),
        summary is Ok,
        metadata_is_carried(contents, options, carried),
    ensures
        flac_contents(after, options) matches Ok(found) && is_stream_of(
            found,
            contents,
            carried,
            plan_view(contents.spec, settings).blocks.len(),
        ),
{
    lemma_encoded_session(bytes, contents, settings, predictors, after, summary);
    let plan = plan_view(contents.spec, settings);
    let policy = policy_for((None, None));
    let frames = flac_frames(
        contents.spec,
        settings,
        (None, None),
        contents.metadata,
        contents.samples,
        predictors,
    )->Ok_0;
    law_chunking_does_not_matter(plan, policy, predictors, contents.samples);
    lemma_stream_reads_back(contents, settings, predictors, frames, options, carried);
    lemma_frames_planned(
        plan,
        predictors,
        contents.samples,
        frames,
        plan.blocks.len() as int,
    );
    let made = flac_stream(
        contents.spec,
        settings,
        contents.metadata,
        declared_digest(contents.spec, contents.samples),
        frames,
    );
    assert(Seq::<u8>::empty() + made == made);
}

/// A file whose samples came piece by piece is the file that is written at once.
pub proof fn lemma_streamed_is_whole(
    family: OutputFamily,
    spec: PcmSpec,
    md5: Seq<u8>,
    metadata: MetadataView,
    samples: Seq<i32>,
)
    requires
        samples.len() == spec.total_samples * spec.channels,
        samples.len() * 4 <= usize::MAX,
    ensures
        streamed_outcome(family, spec, md5, metadata, samples) matches Ok(file) ==> container_file(
            family,
            spec,
            samples,
            metadata,
        ) == Ok::<Seq<u8>, ErrorView>(file),
        (streaminfo_digest(spec, samples) matches Ok(digest) && digest_agrees(md5, digest))
            ==> (container_file(family, spec, samples, metadata) matches Ok(file)
            ==> streamed_outcome(family, spec, md5, metadata, samples) == Ok::<Seq<u8>, ErrorView>(
            file,
        )),
{
    if streamed_outcome(family, spec, md5, metadata, samples) is Ok || container_file(
        family,
        spec,
        samples,
        metadata,
    ) is Ok {
        let channels = spec.channels as int;
        let width = (container_bits(spec.bits_per_sample as u16) / 8) as int;
        assert(channels >= 1);
        lemma_mul_is_associative(spec.total_samples as int, channels, width);
        lemma_mod_multiples_basic(spec.total_samples as int, channels);
        lemma_div_by_multiple(spec.total_samples as int, channels);
        assert(samples.len() * width <= samples.len() * 4) by (nonlinear_arith)
            requires
                width <= 4,
                samples.len() >= 0,
        ;
    }
}

/// The description that a stream of a container's samples gives: its speaker positions are
/// those that its metadata name, or else those of convention.
pub open spec fn restored_spec(spec: PcmSpec, carried: MetadataView) -> PcmSpec {
    PcmSpec {
        bytes_per_sample: (container_bits(spec.bits_per_sample as u16) / 8) as u16,
        channel_mask: stream_mask(carried, spec.channels as nat),
        ..spec
    }
}

proof fn lemma_restored_spec(
    found: FlacContents,
    contents: InputContents,
    carried: MetadataView,
    frames: nat,
)
    requires
        is_stream_of(found, contents, carried, frames),
        holds_its_samples(contents),
    ensures
        contents_spec(found) == restored_spec(contents.spec, carried),
{
    lemma_div_by_multiple(contents.spec.total_samples as int, contents.spec.channels as int);
}

/// A container comes back from its stream: the file that the stream is decoded to is the
/// file of the container's samples, and a reader of it gets those samples.
pub proof fn law_decoded_files_hold_the_input(
    bytes: Seq<u8>,
    contents: InputContents,
    settings: EncoderSettings,
    predictors: Seq<Vec<LpcPredictors>>,
    after: Seq<u8>,
    summary: Result<EncodeSummary>,
    decode: DecodeSettings,
    carried: MetadataView,
    again: WavReaderOptions,
)
    requires
        input_contents(bytes, 0, reader_options(settings)) == Ok::<InputContents, ErrorView>(
            contents,
        ),
        input_is_fit(bytes, settings),
        all_predictors_are_valid(predictors),
        is_encoding_of(contents, settings, predictors, after, summary),
        summary is Ok,
        metadata_is_carried(contents, decode_options(decode), carried),
        8 * after.len() <= usize::MAX,
        contents.samples.len() * 4 <= usize::MAX,
        decoded_bytes(after, decode) matches Ok(file) ==> file.len() + 64 <= u64::MAX,
    ensures
        ({
            let spec = restored_spec(contents.spec, carried);
            let family = output_family(decode.output_container);
            let metadata = emitted(carried, decode.emit_fxmd);
            let whole = container_file(family, spec, contents.samples, metadata);
            &&& is_decoded_at_once(spec.total_samples) ==> decoded_bytes(after, decode) == whole
            &&& whole is Ok ==> decoded_bytes(after, decode) == whole
            &&& decoded_bytes(after, decode) matches Ok(file) ==> {
                &&& whole == Ok::<Seq<u8>, ErrorView>(file)
                &&& is_container_of(
                    file,
                    again,
                    described(family, spec, contents.samples.len()),
                    contents.samples,
                )
            }
        }),
{
    lemma_encoded_session(bytes, contents, settings, predictors, after, summary);
    law_encoded_inputs_decode(
        bytes,
        contents,
        settings,
        predictors,
        after,
        summary,
        decode_options(decode),
        carried,
    );
    let found = flac_contents(after, decode_options(decode))->Ok_0;
    let frames = plan_view(contents.spec, settings).blocks.len();
    let metadata = emitted(carried, decode.emit_fxmd);
    lemma_restored_file(found, contents, carried, frames, decode);
    lemma_written_file(
        output_family(decode.output_container),
        restored_spec(contents.spec, carried),
        contents.samples,
        metadata,
        again,
    );
}

/// A file is a container with the samples that went into it.
pub proof fn lemma_written_file(
    family: OutputFamily,
    spec: PcmSpec,
    samples: Seq<i32>,
    metadata: MetadataView,
    options: WavReaderOptions,
)
    requires
        spec.sample_rate > 0,
        all_fit(samples, spec.bits_per_sample as nat),
    ensures
        container_file(family, spec, samples, metadata) matches Ok(file) ==> file.len() + 64
            <= u64::MAX ==> is_container_of(
            file,
            options,
            described(family, spec, samples.len()),
            samples,
        ),
{
    if let Ok(file) = container_file(family, spec, samples, metadata) {
        if file.len() + 64 <= u64::MAX {
            law_written_files_are_inputs(family, spec, samples, metadata, options);
        }
    }
}

/// The file that a stream is decoded to is the file of its container's samples.
proof fn lemma_restored_file(
    found: FlacContents,
    contents: InputContents,
    carried: MetadataView,
    frames: nat,
    decode: DecodeSettings,
)
    requires
        is_stream_of(found, contents, carried, frames),
        holds_its_samples(contents),
        1 <= contents.spec.bits_per_sample <= 32,
        contents.samples.len() * 4 <= usize::MAX,
    ensures
        ({
            let spec = restored_spec(contents.spec, carried);
            let family = output_family(decode.output_container);
            let metadata = emitted(carried, decode.emit_fxmd);
            let whole = container_file(family, spec, contents.samples, metadata);
            &&& is_decoded_at_once(spec.total_samples) ==> decoded_file(found, decode) == whole
            &&& whole is Ok ==> decoded_file(found, decode) == whole
            &&& decoded_file(found, decode) matches Ok(file) ==> whole == Ok::<
                Seq<u8>,
                ErrorView,
            >(file)
        }),
{
    let spec = restored_spec(contents.spec, carried);
    let family = output_family(decode.output_container);
    let metadata = emitted(carried, decode.emit_fxmd);
    let samples = contents.samples;
    lemma_restored_spec(found, contents, carried, frames);
    lemma_digest_of_all(contents, carried);
    lemma_div_by_multiple(spec.total_samples as int, spec.channels as int);
    assert(samples.take(samples.len() as int) == samples);
    assert(whole_frames(samples, spec.channels) == samples);
    lemma_streamed_is_whole(family, spec, found.info.md5, metadata, samples);
}

/// The digest that a stream declares is that of all samples of its container.
proof fn lemma_digest_of_all(contents: InputContents, carried: MetadataView)
    requires
        holds_its_samples(contents),
        1 <= contents.spec.bits_per_sample <= 32,
    ensures
        streaminfo_digest(restored_spec(contents.spec, carried), contents.samples) == Ok::<
            Seq<u8>,
            ErrorView,
        >(declared_digest(contents.spec, contents.samples)),
{
    let spec = contents.spec;
    let samples = contents.samples;
    assert(samples.take(samples.len() as int) == samples);
    lemma_fitting_samples_are_stored(samples, digest_envelope(spec), ByteOrder::Little);
    let other = restored_spec(spec, carried);
    lemma_fitting_samples_are_stored(samples, digest_envelope(other), ByteOrder::Little);
    lemma_mask_does_not_matter(samples, digest_envelope(spec), digest_envelope(other));
}

/// How samples are stored does not depend on the speaker positions.
proof fn lemma_mask_does_not_matter(samples: Seq<i32>, left: PcmEnvelope, right: PcmEnvelope)
    requires
        right == (PcmEnvelope { channel_mask: right.channel_mask, ..left }),
    ensures
        encoded_samples(samples, left, ByteOrder::Little) == encoded_samples(
            samples,
            right,
            ByteOrder::Little,
        ),
    decreases samples.len(),
{
    if samples.len() > 0 {
        lemma_mask_does_not_matter(samples.drop_last(), left, right);
    }
}

} // verus!
