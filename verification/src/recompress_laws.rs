//! What recompression keeps.

use vstd::arithmetic::div_mod::{lemma_div_basics, lemma_div_by_multiple, lemma_div_is_ordered_by_denominator, lemma_fundamental_div_mod, lemma_mod_multiples_vanish, lemma_small_mod};
use vstd::arithmetic::mul::lemma_mul_is_commutative;
use vstd::prelude::*;

use crate::aiff_round_trip::{lemma_be_bytes_len, lemma_fitting_samples_are_stored};
use crate::byte_reader::{available, be_at, bytes_at};
use crate::bits::byte_bits;
use crate::bytes::{be_bytes, law_be_bytes_read_back, lemma_be_value_bound, lemma_byte_ranges};
use crate::config::DecodeSettings;
use crate::decode::mask_is_trusted;
use crate::decode_output::{digest_agrees, whole_frames};
use crate::encode_frames::{all_predictors_are_valid, planned_frames, FrameView};
use crate::encode_pipeline::{info_after, joined_frames};
use crate::encoder::{flac_stream, lemma_digest_len, plan_view};
use crate::error::ErrorView;
use crate::flac_bytes::{decode_options, decoded_bytes, decoded_file, recompress_encoder, recompress_options, recompressed_bytes, stream_is_refit};
use crate::flac_laws::{describes, lemma_info_after, lemma_info_reads, lemma_stream_frames_decode, lemma_streamed_is_whole, lemma_written_file};
use crate::flac_reader::{blocks_from, contents_spec, flac_contents, frame_matches, frames_from, law_decoded_samples_fit, stream_format, with_block, FlacContents};
use crate::flac_writer::{block_header, blocks_bytes, stream_bytes, stream_opening, FLAC_MARKER, MAX_BLOCK_PAYLOAD, STREAMINFO_LENGTH};
use crate::frame_decoding::decoded_front;
use crate::frame_header::{bit_depth_code, channel_count, sample_rate_field};
use crate::frame_reading::{read_channels, read_front, read_header, HeaderView, StreamFormat};
use crate::input_laws::{described, is_container_of, lemma_narrow_differences, lemma_no_blocks};
use crate::level::profile_of;
use crate::md5::{digest_envelope, streaminfo_digest};
use crate::metadata::{emitted, empty_metadata, flac_block_views, BlockView, MetadataView};
use crate::pcm::{encoded_samples, ByteOrder};
use crate::pcm_output::{container_file, output_family};
use crate::plan::{law_blocks_cover_the_stream, plan_failure, planned_blocks, planned_info};
use crate::recompress::{FlacReaderOptions, RecompressSettings};
use crate::stream_info::{info_fits, info_numbers, read_info, InfoFields, StreamInfo};
use crate::stream_laws::{law_valid_streams_encode, session_is_faithful};
use crate::subframe::LpcPredictors;
use crate::wav_reader::WavReaderOptions;

verus! {

/// What blocks add up to, one after the other.
pub open spec fn taken(blocks: Seq<BlockView>, count: nat, total_samples: u64, strict: bool, channels: u8)
    -> std::result::Result<MetadataView, ErrorView>
    decreases count,
{
    if count == 0 {
        Ok(empty_metadata())
    } else {
        match taken(blocks, (count - 1) as nat, total_samples, strict, channels) {
            Err(error) => Err(error),
            Ok(metadata) => with_block(
                metadata,
                blocks[count - 1].block_type,
                blocks[count - 1].payload,
                total_samples,
                strict,
                channels,
            ),
        }
    }
}

/// A block that can be written and read.
pub open spec fn is_plain_block(block: BlockView) -> bool {
    block.block_type < 128 && block.payload.len() < 0x100_0000
}

/// Metadata that were read keep their blocks, and are what these blocks add up to.
pub open spec fn keeps_blocks(metadata: MetadataView, total_samples: u64, strict: bool, channels: u8) -> bool {
    &&& forall|i: int|
        0 <= i < metadata.preserved.len() ==> is_plain_block(#[trigger] metadata.preserved[i])
    &&& taken(metadata.preserved, metadata.preserved.len(), total_samples, strict, channels) == Ok::<
        MetadataView,
        ErrorView,
    >(metadata)
}

/// Only the first blocks count.
proof fn lemma_taken_prefix(
    left: Seq<BlockView>,
    right: Seq<BlockView>,
    count: nat,
    total_samples: u64,
    strict: bool,
    channels: u8,
)
    requires
        count <= left.len(),
        count <= right.len(),
        forall|i: int| 0 <= i < count ==> left[i] == right[i],
    ensures
        taken(left, count, total_samples, strict, channels) == taken(right, count, total_samples, strict, channels),
    decreases count,
{
    if count > 0 {
        lemma_taken_prefix(left, right, (count - 1) as nat, total_samples, strict, channels);
        assert(left[count - 1] == right[count - 1]);
    }
}

/// One block more.
proof fn lemma_block_is_kept(
    metadata: MetadataView,
    block: BlockView,
    total_samples: u64,
    strict: bool,
    channels: u8,
)
    requires
        keeps_blocks(metadata, total_samples, strict, channels),
        is_plain_block(block),
    ensures
        with_block(
            metadata,
            block.block_type,
            block.payload,
            total_samples,
            strict,
            channels,
        ) matches Ok(found) ==> keeps_blocks(found, total_samples, strict, channels) && found.preserved
            == metadata.preserved.push(block),
{
    if let Ok(found) = with_block(
        metadata,
        block.block_type,
        block.payload,
        total_samples,
        strict,
        channels,
    ) {
        let blocks = metadata.preserved.push(block);
        assert(found.preserved == blocks);
        lemma_taken_prefix(
            blocks,
            metadata.preserved,
            metadata.preserved.len(),
            total_samples,
            strict,
            channels,
        );
        assert(blocks[blocks.len() - 1] == block);
    }
}

/// Metadata that are read from a stream keep their blocks.
proof fn lemma_read_keeps_blocks(
    bytes: Seq<u8>,
    position: nat,
    total_samples: u64,
    strict: bool,
    metadata: MetadataView,
    channels: u8,
)
    requires
        keeps_blocks(metadata, total_samples, strict, channels),
    ensures
        blocks_from(bytes, position, total_samples, strict, metadata, channels) matches Ok((found, _))
            ==> keeps_blocks(found, total_samples, strict, channels) && found.preserved.len() > 0,
    decreases
            if position <= bytes.len() {
                bytes.len() - position
            } else {
                0
            },
{
    if available(bytes, position, 4) {
        let size = be_at(bytes, position + 1, 3);
        lemma_byte_ranges();
        lemma_be_value_bound(bytes_at(bytes, position + 1, 3));
        if available(bytes, position + 4, size) {
            let block = BlockView {
                block_type: (bytes[position as int] % 128) as u8,
                payload: bytes_at(bytes, position + 4, size),
            };
            lemma_block_is_kept(metadata, block, total_samples, strict, channels);
            if let Ok(found) = with_block(
                metadata,
                block.block_type,
                block.payload,
                total_samples,
                strict,
                channels,
            ) {
                lemma_read_keeps_blocks(bytes, position + 4 + size, total_samples, strict, found, channels);
            }
        }
    }
}

/// The bytes of the first blocks.
proof fn lemma_blocks_front(blocks: Seq<BlockView>, count: nat, more: nat)
    requires
        count <= more <= blocks.len(),
    ensures
        blocks_bytes(blocks, count).len() <= blocks_bytes(blocks, more).len(),
        blocks_bytes(blocks, more).take(blocks_bytes(blocks, count).len() as int) == blocks_bytes(
            blocks,
            count,
        ),
    decreases more,
{
    let all = blocks_bytes(blocks, more);
    let front = blocks_bytes(blocks, count);
    if count == more {
        assert(all.take(front.len() as int) == front);
    } else {
        lemma_blocks_front(blocks, count, (more - 1) as nat);
        let earlier = blocks_bytes(blocks, (more - 1) as nat);
        assert(all.take(front.len() as int) == earlier.take(front.len() as int));
    }
}

/// What stands at the place of a block.
proof fn lemma_block_place(
    blocks: Seq<BlockView>,
    stream: Seq<u8>,
    start: nat,
    rest: Seq<u8>,
    index: nat,
)
    requires
        start <= stream.len(),
        stream.skip(start as int) == blocks_bytes(blocks, blocks.len()) + rest,
        index < blocks.len(),
        is_plain_block(blocks[index as int]),
    ensures
        ({
            let block = blocks[index as int];
            let position = start + blocks_bytes(blocks, index).len();
            let size = block.payload.len();
            &&& available(stream, position, 4)
            &&& stream[position as int] % 128 == block.block_type
            &&& stream[position as int] >= 128 <==> index == blocks.len() - 1
            &&& be_at(stream, position + 1, 3) == size
            &&& available(stream, position + 4, size)
            &&& bytes_at(stream, position + 4, size) == block.payload
            &&& start + blocks_bytes(blocks, index + 1).len() == position + 4 + size
        }),
{
    let block = blocks[index as int];
    let size = block.payload.len();
    let is_last = index + 1 == blocks.len();
    let header = block_header(block.block_type, is_last, size);
    let front = blocks_bytes(blocks, index);
    let position = start + front.len();
    let written = blocks_bytes(blocks, index + 1);
    let all = blocks_bytes(blocks, blocks.len());
    lemma_blocks_front(blocks, index + 1, blocks.len());
    lemma_be_bytes_len(size, 3);
    lemma_byte_ranges();
    law_be_bytes_read_back(size, 3);
    assert(header.len() == 4);
    assert(written == front + header + block.payload);
    let behind = stream.skip(start as int);
    assert(behind.len() == all.len() + rest.len());
    assert forall|i: int| 0 <= i < written.len() implies #[trigger] stream[start + i]
        == written[i] by {
        assert(stream[start + i] == behind[i]);
        assert(behind[i] == all[i]);
        assert(all.take(written.len() as int)[i] == all[i]);
    }
    assert(stream[start + (front.len() as int)] == written[front.len() as int]);
    assert(written[front.len() as int] == header[0]);
    assert(bytes_at(stream, position + 1, 3) == be_bytes(size, 3)) by {
        assert forall|i: int| 0 <= i < 3 implies bytes_at(stream, position + 1, 3)[i] == be_bytes(
            size,
            3,
        )[i] by {
            assert(stream[start + (front.len() + 1 + i)] == written[front.len() + 1 + i]);
            assert(written[front.len() + 1 + i] == header[1 + i]);
        }
    }
    assert(bytes_at(stream, position + 4, size) == block.payload) by {
        assert forall|i: int| 0 <= i < size implies bytes_at(stream, position + 4, size)[i]
            == block.payload[i] by {
            assert(stream[start + (front.len() + 4 + i)] == written[front.len() + 4 + i]);
            assert(written[front.len() + 4 + i] == block.payload[i]);
        }
    }
}

/// Blocks that were written are read back, from a block on.
pub proof fn lemma_blocks_read_back(
    blocks: Seq<BlockView>,
    stream: Seq<u8>,
    start: nat,
    rest: Seq<u8>,
    total_samples: u64,
    strict: bool,
    index: nat,
    metadata: MetadataView,
    channels: u8,
)
    requires
        start <= stream.len(),
        stream.skip(start as int) == blocks_bytes(blocks, blocks.len()) + rest,
        forall|i: int| 0 <= i < blocks.len() ==> is_plain_block(#[trigger] blocks[i]),
        index < blocks.len(),
        taken(blocks, index, total_samples, strict, channels) == Ok::<MetadataView, ErrorView>(metadata),
        taken(blocks, blocks.len(), total_samples, strict, channels) is Ok,
    ensures
        blocks_from(
            stream,
            start + blocks_bytes(blocks, index).len(),
            total_samples,
            strict,
            metadata,
            channels,
        ) == Ok::<(MetadataView, nat), ErrorView>(
            (
                taken(blocks, blocks.len(), total_samples, strict, channels)->Ok_0,
                start + blocks_bytes(blocks, blocks.len()).len(),
            ),
        ),
    decreases blocks.len() - index,
{
    lemma_block_place(blocks, stream, start, rest, index);
    lemma_taken_stops(blocks, index + 1, blocks.len(), total_samples, strict, channels);
    let found = taken(blocks, index + 1, total_samples, strict, channels)->Ok_0;
    if index + 1 < blocks.len() {
        lemma_blocks_read_back(
            blocks,
            stream,
            start,
            rest,
            total_samples,
            strict,
            index + 1,
            found,
            channels,
        );
    }
}

/// Blocks that add up to something do so from the first of them on.
proof fn lemma_taken_stops(
    blocks: Seq<BlockView>,
    count: nat,
    more: nat,
    total_samples: u64,
    strict: bool,
    channels: u8,
)
    requires
        count <= more,
        taken(blocks, more, total_samples, strict, channels) is Ok,
    ensures
        taken(blocks, count, total_samples, strict, channels) is Ok,
    decreases more,
{
    if count < more {
        lemma_taken_stops(blocks, count, (more - 1) as nat, total_samples, strict, channels);
    }
}

/// What was read of a stream keeps the stream's blocks.
proof fn lemma_contents_keep_blocks(bytes: Seq<u8>, options: FlacReaderOptions)
    ensures
        flac_contents(bytes, options) matches Ok(contents) ==> {
            &&& keeps_blocks(
                contents.metadata,
                contents.info.total_samples as u64,
                options.strict_seektable_validation,
                contents.info.channels as u8,
            )
            &&& contents.metadata.preserved.len() == 0 ==> contents.metadata == empty_metadata()
        },
{
    if flac_contents(bytes, options) is Ok && bytes[4] < 128 {
        let info = read_info(bytes_at(bytes, 8, 34));
        lemma_read_keeps_blocks(
            bytes,
            42,
            info.total_samples as u64,
            options.strict_seektable_validation,
            empty_metadata(),
            info.channels as u8,
        );
    }
}

/// What a stream with metadata starts with.
pub proof fn lemma_stream_start(
    info: StreamInfo,
    digest: Seq<u8>,
    blocks: Seq<BlockView>,
    frames: Seq<u8>,
)
    requires
        info_fits(info),
        digest.len() == 16,
    ensures
        ({
            let stream = stream_bytes(info, digest, blocks, frames);
            &&& stream.len() >= 42
            &&& bytes_at(stream, 0, 4) == FLAC_MARKER@
            &&& stream[4] == if blocks.len() == 0 {
                128u8
            } else {
                0u8
            }
            &&& be_at(stream, 5, 3) == STREAMINFO_LENGTH
            &&& bytes_at(stream, 8, 34) == info_numbers(info) + digest
            &&& stream.skip(42) == blocks_bytes(blocks, blocks.len()) + frames
        }),
{
    let stream = stream_bytes(info, digest, blocks, frames);
    let payload = info_numbers(info) + digest;
    let size = be_bytes(STREAMINFO_LENGTH as nat, 3);
    let written = blocks_bytes(blocks, blocks.len());
    lemma_info_reads(info, digest);
    lemma_byte_ranges();
    law_be_bytes_read_back(STREAMINFO_LENGTH as nat, 3);
    lemma_be_bytes_len(STREAMINFO_LENGTH as nat, 3);
    let opening = stream_opening(blocks.len());
    assert(opening.len() == 8);
    assert(stream == opening + payload + (written + frames));
    assert(bytes_at(stream, 0, 4) == FLAC_MARKER@);
    assert(bytes_at(stream, 5, 3) == size);
    assert(bytes_at(stream, 8, 34) == payload);
    assert(stream.skip(42) == written + frames);
}

/// Reading subframes gives as many as were asked for.
proof fn lemma_channels_read(bits: Seq<bool>, header: HeaderView, count: nat)
    ensures
        read_channels(bits, header, count) matches Some((subframes, _)) ==> subframes.len()
            == count,
    decreases count,
{
    if count > 0 {
        lemma_channels_read(bits, header, (count - 1) as nat);
    }
}

/// A decoded frame holds a block of samples for each channel.
proof fn lemma_frame_is_whole(bytes: Seq<u8>, format: StreamFormat)
    ensures
        decoded_front(bytes, format) matches Some((header, samples, _)) ==> samples.len()
            == channel_count(header.assignment) * header.block_size,
{
    reveal(read_front);
    if let Some((header, start)) = read_header(bytes, format) {
        let bits = byte_bits(bytes.skip(start));
        lemma_channels_read(bits, header, channel_count(header.assignment));
    }
}

/// Frames hold whole samples.
proof fn lemma_frames_are_whole(bytes: Seq<u8>, position: nat, info: InfoFields)
    requires
        info.channels >= 1,
    ensures
        frames_from(bytes, position, info) matches Ok((samples, _)) ==> samples.len()
            % info.channels == 0,
    decreases
            if position <= bytes.len() {
                bytes.len() - position
            } else {
                0
            },
{
    if position < bytes.len() {
        lemma_frame_is_whole(bytes.skip(position as int), stream_format(info));
        if let Some((header, samples, end)) = decoded_front(
            bytes.skip(position as int),
            stream_format(info),
        ) {
            if end > 0 && frame_matches(header, info) {
                lemma_frames_are_whole(bytes, (position + end) as nat, info);
                if let Ok((rest, _)) = frames_from(bytes, (position + end) as nat, info) {
                    lemma_mod_multiples_vanish(
                        header.block_size as int,
                        rest.len() as int,
                        info.channels as int,
                    );
                    assert((samples + rest).len() == info.channels as int
                        * header.block_size as int + rest.len() as int);
                }
            }
        }
    } else {
        lemma_small_mod(0, info.channels);
    }
}

/// What was read of a stream is bounded as its description is, and consists of whole
/// samples.
proof fn lemma_contents_bounds(bytes: Seq<u8>, options: FlacReaderOptions)
    ensures
        flac_contents(bytes, options) matches Ok(contents) ==> {
            &&& 1 <= contents.info.channels <= 8
            &&& 1 <= contents.info.bits_per_sample <= 32
            &&& contents.info.sample_rate < 0x10_0000
            &&& contents.info.total_samples < 0x10_0000_0000
            &&& contents.samples.len() % contents.info.channels == 0
            &&& contents.samples.len() <= 0x80_0000_0000
        },
{
    if flac_contents(bytes, options) is Ok {
        let payload = bytes_at(bytes, 8, 34);
        lemma_byte_ranges();
        lemma_be_value_bound(payload.subrange(10, 18));
        let info = read_info(payload);
        let start = if bytes[4] >= 128 {
            42nat
        } else {
            blocks_from(
                bytes,
                42,
                info.total_samples as u64,
                options.strict_seektable_validation,
                empty_metadata(),
                info.channels as u8,
            )->Ok_0.1
        };
        lemma_frames_are_whole(bytes, start, info);
        assert(info.total_samples * info.channels <= 0x80_0000_0000) by (nonlinear_arith)
            requires
                info.total_samples < 0x10_0000_0000,
                info.channels <= 8,
        ;
    }
}

/// A reader that insists on more finds the same blocks, if it finds any.
proof fn lemma_strictness_only_refuses(
    bytes: Seq<u8>,
    position: nat,
    total_samples: u64,
    metadata: MetadataView,
    channels: u8,
)
    ensures
        blocks_from(bytes, position, total_samples, true, metadata, channels) is Ok
            ==> blocks_from(bytes, position, total_samples, false, metadata, channels)
            == blocks_from(bytes, position, total_samples, true, metadata, channels),
    decreases
            if position <= bytes.len() {
                bytes.len() - position
            } else {
                0
            },
{
    if available(bytes, position, 4) {
        let size = be_at(bytes, position + 1, 3);
        if available(bytes, position + 4, size) {
            if let Ok(found) = with_block(
                metadata,
                (bytes[position as int] % 128) as u8,
                bytes_at(bytes, position + 4, size),
                total_samples,
                true,
                channels,
            ) {
                lemma_strictness_only_refuses(
                    bytes,
                    position + 4 + size,
                    total_samples,
                    found,
                    channels,
                );
            }
        }
    }
}

/// Readers may refuse a stream or not; those that read it find the same in it.
pub proof fn law_readers_agree(
    bytes: Seq<u8>,
    options: FlacReaderOptions,
    others: FlacReaderOptions,
)
    requires
        flac_contents(bytes, options) is Ok,
        flac_contents(bytes, others) is Ok,
    ensures
        flac_contents(bytes, options) == flac_contents(bytes, others),
{
    let info = read_info(bytes_at(bytes, 8, 34));
    lemma_strictness_only_refuses(
        bytes,
        42,
        info.total_samples as u64,
        empty_metadata(),
        info.channels as u8,
    );
}

/// Blocks add up to the same in a stream of another length, but for the cue points.
proof fn lemma_taken_elsewhere(
    blocks: Seq<BlockView>,
    count: nat,
    total_samples: u64,
    other: u64,
    strict: bool,
    channels: u8,
)
    requires
        taken(blocks, count, total_samples, strict, channels) is Ok,
    ensures
        taken(blocks, count, other, strict, channels) is Ok,
        taken(blocks, count, other, false, channels) == taken(
            blocks,
            count,
            other,
            strict,
            channels,
        ),
        ({
            let found = taken(blocks, count, other, strict, channels)->Ok_0;
            found == MetadataView {
                cue_points: found.cue_points,
                ..taken(blocks, count, total_samples, strict, channels)->Ok_0
            }
        }),
    decreases count,
{
    if count > 0 {
        lemma_taken_elsewhere(
            blocks,
            (count - 1) as nat,
            total_samples,
            other,
            strict,
            channels,
        );
    }
}

/// The metadata of a stream as a stream with the same blocks has them that declares the
/// number of its samples. They can differ only in the cue points, and only where the
/// stream left the number open.
pub open spec fn declared_metadata(contents: FlacContents) -> MetadataView {
    let spec = contents_spec(contents);
    let blocks = contents.metadata.preserved;
    taken(blocks, blocks.len(), spec.total_samples, false, spec.channels)->Ok_0
}

/// A stream has what a recompression takes: it holds channels of a width and a rate that
/// frame headers can hold, and its digest agrees. In stereo of 32 bits no differences are
/// taken.
pub open spec fn recompression_is_owed(
    contents: FlacContents,
    settings: RecompressSettings,
    predictors: Seq<Vec<LpcPredictors>>,
) -> bool {
    let spec = contents_spec(contents);
    &&& contents.samples.len() <= usize::MAX
    &&& plan_failure(spec, recompress_encoder(settings)) is None
    &&& bit_depth_code(spec.bits_per_sample) is Some
    &&& spec.bits_per_sample < 32 || spec.channels != 2 || !profile_of(
        settings.level,
    ).use_mid_side_stereo
    &&& sample_rate_field(spec.sample_rate) is Some
    &&& all_predictors_are_valid(predictors)
    &&& streaminfo_digest(spec, contents.samples) matches Ok(digest) ==> digest_agrees(
        contents.info.md5,
        digest,
    )
}

/// A recompressed stream that was planned for contents reads back as these contents.
#[verifier::rlimit(60)]
#[verifier::spinoff_prover]
proof fn lemma_again(
    contents: FlacContents,
    settings: RecompressSettings,
    predictors: Seq<Vec<LpcPredictors>>,
    digest: Seq<u8>,
    frames: Seq<FrameView>,
    options: FlacReaderOptions,
)
    requires
        1 <= contents.info.channels <= 8,
        1 <= contents.info.bits_per_sample <= 32,
        contents.info.sample_rate < 0x10_0000,
        contents.samples.len() % contents.info.channels == 0,
        contents.samples.len() <= 0x80_0000_0000,
        plan_failure(contents_spec(contents), recompress_encoder(settings)) is None,
        session_is_faithful(
            plan_view(contents_spec(contents), recompress_encoder(settings)),
            predictors,
            contents.samples,
        ),
        keeps_blocks(
            contents.metadata,
            contents.info.total_samples as u64,
            options.strict_seektable_validation,
            contents.info.channels as u8,
        ),
        contents.metadata.preserved.len() == 0 ==> contents.metadata == empty_metadata(),
        mask_is_trusted(
            contents.metadata,
            contents_spec(contents),
            options.strict_channel_mask_provenance,
        ),
        digest.len() == 16,
        planned_frames(
            plan_view(contents_spec(contents), recompress_encoder(settings)),
            contents.samples,
            0,
            predictors,
            0,
            plan_view(contents_spec(contents), recompress_encoder(settings)).blocks.len() as int,
        ) == Ok::<Seq<FrameView>, ErrorView>(frames),
    ensures
        ({
            let stream = flac_stream(
                contents_spec(contents),
                recompress_encoder(settings),
                contents.metadata,
                digest,
                frames,
            );
            flac_contents(stream, options) matches Ok(again) && is_same_stream(
                again,
                contents,
                digest,
            )
        }),
{
    let spec = contents_spec(contents);
    let encoder = recompress_encoder(settings);
    let plan = plan_view(spec, encoder);
    let samples = contents.samples;
    let strict = options.strict_seektable_validation;
    lemma_whole_samples(contents);
    law_blocks_cover_the_stream(spec, encoder);
    let start = planned_info(
        spec,
        planned_blocks(spec.total_samples as nat, encoder),
        encoder.block_schedule is Some,
        encoder.block_size,
    );
    let info = info_after(start, frames);
    let blocks = flac_block_views(contents.metadata, spec.total_samples);
    let joined = joined_frames(frames);
    let stream = flac_stream(spec, encoder, contents.metadata, digest, frames);
    lemma_no_blocks(spec.total_samples);
    lemma_info_after(start, frames);
    lemma_stream_start(info, digest, blocks, joined);
    lemma_info_reads(info, digest);
    let fields = read_info(bytes_at(stream, 8, 34));
    assert(describes(fields, plan));
    let written = blocks_bytes(blocks, blocks.len());
    let place = 42 + written.len();
    assert(stream.skip(place as int) == joined) by {
        assert(stream.skip(place as int) == stream.skip(42).skip(written.len() as int));
        assert((written + joined).skip(written.len() as int) == joined);
    }
    lemma_stream_frames_decode(plan, predictors, samples, frames, stream, place, fields);
    assert(samples.take(samples.len() as int) == samples);
    lemma_taken_elsewhere(
        contents.metadata.preserved,
        contents.metadata.preserved.len(),
        contents.info.total_samples as u64,
        spec.total_samples,
        strict,
        spec.channels,
    );
    if blocks.len() > 0 {
        assert(blocks == contents.metadata.preserved);
        assert(blocks_bytes(blocks, 0).len() == 0);
        lemma_blocks_read_back(
            blocks,
            stream,
            42,
            joined,
            spec.total_samples,
            strict,
            0,
            empty_metadata(),
            spec.channels,
        );
    }
}

/// The samples of a stream are as many as its description counts.
proof fn lemma_whole_samples(contents: FlacContents)
    requires
        1 <= contents.info.channels <= 8,
        contents.samples.len() % contents.info.channels == 0,
    ensures
        (contents.samples.len() / contents.info.channels) * contents.info.channels
            == contents.samples.len(),
        contents.samples.len() / contents.info.channels <= contents.samples.len(),
{
    lemma_div_is_ordered_by_denominator(
        contents.samples.len() as int,
        1,
        contents.info.channels as int,
    );
    lemma_div_basics(contents.samples.len() as int);
    lemma_fundamental_div_mod(contents.samples.len() as int, contents.info.channels as int);
    lemma_mul_is_commutative(
        contents.info.channels as int,
        (contents.samples.len() / contents.info.channels) as int,
    );
}

/// A stream holds what another one holds, under its own digest, and declares the number of
/// its samples.
pub open spec fn is_same_stream(again: FlacContents, contents: FlacContents, digest: Seq<u8>) -> bool {
    &&& again.samples == contents.samples
    &&& again.metadata == declared_metadata(contents)
    &&& again.info.sample_rate == contents.info.sample_rate
    &&& again.info.channels == contents.info.channels
    &&& again.info.bits_per_sample == contents.info.bits_per_sample
    &&& again.info.total_samples == contents.samples.len() / contents.info.channels
    &&& again.info.md5 == digest
}

/// What was read of a stream has what a session takes, if it can be encoded again.
proof fn lemma_contents_are_faithful(
    input: Seq<u8>,
    contents: FlacContents,
    settings: RecompressSettings,
    predictors: Seq<Vec<LpcPredictors>>,
)
    requires
        flac_contents(input, recompress_options(settings)) == Ok::<FlacContents, ErrorView>(
            contents,
        ),
        stream_is_refit(input, settings),
        all_predictors_are_valid(predictors),
        plan_failure(contents_spec(contents), recompress_encoder(settings)) is None,
    ensures
        session_is_faithful(
            plan_view(contents_spec(contents), recompress_encoder(settings)),
            predictors,
            contents.samples,
        ),
        streaminfo_digest(contents_spec(contents), contents.samples) matches Ok(digest)
            && digest.len() == 16,
{
    let options = recompress_options(settings);
    let spec = contents_spec(contents);
    let samples = contents.samples;
    law_decoded_samples_fit(input, options);
    lemma_contents_bounds(input, options);
    lemma_whole_samples(contents);
    law_blocks_cover_the_stream(spec, recompress_encoder(settings));
    lemma_fitting_samples_are_stored(samples, digest_envelope(spec), ByteOrder::Little);
    lemma_digest_len(encoded_samples(samples, digest_envelope(spec), ByteOrder::Little)->Ok_0);
    if spec.bits_per_sample < 32 {
        lemma_narrow_differences(samples, spec.bits_per_sample as nat);
    }
}

/// Success is owed to a readable stream.
pub proof fn law_readable_streams_recompress(
    input: Seq<u8>,
    contents: FlacContents,
    settings: RecompressSettings,
    predictors: Seq<Vec<LpcPredictors>>,
)
    requires
        8 * input.len() <= usize::MAX,
        flac_contents(input, recompress_options(settings)) == Ok::<FlacContents, ErrorView>(
            contents,
        ),
        recompression_is_owed(contents, settings, predictors),
    ensures
        recompressed_bytes(input, settings, predictors) is Ok,
{
    let options = recompress_options(settings);
    let spec = contents_spec(contents);
    let plan = plan_view(spec, recompress_encoder(settings));
    law_decoded_samples_fit(input, options);
    lemma_contents_bounds(input, options);
    lemma_contents_keep_blocks(input, options);
    lemma_whole_samples(contents);
    law_blocks_cover_the_stream(spec, recompress_encoder(settings));
    lemma_fitting_samples_are_stored(
        contents.samples,
        digest_envelope(spec),
        ByteOrder::Little,
    );
    law_valid_streams_encode(plan, predictors, contents.samples, plan.blocks.len() as int);
    lemma_no_blocks(spec.total_samples);
    let blocks = flac_block_views(contents.metadata, spec.total_samples);
    assert forall|i: int| 0 <= i < blocks.len() implies #[trigger] blocks[i].payload.len()
        <= MAX_BLOCK_PAYLOAD by {
        assert(is_plain_block(contents.metadata.preserved[i]));
    }
}

/// Recompression keeps the stream: a reader finds its samples, its metadata with all
/// blocks, its rate, channels and width in the recompressed stream, which declares the
/// number of its samples. Where the stream declared it too, the metadata are the same to
/// the last cue point.
pub proof fn law_recompression_keeps_the_stream(
    input: Seq<u8>,
    contents: FlacContents,
    settings: RecompressSettings,
    predictors: Seq<Vec<LpcPredictors>>,
    output: Seq<u8>,
    options: FlacReaderOptions,
)
    requires
        flac_contents(input, options) == Ok::<FlacContents, ErrorView>(contents),
        stream_is_refit(input, settings),
        all_predictors_are_valid(predictors),
        recompressed_bytes(input, settings, predictors) == Ok::<Seq<u8>, ErrorView>(output),
    ensures
        flac_contents(output, options) matches Ok(again) && is_same_stream(
            again,
            contents,
            streaminfo_digest(contents_spec(contents), contents.samples)->Ok_0,
        ),
        declared_metadata(contents) == (MetadataView {
            cue_points: declared_metadata(contents).cue_points,
            ..contents.metadata
        }),
        contents.info.total_samples * contents.info.channels == contents.samples.len()
            ==> declared_metadata(contents) == contents.metadata,
{
    let spec = contents_spec(contents);
    let encoder = recompress_encoder(settings);
    let plan = plan_view(spec, encoder);
    law_readers_agree(input, options, recompress_options(settings));
    lemma_contents_bounds(input, options);
    lemma_contents_keep_blocks(input, options);
    lemma_contents_are_faithful(input, contents, settings, predictors);
    let digest = streaminfo_digest(spec, contents.samples)->Ok_0;
    let frames = planned_frames(
        plan,
        contents.samples,
        0,
        predictors,
        0,
        plan.blocks.len() as int,
    )->Ok_0;
    lemma_again(contents, settings, predictors, digest, frames, options);
    lemma_declared_metadata(contents, options.strict_seektable_validation);
}

/// Metadata in a stream that declares the number of its samples.
proof fn lemma_declared_metadata(contents: FlacContents, strict: bool)
    requires
        1 <= contents.info.channels <= 8,
        contents.info.total_samples < 0x10_0000_0000,
        keeps_blocks(
            contents.metadata,
            contents.info.total_samples as u64,
            strict,
            contents.info.channels as u8,
        ),
    ensures
        declared_metadata(contents) == (MetadataView {
            cue_points: declared_metadata(contents).cue_points,
            ..contents.metadata
        }),
        contents.info.total_samples * contents.info.channels == contents.samples.len()
            ==> declared_metadata(contents) == contents.metadata,
{
    let spec = contents_spec(contents);
    lemma_taken_elsewhere(
        contents.metadata.preserved,
        contents.metadata.preserved.len(),
        contents.info.total_samples as u64,
        spec.total_samples,
        strict,
        spec.channels,
    );
    if contents.info.total_samples * contents.info.channels == contents.samples.len() {
        lemma_div_by_multiple(contents.info.total_samples as int, contents.info.channels as int);
    }
}

/// The file of decoded contents is the file of their samples, whichever way it is written.
proof fn lemma_decoded_contents(contents: FlacContents, decode: DecodeSettings)
    requires
        1 <= contents.info.channels <= 8,
        contents.samples.len() % contents.info.channels == 0,
        contents.samples.len() * 4 <= usize::MAX,
    ensures
        ({
            let spec = contents_spec(contents);
            let whole = container_file(
                output_family(decode.output_container),
                spec,
                contents.samples,
                emitted(contents.metadata, decode.emit_fxmd),
            );
            &&& decoded_file(contents, decode) is Ok ==> decoded_file(contents, decode) == whole
            &&& whole is Ok && (streaminfo_digest(spec, contents.samples) matches Ok(digest)
                && digest_agrees(contents.info.md5, digest)) ==> decoded_file(contents, decode)
                == whole
        }),
{
    let spec = contents_spec(contents);
    lemma_whole_samples(contents);
    assert(contents.samples.take(contents.samples.len() as int) == contents.samples);
    assert(whole_frames(contents.samples, spec.channels) == contents.samples);
    lemma_streamed_is_whole(
        output_family(decode.output_container),
        spec,
        contents.info.md5,
        emitted(contents.metadata, decode.emit_fxmd),
        contents.samples,
    );
}

/// A recompressed stream is decoded to a file with the samples, the rate, the channels and
/// the width of the file that the stream itself is decoded to. Where the metadata have the
/// same cue points, as they have where the stream declares the number of its samples, it is
/// the same file.
pub proof fn law_recompressed_streams_decode_alike(
    input: Seq<u8>,
    contents: FlacContents,
    settings: RecompressSettings,
    predictors: Seq<Vec<LpcPredictors>>,
    output: Seq<u8>,
    decode: DecodeSettings,
    again: WavReaderOptions,
)
    requires
        flac_contents(input, decode_options(decode)) == Ok::<FlacContents, ErrorView>(contents),
        stream_is_refit(input, settings),
        all_predictors_are_valid(predictors),
        recompressed_bytes(input, settings, predictors) == Ok::<Seq<u8>, ErrorView>(output),
        8 * output.len() <= usize::MAX,
        contents.samples.len() * 4 <= usize::MAX,
        decoded_bytes(input, decode) matches Ok(file) ==> file.len() + 64 <= u64::MAX,
        decoded_bytes(output, decode) matches Ok(file) ==> file.len() + 64 <= u64::MAX,
    ensures
        ({
            let spec = contents_spec(contents);
            let family = output_family(decode.output_container);
            let metadata = emitted(declared_metadata(contents), decode.emit_fxmd);
            let whole = container_file(family, spec, contents.samples, metadata);
            let found = described(family, spec, contents.samples.len());
            &&& whole is Ok ==> decoded_bytes(output, decode) == whole
            &&& decoded_bytes(output, decode) matches Ok(file) ==> whole == Ok::<
                Seq<u8>,
                ErrorView,
            >(file) && is_container_of(file, again, found, contents.samples)
            &&& decoded_bytes(input, decode) matches Ok(file) ==> is_container_of(
                file,
                again,
                found,
                contents.samples,
            )
            &&& declared_metadata(contents) == contents.metadata && decoded_bytes(
                input,
                decode,
            ) is Ok ==> decoded_bytes(output, decode) == decoded_bytes(input, decode)
        }),
{
    let options = decode_options(decode);
    let spec = contents_spec(contents);
    let family = output_family(decode.output_container);
    law_readers_agree(input, options, recompress_options(settings));
    lemma_contents_bounds(input, options);
    lemma_contents_are_faithful(input, contents, settings, predictors);
    law_recompression_keeps_the_stream(input, contents, settings, predictors, output, options);
    let found = flac_contents(output, options)->Ok_0;
    lemma_whole_samples(contents);
    assert(contents_spec(found) == spec);
    lemma_decoded_contents(contents, decode);
    lemma_decoded_contents(found, decode);
    lemma_written_file(
        family,
        spec,
        contents.samples,
        emitted(contents.metadata, decode.emit_fxmd),
        again,
    );
    lemma_written_file(
        family,
        spec,
        contents.samples,
        emitted(found.metadata, decode.emit_fxmd),
        again,
    );
}

} // verus!
