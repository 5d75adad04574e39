//! How streams are planned, described and checked.

use vstd::arithmetic::div_mod::lemma_fundamental_div_mod;
use vstd::prelude::*;

use crate::byte_reader::{be_at, bytes_at};
use crate::bytes::be_bytes;
use crate::config::{default_decoder, default_encoder, with_block_size_set, with_decode_threads, with_level_set, with_schedule_set, with_threads_set, DecodeSettings, EncoderSettings};
use crate::decode::mask_is_trusted;
use crate::decode_output::{decoded_summary, digest_agrees, frames_after};
use crate::draft::{drafted, DraftView, FxmdChunkPolicy};
use crate::encode_frames::FrameView;
use crate::encode_pipeline::{chunk_end, chunk_grows, info_after, joined_frames, samples_in, snapshots_of, EncodeChunkPolicy};
use crate::encoder::{flac_frames, has_more_frames, head_length, is_told, policy_for, summary_of};
use crate::error::ErrorView;
use crate::flac_bytes::{decode_options, recompress_encoder, recompress_options, recompression_reports};
use crate::flac_reader::{contents_spec, flac_contents, frame_matches, stream_mask};
use crate::flac_writer::{blocks_bytes, blocks_fit, lemma_info_len, stream_bytes, stream_opening, FLAC_MARKER};
use crate::frame_header::{channel_count, coded_value, is_variable};
use crate::frame_reading::HeaderView;
use crate::fxmd::carried_blocks;
use crate::level::{profile_of, Level};
use crate::metadata::{BlockView, MetadataView};
use crate::pcm::{ordinary_mask, PcmContainer, PcmEnvelope, PcmSpec};
use crate::plan::{block_count, block_is_allowed, block_offset, blocks_total, fixed_blocks, header_number, largest_block, lemma_fixed_offset, lemma_next_offset, lemma_offsets_grow, plan_failure, planned_frame, planned_info, schedule_is_allowed, smallest_block};
use crate::progress::ProgressSnapshot;
use crate::raw::stream_spec;
use crate::recompress::{default_recompression, FlacReaderOptions, RecompressSettings};
use crate::sample_source::{frames_asked, is_storable};
use crate::stream::{frames_due, stored_bytes};
use crate::stream_info::{info_bytes, info_numbers, read_info, with_frame_size, InfoFields, StreamInfo};
use crate::subframe::LpcPredictors;
use crate::wav_reader::{default_reader_options, with_positions};

verus! {

/// Without a schedule all blocks have the size that is set, but for the last one, which holds
/// what is left, and starts behind all the others. There are as few as hold the samples.
pub proof fn law_blocks_have_the_size_that_is_set(total: nat, size: nat, index: int)
    requires
        1 <= size <= 65_535,
        0 <= index < fixed_blocks(total, size).len(),
    ensures
        ({
            let blocks = fixed_blocks(total, size);
            let last = blocks.len() - 1;
            &&& index < last ==> blocks[index] == size
            &&& index == last ==> blocks[index] == total - last * size
            &&& 1 <= blocks[index] <= size
            &&& block_offset(blocks, index) == index * size
            &&& last * size < total <= last * size + size
        }),
{
    let blocks = fixed_blocks(total, size);
    let count = block_count(total, size) as int;
    let last = count - 1;
    lemma_fundamental_div_mod(total + size - 1, size as int);
    lemma_fixed_offset(total, size, index);
    assert(last * size < total <= last * size + size) by (nonlinear_arith)
        requires
            size >= 1,
            last == count - 1,
            total + size - 1 == size * count + (total + size - 1) % (size as int),
            0 <= (total + size - 1) % (size as int) < size,
    ;
    assert(index < last ==> (index + 1) * size <= last * size) by (nonlinear_arith)
        requires
            size >= 1,
    ;
    assert(index == last ==> (index + 1) * size == last * size + size) by (nonlinear_arith);
}

/// Frames of one size count frames and those of a schedule count samples: each frame the
/// samples in front of it, of which there are those of all blocks before.
pub proof fn law_frames_count_what_is_in_front_of_them(
    blocks: Seq<u16>,
    variable: bool,
    index: int,
)
    requires
        0 <= index < blocks.len() <= u64::MAX,
        blocks_total(blocks) <= u64::MAX,
    ensures
        ({
            let frame = planned_frame(blocks, variable, index);
            let number = header_number(frame.coded_number_kind, frame.coded_number);
            &&& frame.block_size == blocks[index]
            &&& frame.sample_offset == block_offset(blocks, index)
            &&& index == 0 ==> frame.sample_offset == 0
            &&& index > 0 ==> frame.sample_offset == planned_frame(
                blocks,
                variable,
                index - 1,
            ).sample_offset + blocks[index - 1]
            &&& is_variable(number) == variable
            &&& variable ==> coded_value(number) == frame.sample_offset
            &&& !variable ==> coded_value(number) == index
        }),
{
    lemma_offsets_grow(blocks, index, blocks.len() as int);
    if index > 0 {
        lemma_next_offset(blocks, index - 1);
        lemma_offsets_grow(blocks, index - 1, blocks.len() as int);
    } else {
        assert(blocks.take(0) == Seq::<u16>::empty());
    }
}

/// A stream can be planned exactly if the format can describe it and its blocks are large
/// enough: 16 samples at least, but for the last block of a schedule, which covers all samples.
pub proof fn law_streams_of_the_format_can_be_planned(spec: PcmSpec, settings: EncoderSettings)
    requires
        settings.block_schedule is None ==> spec.total_samples <= usize::MAX - 65_535,
    ensures
        plan_failure(spec, settings) is None <==> {
            &&& 1 <= spec.sample_rate <= 1_048_575
            &&& 1 <= spec.channels <= 8
            &&& 4 <= spec.bits_per_sample <= 32
            &&& spec.total_samples < 68_719_476_736
            &&& match settings.block_schedule {
                None => settings.block_size >= 16,
                Some(schedule) => {
                    &&& blocks_total(schedule) == spec.total_samples
                    &&& forall|i: int|
                        0 <= i < schedule.len() - 1 ==> #[trigger] schedule[i] >= 16
                    &&& schedule.len() > 0 ==> schedule.last() >= 1
                },
            }
        },
{
    match settings.block_schedule {
        None => {
            if settings.block_size >= 16 {
                let size = settings.block_size as int;
                let total = spec.total_samples as int;
                vstd::arithmetic::div_mod::lemma_div_is_ordered_by_denominator(
                    total + size - 1,
                    1,
                    size,
                );
            }
        },
        Some(schedule) => {
            if schedule_is_allowed(schedule) {
                assert forall|i: int| 0 <= i < schedule.len() - 1 implies #[trigger] schedule[i]
                    >= 16 by {
                    assert(block_is_allowed(schedule, i));
                }
                if schedule.len() > 0 {
                    assert(block_is_allowed(schedule, schedule.len() - 1));
                }
            }
        },
    }
}

/// A stream says the smallest and the largest of its blocks where they follow a schedule, and
/// otherwise the size that is set, twice.
pub proof fn law_streams_say_the_range_of_their_blocks(
    spec: PcmSpec,
    blocks: Seq<u16>,
    common: u16,
    index: int,
)
    requires
        0 <= index < blocks.len(),
    ensures
        ({
            let info = planned_info(spec, blocks, true, common);
            let fixed = planned_info(spec, blocks, false, common);
            &&& info.min_block_size <= blocks[index] <= info.max_block_size
            &&& blocks.contains(info.min_block_size)
            &&& blocks.contains(info.max_block_size)
            &&& fixed.min_block_size == common && fixed.max_block_size == common
            &&& info.sample_rate == spec.sample_rate
            &&& info.channels == spec.channels
            &&& info.bits_per_sample == spec.bits_per_sample
            &&& info.total_samples == spec.total_samples
        }),
{
    lemma_range(blocks, index);
}

proof fn lemma_range(blocks: Seq<u16>, index: int)
    requires
        0 <= index < blocks.len(),
    ensures
        smallest_block(blocks) <= blocks[index] <= largest_block(blocks),
        blocks.contains(smallest_block(blocks)),
        blocks.contains(largest_block(blocks)),
    decreases blocks.len(),
{
    if blocks.len() > 1 {
        let earlier = blocks.drop_last();
        lemma_range(
            earlier,
            if index < earlier.len() {
                index
            } else {
                0
            },
        );
        let low = earlier.index_of(smallest_block(earlier));
        let high = earlier.index_of(largest_block(earlier));
        assert(blocks[low] == smallest_block(earlier));
        assert(blocks[high] == largest_block(earlier));
        assert(blocks[blocks.len() - 1] == blocks.last());
        if index < earlier.len() {
            assert(earlier[index] == blocks[index]);
        }
    } else {
        assert(blocks[0] == blocks[index]);
    }
}

/// A stream says the smallest and the largest of its frames: one frame more widens the range as
/// far as it has to and no further, and nothing else changes.
pub proof fn law_frame_sizes_widen_the_range(info: StreamInfo, size: u32)
    ensures
        ({
            let after = with_frame_size(info, size);
            &&& after.min_frame_size <= size <= after.max_frame_size
            &&& after.min_frame_size == size || (after.min_frame_size == info.min_frame_size
                && info.min_frame_size != 0)
            &&& after.max_frame_size == size || after.max_frame_size == info.max_frame_size
            &&& info.min_frame_size != 0 ==> after.min_frame_size <= info.min_frame_size
            &&& after.max_frame_size >= info.max_frame_size
            &&& after == (StreamInfo {
                min_frame_size: after.min_frame_size,
                max_frame_size: after.max_frame_size,
                ..info
            })
        }),
{
}

/// A chunk of an encode session holds a frame at least and as many as fit: no more than are
/// allowed, and no more samples than are aimed at where there are several.
pub proof fn law_chunks_hold_as_many_frames_as_fit(
    blocks: Seq<u16>,
    start: int,
    policy: EncodeChunkPolicy,
)
    requires
        0 <= start < blocks.len(),
        policy.max_frames >= 1,
    ensures
        ({
            let end = chunk_end(blocks, start, start, policy);
            let samples = block_offset(blocks, end) - block_offset(blocks, start);
            &&& start < end <= blocks.len()
            &&& end - start <= policy.max_frames
            &&& end - start > 1 ==> samples <= policy.target_pcm_frames
            &&& end == blocks.len() || end - start == policy.max_frames || samples + blocks[end]
                > policy.target_pcm_frames
        }),
{
    lemma_chunk(blocks, start, start, policy);
}

proof fn lemma_chunk(blocks: Seq<u16>, start: int, end: int, policy: EncodeChunkPolicy)
    requires
        0 <= start <= end <= blocks.len(),
        start < blocks.len(),
        policy.max_frames >= 1,
        end - start <= policy.max_frames,
        end - start > 1 ==> block_offset(blocks, end) - block_offset(blocks, start)
            <= policy.target_pcm_frames,
    ensures
        ({
            let reached = chunk_end(blocks, start, end, policy);
            let samples = block_offset(blocks, reached) - block_offset(blocks, start);
            &&& end <= reached <= blocks.len()
            &&& start < reached
            &&& reached - start <= policy.max_frames
            &&& reached - start > 1 ==> samples <= policy.target_pcm_frames
            &&& reached == blocks.len() || reached - start == policy.max_frames || samples
                + blocks[reached] > policy.target_pcm_frames
        }),
    decreases blocks.len() - end,
{
    if chunk_grows(blocks, start, end, policy) {
        lemma_chunk(blocks, start, end + 1, policy);
    } else if end < blocks.len() {
        lemma_next_offset(blocks, end);
    }
}

/// A session works through chunks of 256 frames and about a million samples, unless its input
/// wishes otherwise.
pub proof fn law_wishes_set_the_size_of_chunks(frames: Option<usize>, samples: Option<usize>)
    ensures
        policy_for((frames, samples)).max_frames == match frames {
            Some(wish) => wish as int,
            None => 256,
        },
        policy_for((frames, samples)).target_pcm_frames == match samples {
            Some(wish) => wish as int,
            None => 1_048_576,
        },
{
}

/// The summaries of encoding and of decoding a stream say the same, which is what the stream
/// says of itself.
pub proof fn law_summaries_say_what_streams_say(info: StreamInfo, frames: usize)
    ensures
        ({
            let encoded = summary_of(info, frames);
            let decoded = decoded_summary(info, frames);
            &&& encoded.frame_count == frames && decoded.frame_count == frames
            &&& encoded.total_samples == info.total_samples && decoded.total_samples
                == info.total_samples
            &&& encoded.block_size == info.max_block_size && decoded.block_size
                == info.max_block_size
            &&& encoded.min_frame_size == info.min_frame_size && decoded.min_frame_size
                == info.min_frame_size
            &&& encoded.max_frame_size == info.max_frame_size && decoded.max_frame_size
                == info.max_frame_size
            &&& encoded.min_block_size == info.min_block_size && decoded.min_block_size
                == info.min_block_size
            &&& encoded.max_block_size == info.max_block_size && decoded.max_block_size
                == info.max_block_size
            &&& encoded.sample_rate == info.sample_rate && decoded.sample_rate == info.sample_rate
            &&& encoded.channels == info.channels && decoded.channels == info.channels
            &&& encoded.bits_per_sample == info.bits_per_sample && decoded.bits_per_sample
                == info.bits_per_sample
        }),
{
}

/// The highest level is the default, with its own block size, and for recompression too. A
/// level brings its block size and keeps a schedule, and a block size ends the schedule and
/// keeps the level; the later setting counts. There is always a thread.
pub proof fn law_settings_keep_what_they_do_not_set(
    settings: EncoderSettings,
    decoder: DecodeSettings,
    level: Level,
    size: u16,
    threads: usize,
    schedule: Seq<u16>,
)
    ensures
        default_encoder().level == Level::Level8,
        default_encoder().block_size == profile_of(default_encoder().level).block_size,
        default_encoder().block_schedule is None,
        default_encoder().threads == 1,
        default_recompression().threads == 1,
        default_recompression().level == default_encoder().level,
        default_recompression().block_size == default_encoder().block_size,
        with_level_set(settings, level).level == level,
        with_level_set(settings, level).block_size == profile_of(level).block_size,
        with_level_set(settings, level).block_schedule == settings.block_schedule,
        with_level_set(settings, level).threads == settings.threads,
        with_block_size_set(settings, size).block_size == size,
        with_block_size_set(settings, size).block_schedule is None,
        with_block_size_set(settings, size).level == settings.level,
        with_block_size_set(settings, size).threads == settings.threads,
        with_block_size_set(with_level_set(settings, level), size).block_size == size,
        with_block_size_set(with_level_set(settings, level), size).level == level,
        with_schedule_set(settings, schedule).block_schedule == Some(schedule),
        with_schedule_set(settings, schedule).level == settings.level,
        with_schedule_set(settings, schedule).block_size == settings.block_size,
        with_threads_set(settings, threads).threads >= 1,
        threads >= 1 ==> with_threads_set(settings, threads).threads == threads,
        with_threads_set(settings, threads).level == settings.level,
        with_threads_set(settings, threads).block_size == settings.block_size,
        with_decode_threads(decoder, threads).threads == with_threads_set(
            settings,
            threads,
        ).threads,
        with_decode_threads(decoder, threads).output_container == decoder.output_container,
{
}

/// A recompression encodes with the level, the threads and the block size that it is set to.
pub proof fn law_recompression_encodes_as_it_is_set(settings: RecompressSettings)
    ensures
        recompress_encoder(settings).level == settings.level,
        recompress_encoder(settings).block_size == settings.block_size,
        recompress_encoder(settings).block_schedule is None,
        settings.threads >= 1 ==> recompress_encoder(settings).threads == settings.threads,
{
}

/// Speaker positions are doubted only by someone strict, and then exactly if those of the stream
/// or those that its metadata name are not of convention and nothing marks where they are from.
pub proof fn law_positions_are_doubted_by_the_strict(
    metadata: MetadataView,
    spec: PcmSpec,
    strict: bool,
)
    ensures
        !mask_is_trusted(metadata, spec, strict) <==> {
            &&& strict
            &&& !metadata.provenance
            &&& ordinary_mask(spec.channels as u16) != Some(spec.channel_mask) || (
            metadata.channel_mask is Some && metadata.channel_mask != ordinary_mask(
                spec.channels as u16,
            ))
        },
        stream_mask(metadata, spec.channels as nat) == match metadata.channel_mask {
            Some(named) => named,
            None => match ordinary_mask(spec.channels as u16) {
                Some(mask) => mask,
                None => 0,
            },
        },
{
}

/// A stream that is read opens with its marker and says of itself what was read of it: frames
/// of its rate, its width and its channels, and as many samples as it declares, where it
/// declares any; speaker positions are trusted.
pub proof fn law_read_streams_are_what_they_say(bytes: Seq<u8>, options: FlacReaderOptions)
    ensures
        flac_contents(bytes, options) matches Ok(contents) ==> {
            &&& bytes.take(4) == seq!['f' as u8, 'L' as u8, 'a' as u8, 'C' as u8]
            &&& bytes[4] % 128 == 0
            &&& be_at(bytes, 5, 3) == 34
            &&& contents.info == read_info(bytes_at(bytes, 8, 34))
            &&& contents.info.total_samples != 0 ==> contents.samples.len()
                == contents.info.total_samples * contents.info.channels
            &&& mask_is_trusted(
                contents.metadata,
                contents_spec(contents),
                options.strict_channel_mask_provenance,
            )
        },
{
    if flac_contents(bytes, options) is Ok {
        assert(bytes.take(4) == bytes_at(bytes, 0, 4));
    }
}

/// A frame belongs to a stream exactly if its rate, its width and the number of its channels
/// are those of the stream.
pub proof fn law_frames_belong_to_streams_of_their_kind(header: HeaderView, info: InfoFields)
    ensures
        frame_matches(header, info) <==> header.sample_rate == info.sample_rate
            && header.bits_per_sample == info.bits_per_sample && channel_count(header.assignment)
            == info.channels,
{
}

/// A digest is doubted exactly if it is known, which it is unless all its bytes are zero, and
/// another one.
pub proof fn law_known_digests_have_to_agree(declared: Seq<u8>, found: Seq<u8>)
    requires
        declared.len() == 16,
    ensures
        !digest_agrees(declared, found) <==> declared != found && exists|i: int|
            0 <= i < 16 && #[trigger] declared[i] != 0,
{
    if forall|i: int| 0 <= i < 16 ==> #[trigger] declared[i] == 0 {
        assert(declared == Seq::new(16, |i: int| 0u8));
    } else {
        let place = choose|i: int| 0 <= i < 16 && #[trigger] declared[i] != 0;
        assert(Seq::new(16, |i: int| 0u8)[place] == 0);
    }
}

/// A decoder keeps metadata and insists on nothing further by default, and its strictness is
/// that of the reader. A wave reader keeps metadata and insists on them by default.
pub proof fn law_decoders_insist_on_what_is_set(settings: DecodeSettings)
    ensures
        default_decoder().emit_fxmd,
        default_decoder().threads == 1,
        default_decoder().output_container == PcmContainer::Auto,
        !decode_options(default_decoder()).strict_seektable_validation,
        !decode_options(default_decoder()).strict_channel_mask_provenance,
        decode_options(settings).strict_seektable_validation
            == settings.strict_seektable_validation,
        decode_options(settings).strict_channel_mask_provenance
            == settings.strict_channel_mask_provenance,
        default_reader_options().capture_fxmd && default_reader_options().strict_fxmd_validation,
        default_encoder().capture_fxmd == default_reader_options().capture_fxmd,
        default_encoder().strict_fxmd_validation
            == default_reader_options().strict_fxmd_validation,
{
}

/// Speaker positions are kept with the metadata of a file exactly if they are not those of
/// convention, unless the file brought its own metadata blocks.
pub proof fn law_unusual_positions_are_kept(metadata: MetadataView, channels: u16, mask: u32)
    ensures
        ({
            let after = with_positions(metadata, channels, mask);
            &&& metadata.preserved.len() == 0 && ordinary_mask(channels) != Some(mask) ==> {
                &&& after.channel_mask == Some(mask)
                &&& after.provenance
            }
            &&& metadata.preserved.len() > 0 || ordinary_mask(channels) == Some(mask) ==> after
                == metadata
            &&& after.comments == metadata.comments
            &&& after.cue_points == metadata.cue_points
            &&& after.preserved == metadata.preserved
        }),
{
}

/// A chunk of kept blocks is taken in where this is asked for, and refused if it is broken and
/// one is strict; otherwise it is passed over, as is any other chunk but texts and cue points.
pub proof fn law_kept_blocks_are_taken_where_asked_for(
    draft: DraftView,
    id: Seq<u8>,
    payload: Seq<u8>,
    policy: FxmdChunkPolicy,
)
    ensures
        ({
            let list = seq!['L' as u8, 'I' as u8, 'S' as u8, 'T' as u8];
            let cue = seq!['c' as u8, 'u' as u8, 'e' as u8, ' ' as u8];
            let kept = seq!['f' as u8, 'x' as u8, 'm' as u8, 'd' as u8];
            let after = drafted(draft, id, payload, policy);
            &&& id != list && id != cue && id != kept ==> after == Ok::<DraftView, ErrorView>(
                draft,
            )
            &&& id == kept && !policy.capture ==> after == Ok::<DraftView, ErrorView>(draft)
            &&& id == kept && policy.capture && carried_blocks(payload) is Ok ==> after == Ok::<
                DraftView,
                ErrorView,
            >(DraftView { preserved: carried_blocks(payload)->Ok_0, ..draft })
            &&& id == kept && policy.capture && carried_blocks(payload) is Err ==> (after is Err
                <==> policy.strict)
            &&& after is Err ==> id == kept && policy.capture && policy.strict
            &&& after matches Ok(found) ==> {
                &&& found.texts != draft.texts ==> id == list
                &&& found.cue_points != draft.cue_points ==> id == cue
                &&& found.preserved != draft.preserved ==> id == kept
            }
        }),
{
    let list = seq!['L' as u8, 'I' as u8, 'S' as u8, 'T' as u8];
    let cue = seq!['c' as u8, 'u' as u8, 'e' as u8, ' ' as u8];
    let kept = seq!['f' as u8, 'x' as u8, 'm' as u8, 'd' as u8];
    assert(list == crate::wav::LIST_ID@);
    assert(cue == crate::wav::CUE_ID@);
    assert(kept == crate::wav::FXMD_ID@);
    assert(list[0] != cue[0] && list[0] != kept[0] && cue[0] != kept[0]);
}

/// A stream opens with its marker and the header of its description, which is the last block
/// exactly if no other follows. The description is followed by the digest, the other blocks and
/// the frames.
pub proof fn law_streams_open_with_their_description(
    info: StreamInfo,
    digest: Seq<u8>,
    blocks: Seq<BlockView>,
    frames: Seq<u8>,
)
    requires
        digest.len() == 16,
    ensures
        ({
            let bytes = stream_bytes(info, digest, blocks, frames);
            &&& bytes.take(4) == seq!['f' as u8, 'L' as u8, 'a' as u8, 'C' as u8]
            &&& bytes[4] == 128 <==> blocks.len() == 0
            &&& bytes[4] == 0 <==> blocks.len() > 0
            &&& bytes[5] == 0 && bytes[6] == 0 && bytes[7] == 34
            &&& bytes.subrange(26, 42) == digest
            &&& bytes.skip(42) == blocks_bytes(blocks, blocks.len()) + frames
        }),
{
    let bytes = stream_bytes(info, digest, blocks, frames);
    let opening = stream_opening(blocks.len());
    assert(be_bytes(34, 3) == seq![0u8, 0u8, 34u8]) by {
        reveal_with_fuel(be_bytes, 4);
    }
    assert(opening.len() == 8);
    lemma_info_len(info);
    assert(info_numbers(info).len() == 18) by {
        assert(info_bytes(info).len() == info_numbers(info).len() + 16);
    }
    assert(bytes.take(4) == FLAC_MARKER@);
    assert(FLAC_MARKER@ == seq!['f' as u8, 'L' as u8, 'a' as u8, 'C' as u8]);
    assert(bytes.take(8) == opening);
    assert(bytes[4] == opening[4] && bytes[5] == opening[5] && bytes[6] == opening[6] && bytes[7]
        == opening[7]);
    assert(bytes.subrange(26, 42) == digest);
    assert(bytes.skip(42) == blocks_bytes(blocks, blocks.len()) + frames);
}

/// The frames of a stream have sizes between the two that its description says, and there are
/// frames of both sizes. Nothing else of the description depends on them.
pub proof fn law_descriptions_say_the_range_of_frames(
    info: StreamInfo,
    frames: Seq<FrameView>,
    index: int,
)
    requires
        info.min_frame_size == 0,
        info.max_frame_size == 0,
        0 <= index < frames.len(),
        forall|i: int|
            0 <= i < frames.len() ==> 1 <= (#[trigger] frames[i]).bytes.len() <= u32::MAX,
    ensures
        ({
            let after = info_after(info, frames);
            &&& after.min_frame_size <= frames[index].bytes.len() <= after.max_frame_size
            &&& exists|i: int|
                0 <= i < frames.len() && (#[trigger] frames[i]).bytes.len() == after.min_frame_size
            &&& exists|i: int|
                0 <= i < frames.len() && (#[trigger] frames[i]).bytes.len() == after.max_frame_size
            &&& after == (StreamInfo {
                min_frame_size: after.min_frame_size,
                max_frame_size: after.max_frame_size,
                ..info
            })
        }),
    decreases frames.len(),
{
    let earlier = frames.drop_last();
    let after = info_after(info, frames);
    assert(frames[frames.len() - 1] == frames.last());
    if earlier.len() > 0 {
        assert forall|i: int| 0 <= i < earlier.len() implies 1 <= (
        #[trigger] earlier[i]).bytes.len() <= u32::MAX by {
            assert(frames[i] == earlier[i]);
        }
        law_descriptions_say_the_range_of_frames(
            info,
            earlier,
            if index < earlier.len() {
                index
            } else {
                0
            },
        );
        let before = info_after(info, earlier);
        let low = choose|i: int|
            0 <= i < earlier.len() && (#[trigger] earlier[i]).bytes.len() == before.min_frame_size;
        let high = choose|i: int|
            0 <= i < earlier.len() && (#[trigger] earlier[i]).bytes.len() == before.max_frame_size;
        assert(frames[low] == earlier[low] && frames[high] == earlier[high]);
        if index < earlier.len() {
            assert(frames[index] == earlier[index]);
        }
    } else {
        assert(info_after(info, earlier) == info);
    }
}

/// What is told after a frame adds that frame to what was told before: its samples, itself, and
/// its bytes. The totals stay the same.
pub proof fn law_reports_add_a_frame_each(
    frames: Seq<FrameView>,
    spec: PcmSpec,
    total_frames: usize,
    written: nat,
    index: int,
)
    requires
        0 <= index < frames.len(),
        samples_in(frames.take(index + 1)) <= u64::MAX,
        written + joined_frames(frames.take(index + 1)).len() <= u64::MAX,
        frames.len() <= usize::MAX,
    ensures
        ({
            let told = snapshots_of(frames, 0, spec, 0, total_frames, written);
            let before: (int, int) = if index == 0 {
                (0, written as int)
            } else {
                (
                    told[index - 1].processed_samples as int,
                    told[index - 1].output_bytes_written as int,
                )
            };
            let report = told[index];
            &&& told.len() == frames.len()
            &&& report.processed_samples == before.0 + frames[index].sample_count
            &&& report.output_bytes_written == before.1 + frames[index].bytes.len()
            &&& report.completed_frames == index + 1
            &&& report.total_frames == total_frames
            &&& report.total_samples == spec.total_samples
            &&& report.processed_samples * spec.channels * spec.bytes_per_sample <= u64::MAX
                ==> report.input_bytes_read == report.processed_samples * spec.channels
                * spec.bytes_per_sample
        }),
{
    let now = frames.take(index + 1);
    assert(now.drop_last() == frames.take(index));
    assert(now.last() == frames[index]);
    if index == 0 {
        assert(frames.take(0) == Seq::<FrameView>::empty());
    }
    let told = snapshots_of(frames, 0, spec, 0, total_frames, written);
    let processed = samples_in(now);
    assert(processed == samples_in(frames.take(index)) + frames[index].sample_count);
    assert(joined_frames(now) == joined_frames(frames.take(index)) + frames[index].bytes);
    if index > 0 {
        assert(frames.take((index - 1) + 1) == frames.take(index));
        assert(told[index - 1].processed_samples == samples_in(frames.take(index)));
        assert(told[index - 1].output_bytes_written == written + joined_frames(
            frames.take(index),
        ).len());
    }
    assert(told[index].processed_samples == processed);
    assert(told[index].completed_frames == index + 1);
    assert(told[index].input_bytes_read == stored_bytes(spec, processed) as u64);
}

/// The samples that are done after some chunks are those of the chunks, or all of them.
pub proof fn law_chunks_are_decoded_one_after_the_other(chunks: nat, each: nat, frames: nat)
    ensures
        chunks * each <= frames ==> frames_after(chunks, each, frames) == chunks * each,
        chunks * each > frames ==> frames_after(chunks, each, frames) == frames,
    decreases chunks,
{
    if chunks > 0 {
        let earlier = (chunks - 1) as nat;
        law_chunks_are_decoded_one_after_the_other(earlier, each, frames);
        assert(chunks * each == earlier * each + each) by (nonlinear_arith)
            requires
                chunks == earlier + 1,
        ;
    } else {
        assert(chunks * each == 0) by (nonlinear_arith)
            requires
                chunks == 0,
        ;
    }
}

/// No more frames are read than there are and than were asked for, and no fewer.
pub proof fn law_reads_give_as_many_frames_as_they_can(
    left: nat,
    max_frames: nat,
    upcoming: nat,
    channels: nat,
)
    requires
        channels >= 1,
    ensures
        ({
            let asked = frames_asked(left, max_frames);
            let due = frames_due(upcoming, channels, max_frames);
            &&& asked <= left && asked <= max_frames && (asked == left || asked == max_frames)
            &&& due <= max_frames && due * channels <= upcoming
            &&& due < max_frames ==> (due + 1) * channels > upcoming
        }),
{
    let whole = upcoming / channels;
    lemma_fundamental_div_mod(upcoming as int, channels as int);
    let rest = upcoming % channels;
    assert(whole * channels <= upcoming < (whole + 1) * channels) by (nonlinear_arith)
        requires
            upcoming == channels * whole + rest,
            0 <= rest < channels,
    ;
    if max_frames * channels > upcoming {
        assert(whole <= max_frames) by (nonlinear_arith)
            requires
                whole * channels <= upcoming,
                upcoming < max_frames * channels,
                channels >= 1,
        ;
    }
}

/// A session that ends well tells of each of its frames once, in their order and counted from
/// one, and of all samples in the end.
pub proof fn law_sessions_tell_of_every_frame(
    spec: PcmSpec,
    samples: Seq<i32>,
    wishes: (Option<usize>, Option<usize>),
    settings: EncoderSettings,
    metadata: MetadataView,
    predictors: Seq<Vec<LpcPredictors>>,
    before: Seq<ProgressSnapshot>,
    after: Seq<ProgressSnapshot>,
    index: int,
)
    requires
        is_told(spec, samples, wishes, settings, metadata, predictors, before, after),
        flac_frames(spec, settings, wishes, metadata, samples, predictors)->Ok_0.len()
            <= usize::MAX,
        0 <= index < after.len() - before.len(),
    ensures
        ({
            let frames = flac_frames(spec, settings, wishes, metadata, samples, predictors)->Ok_0;
            let report = after[before.len() + index];
            let done = samples_in(frames.take(index + 1));
            let written = head_length(spec, metadata) + joined_frames(
                frames.take(index + 1),
            ).len();
            &&& after.len() == before.len() + frames.len()
            &&& after.take(before.len() as int) == before
            &&& report.completed_frames == index + 1
            &&& report.total_frames == frames.len()
            &&& report.total_samples == spec.total_samples
            &&& done <= u64::MAX ==> report.processed_samples == done
            &&& written <= u64::MAX ==> report.output_bytes_written == written
        }),
{
    assert(after.take(before.len() as int) == before);
}

/// A recompression tells of each frame that it writes once, counted from one.
pub proof fn law_recompressions_tell_of_every_frame(
    input: Seq<u8>,
    settings: RecompressSettings,
    predictors: Seq<Vec<LpcPredictors>>,
    index: int,
)
    requires
        recompression_reports(input, settings, predictors).len() <= usize::MAX,
        0 <= index < recompression_reports(input, settings, predictors).len(),
    ensures
        ({
            let reports = recompression_reports(input, settings, predictors);
            &&& reports[index].completed_frames == index + 1
            &&& reports[index].total_frames == reports.len()
            &&& reports[index].total_samples == contents_spec(
                flac_contents(input, recompress_options(settings))->Ok_0,
            ).total_samples
        }),
{
}

/// More samples come than a stream declares exactly if they make a frame more, where it
/// declares any.
pub proof fn law_a_frame_more_is_too_many(spec: PcmSpec, samples: nat)
    requires
        spec.channels >= 1,
    ensures
        has_more_frames(spec, samples) <==> spec.total_samples > 0 && samples / (
        spec.channels as nat) > spec.total_samples,
{
    let channels = spec.channels as int;
    let total = spec.total_samples as int;
    let whole = samples as int / channels;
    lemma_fundamental_div_mod(samples as int, channels);
    let rest = samples as int % channels;
    assert(whole > total <==> samples >= (total + 1) * channels) by (nonlinear_arith)
        requires
            samples == channels * whole + rest,
            0 <= rest < channels,
            channels >= 1,
    ;
}

/// The description of stored samples says what their description and their storage say.
pub proof fn law_descriptions_of_streams_say_how_they_are_stored(
    sample_rate: u32,
    total_samples: u64,
    envelope: PcmEnvelope,
)
    requires
        is_storable(envelope),
        envelope.channels <= 8,
    ensures
        ({
            let spec = stream_spec(sample_rate, total_samples, envelope);
            &&& spec.sample_rate == sample_rate
            &&& spec.total_samples == total_samples
            &&& spec.channels == envelope.channels
            &&& spec.bits_per_sample == envelope.valid_bits_per_sample
            &&& spec.bytes_per_sample * 8 == envelope.container_bits_per_sample
            &&& spec.channel_mask == envelope.channel_mask
        }),
{
}

/// The blocks of a stream can be written exactly if their sizes fit in three bytes.
pub proof fn law_blocks_of_24_bits_can_be_written(blocks: Seq<BlockView>)
    ensures
        blocks_fit(blocks) <==> forall|i: int|
            0 <= i < blocks.len() ==> #[trigger] blocks[i].payload.len() < 256 * 256 * 256,
{
}

} // verus!
