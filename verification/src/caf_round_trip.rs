//! Core Audio Format files that are written and read again.

use vstd::arithmetic::div_mod::{lemma_div_by_multiple, lemma_fundamental_div_mod, lemma_mod_multiples_basic};
use vstd::arithmetic::mul::{lemma_mul_is_associative, lemma_mul_is_commutative};
use vstd::arithmetic::power2::{lemma2_to64, lemma2_to64_rest, lemma_pow2_strictly_increases};
use vstd::prelude::*;

use crate::aiff_round_trip::{law_samples_are_stored_piecewise, lemma_be_bytes_len, lemma_failure_comes_first, lemma_fitting_samples_are_stored};
use crate::bits::fits_signed;
use crate::byte_reader::{available, be_at, bytes_at};
use crate::bytes::{be_bytes, law_be_bytes_read_back, lemma_byte_ranges};
use crate::caf::{audio_description, packet_layout, parsed_caf, resolved_mask, walk_caf_chunks, CafChannelLayout, CafParts, ParsedCaf, CAF_LAYOUT_TAG_USE_CHANNEL_BITMAP, CAF_MAGIC, CAF_VERSION, CHAN_CHUNK_ID, DATA_CHUNK_ID, DESC_CHUNK_ID, LPCM_FORMAT_ID, MAX_CHUNK_SIZE, PAKT_CHUNK_ID};
use crate::caf_output::{caf_chunk, caf_file, caf_head, desc_payload, file_header, info_payload, layout_payload, marker_payload, middle_chunks, optional_caf_chunk, plain_envelope, shape_failure, width_failure, CAF_INFO_CHUNK_ID, CAF_MARK_CHUNK_ID};
use crate::caf_reader::caf_contents;
use crate::error::ErrorView;
use crate::float::{double_of, law_double_reads_back, lemma_scaled, lemma_top_bit, top_bit};
use crate::metadata::MetadataView;
use crate::pcm::{container_bits, encoded_samples, joined_sample_bytes, law_stored_samples_read_back, stored_samples, ByteOrder, PcmEnvelope, PcmSpec};
use crate::raw::{frames_in_bytes, mask_or_zero, order_of, raw_envelope, stream_spec, RawPcmByteOrder, RawPcmDescriptor};
use crate::sample_source::{bytes_from, frame_size, held_samples};

verus! {

/// A float takes eight bytes.
proof fn lemma_double_size(value: u32)
    ensures
        double_of(value) < 0x1_0000_0000_0000_0000,
{
    if value > 0 {
        let place = top_bit(value as nat);
        lemma_top_bit(value as nat);
        lemma2_to64();
        lemma2_to64_rest();
        assert(place < 32) by {
            if place > 32 {
                lemma_pow2_strictly_increases(32, place);
            }
        }
        lemma_scaled(value, place, 52);
        assert((place + 1023) * 0x10_0000_0000_0000 <= 1054 * 0x10_0000_0000_0000);
    }
}

/// The description that a reader finds.
pub open spec fn written_descriptor(spec: PcmSpec) -> RawPcmDescriptor {
    RawPcmDescriptor {
        sample_rate: spec.sample_rate,
        channels: spec.channels,
        valid_bits_per_sample: spec.bits_per_sample,
        container_bits_per_sample: container_bits(spec.bits_per_sample as u16) as u8,
        byte_order: RawPcmByteOrder::LittleEndian,
        channel_mask: None,
    }
}

proof fn lemma_desc_payload(spec: PcmSpec)
    requires
        1 <= spec.channels <= 8,
    ensures
        ({
            let payload = desc_payload(spec);
            let width = (container_bits(spec.bits_per_sample as u16) / 8) as nat;
            &&& payload.len() == 32
            &&& be_at(payload, 0, 8) == double_of(spec.sample_rate)
            &&& bytes_at(payload, 8, 4) == LPCM_FORMAT_ID@
            &&& be_at(payload, 12, 4) == 2
            &&& be_at(payload, 16, 4) == spec.channels * width
            &&& be_at(payload, 20, 4) == 1
            &&& be_at(payload, 24, 4) == spec.channels
            &&& be_at(payload, 28, 4) == spec.bits_per_sample
        }),
{
    let payload = desc_payload(spec);
    let width = (container_bits(spec.bits_per_sample as u16) / 8) as nat;
    let packet = (spec.channels * width) as nat;
    assert(packet <= 32) by (nonlinear_arith)
        requires
            packet == spec.channels * width,
            spec.channels <= 8,
            width <= 4,
    ;
    lemma_byte_ranges();
    lemma_double_size(spec.sample_rate);
    law_be_bytes_read_back(double_of(spec.sample_rate), 8);
    law_be_bytes_read_back(2, 4);
    law_be_bytes_read_back(packet, 4);
    law_be_bytes_read_back(1, 4);
    law_be_bytes_read_back(spec.channels as nat, 4);
    law_be_bytes_read_back(spec.bits_per_sample as nat, 4);
    assert(bytes_at(payload, 0, 8) == be_bytes(double_of(spec.sample_rate), 8));
    assert(bytes_at(payload, 8, 4) == LPCM_FORMAT_ID@);
    assert(bytes_at(payload, 12, 4) == be_bytes(2, 4));
    assert(bytes_at(payload, 16, 4) == be_bytes(packet, 4));
    assert(bytes_at(payload, 20, 4) == be_bytes(1, 4));
    assert(bytes_at(payload, 24, 4) == be_bytes(spec.channels as nat, 4));
    assert(bytes_at(payload, 28, 4) == be_bytes(spec.bits_per_sample as nat, 4));
}

proof fn lemma_description_reads_back(prefix: Seq<u8>, spec: PcmSpec, rest: Seq<u8>)
    requires
        1 <= spec.channels <= 8,
        spec.sample_rate > 0,
    ensures
        audio_description(prefix + desc_payload(spec) + rest, prefix.len(), 32) == Ok::<
            RawPcmDescriptor,
            ErrorView,
        >(written_descriptor(spec)),
{
    let payload = desc_payload(spec);
    let bytes = prefix + payload + rest;
    let start = prefix.len();
    lemma_desc_payload(spec);
    law_double_reads_back(spec.sample_rate);
    assert(bytes_at(bytes, start, 8) == bytes_at(payload, 0, 8));
    assert(bytes_at(bytes, start + 8, 4) == bytes_at(payload, 8, 4));
    assert(bytes_at(bytes, start + 12, 4) == bytes_at(payload, 12, 4));
    assert(bytes_at(bytes, start + 16, 4) == bytes_at(payload, 16, 4));
    assert(bytes_at(bytes, start + 20, 4) == bytes_at(payload, 20, 4));
    assert(bytes_at(bytes, start + 24, 4) == bytes_at(payload, 24, 4));
    assert(bytes_at(bytes, start + 28, 4) == bytes_at(payload, 28, 4));
    lemma_packet(spec);
}

proof fn lemma_packet(spec: PcmSpec)
    requires
        1 <= spec.channels <= 8,
    ensures
        ({
            let width = (container_bits(spec.bits_per_sample as u16) / 8) as nat;
            packet_layout(
                spec.sample_rate,
                2,
                (spec.channels * width) as nat,
                1,
                spec.channels as nat,
                spec.bits_per_sample as nat,
            ) == Ok::<RawPcmDescriptor, ErrorView>(written_descriptor(spec))
        }),
{
    let width = (container_bits(spec.bits_per_sample as u16) / 8) as nat;
    let channels = spec.channels as int;
    lemma_mod_multiples_basic(width as int, channels);
    lemma_div_by_multiple(width as int, channels);
    lemma_mul_is_commutative(width as int, channels);
    assert(channels * width >= 1) by (nonlinear_arith)
        requires
            channels >= 1,
            width >= 1,
    ;
}

/// What the chunks from a position on hold.
#[verifier::opaque]
spec fn walked(bytes: Seq<u8>, position: nat, parts: CafParts) -> std::result::Result<
    CafParts,
    ErrorView,
> {
    walk_caf_chunks(bytes, position, parts)
}

proof fn lemma_caf_ids()
    ensures
        CAF_INFO_CHUNK_ID@ != DATA_CHUNK_ID@,
        CAF_INFO_CHUNK_ID@ != CHAN_CHUNK_ID@,
        CAF_INFO_CHUNK_ID@ != PAKT_CHUNK_ID@,
        CAF_MARK_CHUNK_ID@ != DATA_CHUNK_ID@,
        CAF_MARK_CHUNK_ID@ != CHAN_CHUNK_ID@,
        CAF_MARK_CHUNK_ID@ != PAKT_CHUNK_ID@,
        CHAN_CHUNK_ID@ != DATA_CHUNK_ID@,
{
    assert(CAF_INFO_CHUNK_ID@[0] == 0x69 && CAF_MARK_CHUNK_ID@[0] == 0x6d);
    assert(DATA_CHUNK_ID@[0] == 0x64 && CHAN_CHUNK_ID@[0] == 0x63 && PAKT_CHUNK_ID@[0] == 0x70);
}

proof fn lemma_caf_chunk_header(prefix: Seq<u8>, id: Seq<u8>, payload: Seq<u8>, rest: Seq<u8>)
    requires
        id.len() == 4,
        payload.len() <= MAX_CHUNK_SIZE,
    ensures
        ({
            let bytes = prefix + caf_chunk(id, payload) + rest;
            let position = prefix.len();
            &&& caf_chunk(id, payload).len() == 12 + payload.len()
            &&& available(bytes, position, 12)
            &&& bytes_at(bytes, position, 4) == id
            &&& be_at(bytes, position + 4, 8) == payload.len()
            &&& bytes_at(bytes, position + 12, payload.len()) == payload
        }),
{
    lemma_byte_ranges();
    law_be_bytes_read_back(payload.len(), 8);
    let bytes = prefix + caf_chunk(id, payload) + rest;
    let position = prefix.len();
    assert(bytes_at(bytes, position, 4) == id);
    assert(bytes_at(bytes, position + 4, 8) == be_bytes(payload.len(), 8));
    assert(bytes_at(bytes, position + 12, payload.len()) == payload);
}

/// A chunk that tells nothing of the audio data is passed over.
proof fn lemma_walk_over(
    prefix: Seq<u8>,
    id: Seq<u8>,
    payload: Option<Seq<u8>>,
    rest: Seq<u8>,
    parts: CafParts,
)
    requires
        id.len() == 4,
        id != DATA_CHUNK_ID@,
        id != CHAN_CHUNK_ID@,
        id != PAKT_CHUNK_ID@,
        optional_caf_chunk(id, payload) is Ok,
        prefix.len() + optional_caf_chunk(id, payload)->Ok_0.len() <= u64::MAX,
    ensures
        ({
            let chunk = optional_caf_chunk(id, payload)->Ok_0;
            let bytes = prefix + chunk + rest;
            walked(bytes, prefix.len(), parts) == walked(bytes, prefix.len() + chunk.len(), parts)
        }),
{
    reveal(walked);
    if let Some(payload) = payload {
        lemma_caf_chunk_header(prefix, id, payload, rest);
    }
}

/// The channel layout that a reader finds.
pub open spec fn written_layout(spec: PcmSpec) -> Option<CafChannelLayout> {
    match layout_payload(spec) {
        Ok(Some(_)) => Some(
            CafChannelLayout {
                layout_tag: CAF_LAYOUT_TAG_USE_CHANNEL_BITMAP,
                channel_bitmap: spec.channel_mask,
                number_channel_descriptions: 0,
            },
        ),
        _ => None,
    }
}

proof fn lemma_walk_layout(prefix: Seq<u8>, spec: PcmSpec, rest: Seq<u8>)
    requires
        layout_payload(spec) is Ok,
        prefix.len() + 24 <= u64::MAX,
    ensures
        ({
            let none = CafParts { data: None, layout: None };
            let chunk = optional_caf_chunk(CHAN_CHUNK_ID@, layout_payload(spec)->Ok_0)->Ok_0;
            let bytes = prefix + chunk + rest;
            &&& optional_caf_chunk(CHAN_CHUNK_ID@, layout_payload(spec)->Ok_0) is Ok
            &&& chunk.len() <= 24
            &&& walked(bytes, prefix.len(), none) == walked(
                bytes,
                prefix.len() + chunk.len(),
                CafParts { data: None, layout: written_layout(spec) },
            )
        }),
{
    reveal(walked);
    let none = CafParts { data: None, layout: None };
    if let Some(payload) = layout_payload(spec)->Ok_0 {
        lemma_byte_ranges();
        law_be_bytes_read_back(CAF_LAYOUT_TAG_USE_CHANNEL_BITMAP as nat, 4);
        law_be_bytes_read_back(spec.channel_mask as nat, 4);
        law_be_bytes_read_back(0, 4);
        assert(payload.len() == 12);
        lemma_caf_chunk_header(prefix, CHAN_CHUNK_ID@, payload, rest);
        let bytes = prefix + caf_chunk(CHAN_CHUNK_ID@, payload) + rest;
        let start = prefix.len() + 12;
        lemma_caf_ids();
        assert(bytes_at(bytes, start, 4) == bytes_at(bytes_at(bytes, start, 12), 0, 4));
        assert(bytes_at(bytes, start + 4, 4) == bytes_at(bytes_at(bytes, start, 12), 4, 4));
        assert(bytes_at(bytes, start + 8, 4) == bytes_at(bytes_at(bytes, start, 12), 8, 4));
        assert(bytes_at(payload, 0, 4) == be_bytes(CAF_LAYOUT_TAG_USE_CHANNEL_BITMAP as nat, 4));
        assert(bytes_at(payload, 4, 4) == be_bytes(spec.channel_mask as nat, 4));
        assert(bytes_at(payload, 8, 4) == be_bytes(0, 4));
    }
}

proof fn lemma_walk_data(prefix: Seq<u8>, data: Seq<u8>, layout: Option<CafChannelLayout>)
    requires
        data.len() + 4 <= MAX_CHUNK_SIZE,
        prefix.len() + 16 + data.len() <= u64::MAX,
    ensures
        ({
            let bytes = prefix + caf_chunk(DATA_CHUNK_ID@, be_bytes(0, 4) + data);
            walked(bytes, prefix.len(), CafParts { data: None, layout }) == Ok::<
                CafParts,
                ErrorView,
            >(CafParts { data: Some(((prefix.len() + 16) as u64, data.len() as u64)), layout })
        }),
{
    reveal(walked);
    lemma_be_bytes_len(0, 4);
    let payload = be_bytes(0, 4) + data;
    let chunk = caf_chunk(DATA_CHUNK_ID@, payload);
    let bytes = prefix + chunk;
    lemma_caf_chunk_header(prefix, DATA_CHUNK_ID@, payload, Seq::empty());
    assert(prefix + chunk + Seq::<u8>::empty() == bytes);
    let found = CafParts {
        data: Some(((prefix.len() + 16) as u64, data.len() as u64)),
        layout,
    };
    let end = prefix.len() + 12 + payload.len();
    assert(end == bytes.len());
    assert(walk_caf_chunks(bytes, end, found) == Ok::<CafParts, ErrorView>(found));
}

/// What is found behind the description.
proof fn lemma_walk_pieces(prefix: Seq<u8>, spec: PcmSpec, metadata: MetadataView, data: Seq<u8>)
    requires
        middle_chunks(spec, metadata) is Ok,
        data.len() + 4 <= MAX_CHUNK_SIZE,
        prefix.len() + middle_chunks(spec, metadata)->Ok_0.len() + 16 + data.len() + 24 <= u64::MAX,
    ensures
        ({
            let middle = middle_chunks(spec, metadata)->Ok_0;
            let bytes = prefix + middle + caf_chunk(DATA_CHUNK_ID@, be_bytes(0, 4) + data);
            walked(bytes, prefix.len(), CafParts { data: None, layout: None }) == Ok::<
                CafParts,
                ErrorView,
            >(
                CafParts {
                    data: Some(
                        ((prefix.len() + middle.len() + 16) as u64, data.len() as u64),
                    ),
                    layout: written_layout(spec),
                },
            )
        }),
{
    reveal(middle_chunks);
    let info = info_payload(metadata)->Ok_0;
    let marks = marker_payload(metadata)->Ok_0;
    let first = optional_caf_chunk(CHAN_CHUNK_ID@, layout_payload(spec)->Ok_0)->Ok_0;
    let second = optional_caf_chunk(CAF_INFO_CHUNK_ID@, info)->Ok_0;
    let third = optional_caf_chunk(CAF_MARK_CHUNK_ID@, marks)->Ok_0;
    let last = caf_chunk(DATA_CHUNK_ID@, be_bytes(0, 4) + data);
    let middle = middle_chunks(spec, metadata)->Ok_0;
    let bytes = prefix + middle + last;
    let parts = CafParts { data: None, layout: written_layout(spec) };
    assert(middle == first + second + third);
    lemma_caf_ids();
    assert(bytes == prefix + first + (second + third + last));
    lemma_walk_layout(prefix, spec, second + third + last);
    assert(bytes == (prefix + first) + second + (third + last));
    lemma_walk_over(prefix + first, CAF_INFO_CHUNK_ID@, info, third + last, parts);
    assert(bytes == (prefix + first + second) + third + last);
    lemma_walk_over(prefix + first + second, CAF_MARK_CHUNK_ID@, marks, last, parts);
    assert(bytes == (prefix + first + second + third) + last);
    lemma_walk_data(prefix + first + second + third, data, written_layout(spec));
}

/// The speaker positions that a reader finds.
pub open spec fn read_mask(spec: PcmSpec) -> Option<u32> {
    match layout_payload(spec) {
        Ok(Some(_)) => Some(spec.channel_mask),
        _ => None,
    }
}

proof fn lemma_resolved_mask(spec: PcmSpec)
    requires
        layout_payload(spec) is Ok,
    ensures
        resolved_mask(spec.channels, written_layout(spec)) == Ok::<Option<u32>, ErrorView>(
            read_mask(spec),
        ),
{
}

/// The pieces of a written file.
proof fn lemma_pieces(spec: PcmSpec, metadata: MetadataView, data: Seq<u8>)
    requires
        1 <= spec.channels <= 8,
        caf_head(spec, metadata, data.len()) is Ok,
    ensures
        ({
            let head = caf_head(spec, metadata, data.len())->Ok_0;
            let middle = middle_chunks(spec, metadata)->Ok_0;
            let start = file_header() + (DESC_CHUNK_ID@ + be_bytes(32, 8));
            let last = caf_chunk(DATA_CHUNK_ID@, be_bytes(0, 4) + data);
            &&& middle_chunks(spec, metadata) is Ok
            &&& data.len() + 4 <= MAX_CHUNK_SIZE
            &&& start.len() == 20
            &&& head + data == start + desc_payload(spec) + middle + last
            &&& head.len() == 52 + middle.len() + 16
        }),
{
    reveal(caf_head);
    let head = caf_head(spec, metadata, data.len())->Ok_0;
    let middle = middle_chunks(spec, metadata)->Ok_0;
    let payload = desc_payload(spec);
    let start = file_header() + (DESC_CHUNK_ID@ + be_bytes(32, 8));
    let last = caf_chunk(DATA_CHUNK_ID@, be_bytes(0, 4) + data);
    lemma_desc_payload(spec);
    lemma_be_bytes_len(CAF_VERSION as nat, 2);
    lemma_be_bytes_len(0, 2);
    lemma_be_bytes_len(32, 8);
    lemma_be_bytes_len(0, 4);
    lemma_be_bytes_len(data.len() + 4, 8);
    assert((be_bytes(0, 4) + data).len() == data.len() + 4);
    assert(head + data == start + payload + middle + last);
}

/// The first bytes of a written file.
proof fn lemma_opening(rest: Seq<u8>)
    ensures
        ({
            let file = file_header() + (DESC_CHUNK_ID@ + be_bytes(32, 8)) + rest;
            &&& available(file, 0, 20)
            &&& bytes_at(file, 0, 4) == CAF_MAGIC@
            &&& be_at(file, 4, 2) == CAF_VERSION
            &&& be_at(file, 6, 2) == 0
            &&& bytes_at(file, 8, 4) == DESC_CHUNK_ID@
            &&& be_at(file, 12, 8) == 32
        }),
{
    let file = file_header() + (DESC_CHUNK_ID@ + be_bytes(32, 8)) + rest;
    lemma_byte_ranges();
    law_be_bytes_read_back(CAF_VERSION as nat, 2);
    law_be_bytes_read_back(0, 2);
    law_be_bytes_read_back(32, 8);
    assert(bytes_at(file, 0, 4) == CAF_MAGIC@);
    assert(bytes_at(file, 4, 2) == be_bytes(CAF_VERSION as nat, 2));
    assert(bytes_at(file, 6, 2) == be_bytes(0, 2));
    assert(bytes_at(file, 8, 4) == DESC_CHUNK_ID@);
    assert(bytes_at(file, 12, 8) == be_bytes(32, 8));
}

/// What the whole file says.
proof fn lemma_parsed(spec: PcmSpec, metadata: MetadataView, data: Seq<u8>)
    requires
        1 <= spec.channels <= 8,
        spec.sample_rate > 0,
        caf_head(spec, metadata, data.len()) is Ok,
        caf_head(spec, metadata, data.len())->Ok_0.len() + data.len() + 64 <= u64::MAX,
    ensures
        ({
            let head = caf_head(spec, metadata, data.len())->Ok_0;
            parsed_caf(head + data, 0) == Ok::<ParsedCaf, ErrorView>(
                ParsedCaf {
                    descriptor: read_descriptor(spec),
                    data_offset: head.len() as u64,
                    data_size: data.len() as u64,
                },
            )
        }),
{
    let head = caf_head(spec, metadata, data.len())->Ok_0;
    let middle = middle_chunks(spec, metadata)->Ok_0;
    let payload = desc_payload(spec);
    let start = file_header() + (DESC_CHUNK_ID@ + be_bytes(32, 8));
    let last = caf_chunk(DATA_CHUNK_ID@, be_bytes(0, 4) + data);
    lemma_pieces(spec, metadata, data);
    lemma_desc_payload(spec);
    let prefix = start + payload;
    let file = prefix + middle + last;
    lemma_description_reads_back(start, spec, middle + last);
    assert(file == start + payload + (middle + last));
    lemma_opening(payload + (middle + last));
    assert(file == start + (payload + (middle + last)));
    lemma_walk_pieces(prefix, spec, metadata, data);
    reveal(walked);
    assert(layout_payload(spec) is Ok) by {
        reveal(middle_chunks);
    }
    lemma_resolved_mask(spec);
}

/// The description that a reader finds, with the speaker positions.
pub open spec fn read_descriptor(spec: PcmSpec) -> RawPcmDescriptor {
    RawPcmDescriptor { channel_mask: read_mask(spec), ..written_descriptor(spec) }
}

proof fn lemma_read_envelope(spec: PcmSpec)
    requires
        spec.sample_rate > 0,
        shape_failure(spec) is None,
        width_failure(spec) is None,
    ensures
        raw_envelope(read_descriptor(spec)) == Ok::<PcmEnvelope, ErrorView>(
            PcmEnvelope {
                channel_mask: mask_or_zero(read_mask(spec)),
                ..plain_envelope(spec)
            },
        ),
{
}

proof fn lemma_frames_of(spec: PcmSpec, samples: nat, bytes: nat)
    requires
        spec.sample_rate > 0,
        shape_failure(spec) is None,
        width_failure(spec) is None,
        samples % (spec.channels as nat) == 0,
        bytes == samples * (container_bits(spec.bits_per_sample as u16) / 8) as nat,
        bytes <= u64::MAX,
    ensures
        ({
            let frames = samples / (spec.channels as nat);
            let unit = frame_size(raw_envelope(read_descriptor(spec))->Ok_0);
            &&& frames * spec.channels == samples
            &&& frames <= u64::MAX
            &&& frames * unit == bytes
            &&& frames_in_bytes(bytes as u64, read_descriptor(spec)) == Ok::<u64, ErrorView>(
                frames as u64,
            )
        }),
{
    lemma_read_envelope(spec);
    let channels = spec.channels as int;
    let width = (container_bits(spec.bits_per_sample as u16) / 8) as int;
    let unit = channels * width;
    let frames = samples as int / channels;
    lemma_fundamental_div_mod(samples as int, channels);
    lemma_mul_is_commutative(channels, frames);
    lemma_mul_is_associative(frames, channels, width);
    assert(unit >= 1) by (nonlinear_arith)
        requires
            unit == channels * width,
            channels >= 1,
            width >= 1,
    ;
    lemma_mul_is_commutative(frames, unit);
    lemma_mod_multiples_basic(frames, unit);
    lemma_div_by_multiple(frames, unit);
    assert(frames <= u64::MAX) by (nonlinear_arith)
        requires
            bytes == frames * unit,
            unit >= 1,
            bytes <= u64::MAX,
            frames >= 0,
    ;
}

proof fn lemma_held(bytes: Seq<u8>, frames: nat, envelope: PcmEnvelope, mask: u32)
    requires
        bytes.len() == frames * frame_size(envelope),
    ensures
        held_samples(
            bytes,
            frames,
            PcmEnvelope { channel_mask: mask, ..envelope },
            ByteOrder::Little,
        ) == stored_samples(bytes, envelope, ByteOrder::Little),
{
    assert(bytes.take(bytes.len() as int) == bytes);
    let other = PcmEnvelope { channel_mask: mask, ..envelope };
    assert(stored_samples(bytes, other, ByteOrder::Little) == stored_samples(
        bytes,
        envelope,
        ByteOrder::Little,
    ));
}

/// A file that was written is read back: its description is that of the samples, and
/// the stream that its reader hands out gives the samples. The speaker positions are
/// kept where the file holds them.
pub proof fn law_caf_file_reads_back(spec: PcmSpec, samples: Seq<i32>, metadata: MetadataView)
    requires
        spec.sample_rate > 0,
        forall|i: int|
            0 <= i < samples.len() ==> fits_signed(
                #[trigger] samples[i] as int,
                spec.bits_per_sample as nat,
            ),
        caf_file(spec, samples, metadata) matches Ok(file) ==> file.len() + 64 <= u64::MAX,
    ensures
        caf_file(spec, samples, metadata) matches Ok(file) ==> {
            &&& caf_contents(file, 0) matches Ok((parsed, frames))
            &&& frames * spec.channels == samples.len()
            &&& raw_envelope(parsed.descriptor) matches Ok(envelope)
            &&& stream_spec(parsed.descriptor.sample_rate, frames, envelope) == (PcmSpec {
                total_samples: frames,
                channel_mask: mask_or_zero(read_mask(spec)),
                ..spec
            })
            &&& held_samples(
                bytes_from(file, parsed.data_offset as nat),
                frames as nat,
                envelope,
                order_of(parsed.descriptor.byte_order),
            ) == samples
        },
{
    if let Ok(file) = caf_file(spec, samples, metadata) {
        let envelope = plain_envelope(spec);
        lemma_fitting_samples_are_stored(samples, envelope, ByteOrder::Little);
        law_stored_samples_read_back(samples, envelope, ByteOrder::Little);
        let data = joined_sample_bytes(samples, envelope, ByteOrder::Little);
        let head = caf_head(spec, metadata, data.len())->Ok_0;
        assert(file == head + data);
        lemma_parsed(spec, metadata, data);
        lemma_read_envelope(spec);
        lemma_frames_of(spec, samples.len(), data.len());
        assert(bytes_from(file, head.len()) == data);
        lemma_held(
            data,
            samples.len() / (spec.channels as nat),
            envelope,
            mask_or_zero(read_mask(spec)),
        );
    }
}

/// A file that is written piece by piece is the file that is written at once.
pub proof fn law_streamed_caf_is_whole_caf(
    spec: PcmSpec,
    first: Seq<i32>,
    second: Seq<i32>,
    metadata: MetadataView,
)
    requires
        first.len() + second.len() == spec.total_samples * spec.channels,
    ensures
        caf_file(spec, first + second, metadata) matches Ok(file) ==> {
            let envelope = plain_envelope(spec);
            &&& crate::caf_output::streamed_head(spec, metadata) matches Ok(head)
            &&& encoded_samples(first, envelope, ByteOrder::Little) matches Ok(early)
            &&& encoded_samples(second, envelope, ByteOrder::Little) matches Ok(late)
            &&& file == head + early + late
        },
{
    if let Ok(file) = caf_file(spec, first + second, metadata) {
        let envelope = plain_envelope(spec);
        law_samples_are_stored_piecewise(first, second, envelope, ByteOrder::Little);
        lemma_failure_comes_first(first, second, envelope, ByteOrder::Little);
        if let Ok(early) = encoded_samples(first, envelope, ByteOrder::Little) {
            let data_bytes = (first + second).len() * (envelope.container_bits_per_sample / 8) as nat;
            let head = caf_head(spec, metadata, data_bytes)->Ok_0;
            let late = encoded_samples(second, envelope, ByteOrder::Little)->Ok_0;
            assert(head + (early + late) == head + early + late);
        }
    }
}

} // verus!
