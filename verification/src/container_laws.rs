//! What plain files of each container hold.

use vstd::prelude::*;

use crate::aiff::{after_chunk, aiff_layout, common_chunk, compression_order, extended_rate, layout_of_parts, sound_data, walk_chunks, with_chunk, AiffParts, CommonChunk, AIFC_FORM_TYPE, AIFC_NONE, AIFC_SOWT, AIFF_FORM_TYPE, COMM_CHUNK_ID, FORM_ID, SSND_CHUNK_ID};
use crate::aiff_round_trip::lemma_be_bytes_len;
use crate::byte_reader::{be_at, bytes_at};
use crate::bytes::{be_bytes, law_be_bytes_read_back, law_le_bytes_read_back, le_bytes, lemma_byte_ranges, lemma_le_value_bound};
use crate::caf::{audio_description, parsed_caf, walk_caf_chunks, CafParts, CAF_MAGIC, DATA_CHUNK_ID, DESC_CHUNK_ID, LPCM_FORMAT_ID};
use crate::error::ErrorView;
use crate::float::whole_double;
use crate::input::{input_contents, input_kind, PcmInputKind, WavReaderOptions};
use crate::metadata::DATA_ID;
use crate::pcm::{ordinary_mask, stored_samples, ByteOrder, PcmEnvelope};
use crate::raw::{order_of, raw_envelope, RawPcmByteOrder, RawPcmDescriptor};
use crate::sample_source::{bytes_from, frame_size, held_samples, is_storable};
use crate::storage_laws::{holds_sample, law_ordinary_positions_are_those_of_convention, law_stored_samples_are_what_bytes_hold};
use crate::wav::{first_place, format_descriptor, le_at, place_at, places_from, wav_layout, wav_places, PlaceView, WavLayoutView, WaveKind, CUE_ID, FMT_ID, FXMD_ID, LIST_ID, RIFF_ID, WAVE_ID};
use crate::wav_reader::{drafted_places, wav_envelope, wav_metadata};

verus! {

/// Samples are those that bytes hold one after the other, each in `width` bytes of an order and
/// without the lowest `spare` bits.
pub open spec fn are_held(
    samples: Seq<i32>,
    data: Seq<u8>,
    width: int,
    order: ByteOrder,
    spare: nat,
) -> bool {
    &&& samples.len() * width == data.len()
    &&& forall|i: int|
        #![trigger samples[i]]
        0 <= i < samples.len() ==> holds_sample(
            data.subrange(i * width, i * width + width),
            order,
            spare,
            samples[i] as int,
        )
}

/// The byte order that an Audio Description chunk gives is little-endian exactly if the second
/// lowest bit of the format flags is set, whatever else the chunk says. The numbers of the
/// chunk are those of the stream.
pub proof fn law_caf_flags_give_the_byte_order(bytes: Seq<u8>, start: nat, size: nat)
    ensures
        audio_description(bytes, start, size) matches Ok(descriptor) ==> {
            let flags = be_at(bytes, start + 12, 4);
            let packet = be_at(bytes, start + 16, 4);
            let channels = be_at(bytes, start + 24, 4);
            &&& (descriptor.byte_order == RawPcmByteOrder::LittleEndian <==> flags / 2 % 2 == 1)
            &&& (descriptor.byte_order == RawPcmByteOrder::BigEndian <==> flags / 2 % 2 == 0)
            &&& flags % 2 == 0 && flags < 4
            &&& whole_double(be_at(bytes, start, 8)) == Some(descriptor.sample_rate as nat)
            &&& descriptor.channels == channels
            &&& descriptor.valid_bits_per_sample == be_at(bytes, start + 28, 4)
            &&& descriptor.container_bits_per_sample * channels == packet * 8
            &&& be_at(bytes, start + 20, 4) == 1
        },
{
    if audio_description(bytes, start, size) is Ok {
        let packet = be_at(bytes, start + 16, 4) as int;
        let channels = be_at(bytes, start + 24, 4) as int;
        vstd::arithmetic::div_mod::lemma_fundamental_div_mod(packet, channels);
        let each = packet / channels;
        assert((each * 8) * channels == packet * 8) by (nonlinear_arith)
            requires
                packet == channels * each,
        ;
    }
}

/// A plain Core Audio file: its header, a description of integer samples with the flags and
/// the widths, and the samples.
pub open spec fn plain_caf(
    rate: Seq<u8>,
    flags: nat,
    channels: nat,
    valid: nat,
    width: nat,
    data: Seq<u8>,
) -> Seq<u8> {
    caf_opening() + caf_description(rate, flags, channels, valid, width) + caf_sound(data)
}

pub open spec fn caf_opening() -> Seq<u8> {
    seq!['c' as u8, 'a' as u8, 'f' as u8, 'f' as u8, 0u8, 1u8, 0u8, 0u8] + seq![
        'd' as u8,
        'e' as u8,
        's' as u8,
        'c' as u8,
    ] + be_bytes(32, 8)
}

pub open spec fn caf_description(
    rate: Seq<u8>,
    flags: nat,
    channels: nat,
    valid: nat,
    width: nat,
) -> Seq<u8> {
    rate + seq!['l' as u8, 'p' as u8, 'c' as u8, 'm' as u8] + be_bytes(flags, 4) + be_bytes(
        channels * width,
        4,
    ) + be_bytes(1, 4) + be_bytes(channels, 4) + be_bytes(valid, 4)
}

pub open spec fn caf_sound(data: Seq<u8>) -> Seq<u8> {
    seq!['d' as u8, 'a' as u8, 't' as u8, 'a' as u8] + be_bytes(4 + data.len(), 8) + seq![
        0u8,
        0u8,
        0u8,
        0u8,
    ] + data
}

proof fn lemma_caf_opening()
    ensures
        ({
            let opening = caf_opening();
            &&& opening.len() == 20
            &&& bytes_at(opening, 0, 4) == CAF_MAGIC@
            &&& be_at(opening, 4, 2) == 1
            &&& be_at(opening, 6, 2) == 0
            &&& bytes_at(opening, 8, 4) == DESC_CHUNK_ID@
            &&& be_at(opening, 12, 8) == 32
        }),
{
    lemma_byte_ranges();
    law_be_bytes_read_back(32, 8);
    law_be_bytes_read_back(1, 2);
    law_be_bytes_read_back(0, 2);
    reveal_with_fuel(be_bytes, 3);
    let opening = caf_opening();
    assert(bytes_at(opening, 0, 4) == CAF_MAGIC@);
    assert(bytes_at(opening, 4, 2) == be_bytes(1, 2));
    assert(bytes_at(opening, 6, 2) == be_bytes(0, 2));
    assert(bytes_at(opening, 8, 4) == DESC_CHUNK_ID@);
    assert(bytes_at(opening, 12, 8) == be_bytes(32, 8));
}

proof fn lemma_caf_description(rate: Seq<u8>, flags: nat, channels: nat, valid: nat, width: nat)
    requires
        rate.len() == 8,
        flags <= 2,
        channels <= 8,
        valid <= 32,
        width <= 4,
    ensures
        ({
            let payload = caf_description(rate, flags, channels, valid, width);
            &&& payload.len() == 32
            &&& bytes_at(payload, 0, 8) == rate
            &&& bytes_at(payload, 8, 4) == LPCM_FORMAT_ID@
            &&& be_at(payload, 12, 4) == flags
            &&& be_at(payload, 16, 4) == channels * width
            &&& be_at(payload, 20, 4) == 1
            &&& be_at(payload, 24, 4) == channels
            &&& be_at(payload, 28, 4) == valid
        }),
{
    lemma_byte_ranges();
    assert(channels * width <= 32) by (nonlinear_arith)
        requires
            channels <= 8,
            width <= 4,
    ;
    law_be_bytes_read_back(flags, 4);
    law_be_bytes_read_back(channels * width, 4);
    law_be_bytes_read_back(1, 4);
    law_be_bytes_read_back(channels, 4);
    law_be_bytes_read_back(valid, 4);
    let payload = caf_description(rate, flags, channels, valid, width);
    assert(bytes_at(payload, 0, 8) == rate);
    assert(bytes_at(payload, 8, 4) == LPCM_FORMAT_ID@);
    assert(bytes_at(payload, 12, 4) == be_bytes(flags, 4));
    assert(bytes_at(payload, 16, 4) == be_bytes(channels * width, 4));
    assert(bytes_at(payload, 20, 4) == be_bytes(1, 4));
    assert(bytes_at(payload, 24, 4) == be_bytes(channels, 4));
    assert(bytes_at(payload, 28, 4) == be_bytes(valid, 4));
}

/// The bytes of a part are found in the whole.
proof fn lemma_part(before: Seq<u8>, part: Seq<u8>, after: Seq<u8>, place: nat, count: nat)
    requires
        place + count <= part.len(),
    ensures
        bytes_at(before + part + after, before.len() + place, count) == bytes_at(
            part,
            place,
            count,
        ),
{
    assert(bytes_at(before + part + after, before.len() + place, count) == bytes_at(
        part,
        place,
        count,
    ));
}

/// Samples that fill the bytes behind a place are those that the bytes hold.
proof fn lemma_held(
    bytes: Seq<u8>,
    start: nat,
    data: Seq<u8>,
    frames: nat,
    envelope: PcmEnvelope,
    order: ByteOrder,
)
    requires
        is_storable(envelope),
        start <= bytes.len(),
        bytes.skip(start as int) == data,
        data.len() == frames * frame_size(envelope),
    ensures
        are_held(
            held_samples(bytes_from(bytes, start), frames, envelope, order),
            data,
            (envelope.container_bits_per_sample / 8) as int,
            order,
            (envelope.container_bits_per_sample - envelope.valid_bits_per_sample) as nat,
        ),
{
    let width = (envelope.container_bits_per_sample / 8) as int;
    assert(data.take(data.len() as int) == data);
    law_stored_samples_are_what_bytes_hold(data, envelope, order);
    let samples = stored_samples(data, envelope, order);
    let channels = envelope.channels as int;
    assert(frames * (channels * width) == (frames * channels) * width) by (nonlinear_arith);
    assert(samples.len() * width == data.len()) by (nonlinear_arith)
        requires
            width >= 1,
            data.len() == (frames * channels) * width,
            samples.len() * width <= data.len() < (samples.len() + 1) * width,
    ;
}

proof fn lemma_frame_counts(frames: nat, channels: nat, width: nat)
    requires
        1 <= channels <= 8,
        1 <= width <= 4,
    ensures
        frames * (channels * width) == (frames * channels) * width,
        (frames * (channels * width)) % (channels * width) == 0,
        (frames * (channels * width)) / (channels * width) == frames,
        channels * width >= 1,
        (channels * width) % channels == 0,
        (channels * width) / channels == width,
{
    assert(frames * (channels * width) == (frames * channels) * width && channels * width >= 1)
        by (nonlinear_arith)
        requires
            channels >= 1,
            width >= 1,
    ;
    vstd::arithmetic::div_mod::lemma_mod_multiples_basic(frames as int, (channels * width) as int);
    vstd::arithmetic::div_mod::lemma_div_by_multiple(frames as int, (channels * width) as int);
    vstd::arithmetic::mul::lemma_mul_is_commutative(channels as int, width as int);
    vstd::arithmetic::div_mod::lemma_mod_multiples_basic(width as int, channels as int);
    vstd::arithmetic::div_mod::lemma_div_by_multiple(width as int, channels as int);
}

proof fn lemma_plain_caf(
    rate: Seq<u8>,
    sample_rate: u32,
    flags: nat,
    channels: nat,
    valid: nat,
    width: nat,
    data: Seq<u8>,
)
    requires
        rate.len() == 8,
        whole_double(be_at(rate, 0, 8)) == Some(sample_rate as nat),
        flags == 0 || flags == 2,
        1 <= channels <= 2,
        4 <= valid <= 8 * width,
        width <= 4,
        data.len() <= 0x7fff_ffff_ffff_0000,
    ensures
        ({
            let file = plain_caf(rate, flags, channels, valid, width, data);
            let parsed = parsed_caf(file, 0);
            &&& file.len() == 68 + data.len()
            &&& file.skip(68) == data
            &&& input_kind(file, 0) == PcmInputKind::Caf
            &&& parsed is Ok
            &&& parsed->Ok_0.data_offset == 68
            &&& parsed->Ok_0.data_size == data.len()
            &&& parsed->Ok_0.descriptor == (RawPcmDescriptor {
                sample_rate,
                channels: channels as u8,
                valid_bits_per_sample: valid as u8,
                container_bits_per_sample: (8 * width) as u8,
                byte_order: if flags == 2 {
                    RawPcmByteOrder::LittleEndian
                } else {
                    RawPcmByteOrder::BigEndian
                },
                channel_mask: None,
            })
        }),
{
    let file = plain_caf(rate, flags, channels, valid, width, data);
    let opening = caf_opening();
    let payload = caf_description(rate, flags, channels, valid, width);
    let sound = caf_sound(data);
    let none = Seq::<u8>::empty();
    lemma_caf_opening();
    lemma_caf_description(rate, flags, channels, valid, width);
    lemma_byte_ranges();
    law_be_bytes_read_back(4 + data.len(), 8);
    lemma_frame_counts(0, channels, width);
    assert(be_at(rate, 0, 8) == be_at(payload, 0, 8)) by {
        assert(bytes_at(rate, 0, 8) == rate);
    }
    assert(file == none + opening + (payload + sound));
    assert(file == opening + payload + sound);
    assert(file == (opening + payload) + sound + none);
    lemma_part(none, opening, payload + sound, 0, 4);
    lemma_part(none, opening, payload + sound, 4, 2);
    lemma_part(none, opening, payload + sound, 6, 2);
    lemma_part(none, opening, payload + sound, 8, 4);
    lemma_part(none, opening, payload + sound, 12, 8);
    lemma_part(opening, payload, sound, 0, 8);
    lemma_part(opening, payload, sound, 8, 4);
    lemma_part(opening, payload, sound, 12, 4);
    lemma_part(opening, payload, sound, 16, 4);
    lemma_part(opening, payload, sound, 20, 4);
    lemma_part(opening, payload, sound, 24, 4);
    lemma_part(opening, payload, sound, 28, 4);
    lemma_part(opening + payload, sound, none, 0, 4);
    lemma_part(opening + payload, sound, none, 4, 8);
    assert(bytes_at(sound, 0, 4) == DATA_CHUNK_ID@);
    assert(bytes_at(sound, 4, 8) == be_bytes(4 + data.len(), 8));
    assert(file.skip(68) == data);
    assert(audio_description(file, 20, 32) is Ok);
    let parts = CafParts { data: None, layout: None };
    let found = CafParts { data: Some((68u64, data.len() as u64)), layout: None };
    assert(walk_caf_chunks(file, 68 + data.len(), found) == Ok::<CafParts, ErrorView>(found));
    assert(walk_caf_chunks(file, 52, parts) == walk_caf_chunks(file, 68 + data.len(), found));
}

/// What a parsed file holds.
proof fn lemma_caf_samples(
    file: Seq<u8>,
    sample_rate: u32,
    channels: nat,
    valid: nat,
    width: nat,
    frames: nat,
    data: Seq<u8>,
    options: WavReaderOptions,
)
    requires
        sample_rate > 0,
        1 <= channels <= 2,
        4 <= valid <= 8 * width,
        width <= 4,
        data.len() == frames * (channels * width),
        data.len() <= 0x7fff_ffff_ffff_0000,
        file.len() == 68 + data.len(),
        file.skip(68) == data,
        input_kind(file, 0) == PcmInputKind::Caf,
        parsed_caf(file, 0) is Ok,
        parsed_caf(file, 0)->Ok_0.data_offset == 68,
        parsed_caf(file, 0)->Ok_0.data_size == data.len(),
        ({
            let descriptor = parsed_caf(file, 0)->Ok_0.descriptor;
            &&& descriptor.sample_rate == sample_rate
            &&& descriptor.channels == channels
            &&& descriptor.valid_bits_per_sample == valid
            &&& descriptor.container_bits_per_sample == 8 * width
            &&& descriptor.channel_mask is None
        }),
    ensures
        ({
            let contents = input_contents(file, 0, options);
            &&& contents is Ok
            &&& contents->Ok_0.spec.sample_rate == sample_rate
            &&& contents->Ok_0.spec.channels == channels
            &&& contents->Ok_0.spec.bits_per_sample == valid
            &&& contents->Ok_0.spec.total_samples == frames
            &&& contents->Ok_0.is_complete
            &&& are_held(
                contents->Ok_0.samples,
                data,
                width as int,
                order_of(parsed_caf(file, 0)->Ok_0.descriptor.byte_order),
                (8 * width - valid) as nat,
            )
        }),
{
    lemma_frame_counts(frames, channels, width);
    let descriptor = parsed_caf(file, 0)->Ok_0.descriptor;
    let envelope = raw_envelope(descriptor)->Ok_0;
    assert(raw_envelope(descriptor) is Ok);
    assert(frame_size(envelope) == channels * width);
    assert(frames <= data.len()) by (nonlinear_arith)
        requires
            data.len() == frames * (channels * width),
            channels * width >= 1,
    ;
    lemma_held(file, 68, data, frames, envelope, order_of(descriptor.byte_order));
}

/// A plain Core Audio file is read as it is described: its samples are what its bytes hold, the
/// most significant byte first where the flags are zero and the least significant one where
/// they are two, at every width.
pub proof fn law_plain_caf_files_are_read(
    rate: Seq<u8>,
    sample_rate: u32,
    flags: nat,
    channels: nat,
    valid: nat,
    width: nat,
    frames: nat,
    data: Seq<u8>,
    options: WavReaderOptions,
)
    requires
        rate.len() == 8,
        whole_double(be_at(rate, 0, 8)) == Some(sample_rate as nat),
        sample_rate > 0,
        flags == 0 || flags == 2,
        1 <= channels <= 2,
        4 <= valid <= 8 * width,
        width <= 4,
        data.len() == frames * (channels * width),
        data.len() <= 0x7fff_ffff_ffff_0000,
    ensures
        ({
            let contents = input_contents(
                plain_caf(rate, flags, channels, valid, width, data),
                0,
                options,
            );
            &&& contents is Ok
            &&& contents->Ok_0.spec.sample_rate == sample_rate
            &&& contents->Ok_0.spec.channels == channels
            &&& contents->Ok_0.spec.bits_per_sample == valid
            &&& contents->Ok_0.spec.total_samples == frames
            &&& contents->Ok_0.is_complete
            &&& are_held(
                contents->Ok_0.samples,
                data,
                width as int,
                if flags == 2 {
                    ByteOrder::Little
                } else {
                    ByteOrder::Big
                },
                (8 * width - valid) as nat,
            )
        }),
{
    lemma_plain_caf(rate, sample_rate, flags, channels, valid, width, data);
    lemma_frame_counts(frames, channels, width);
    lemma_caf_samples(
        plain_caf(rate, flags, channels, valid, width, data),
        sample_rate,
        channels,
        valid,
        width,
        frames,
        data,
        options,
    );
}

/// A plain AIFF or AIFC file: its form, the description of its samples, and the samples. The
/// compression type of an AIFC file has an empty name.
pub open spec fn plain_aiff(
    compression: Option<Seq<u8>>,
    size: nat,
    channels: nat,
    frames: nat,
    valid: nat,
    rate: Seq<u8>,
    data: Seq<u8>,
) -> Seq<u8> {
    aiff_opening(compression is Some, size) + aiff_common(
        compression,
        channels,
        frames,
        valid,
        rate,
    ) + aiff_sound(data)
}

pub open spec fn aiff_opening(is_aifc: bool, size: nat) -> Seq<u8> {
    seq!['F' as u8, 'O' as u8, 'R' as u8, 'M' as u8] + be_bytes(size, 4) + seq![
        'A' as u8,
        'I' as u8,
        'F' as u8,
        if is_aifc {
            'C' as u8
        } else {
            'F' as u8
        },
    ]
}

pub open spec fn aiff_kind(compression: Option<Seq<u8>>) -> Seq<u8> {
    match compression {
        None => Seq::empty(),
        Some(id) => id + seq![0u8, 0u8],
    }
}

pub open spec fn aiff_common(
    compression: Option<Seq<u8>>,
    channels: nat,
    frames: nat,
    valid: nat,
    rate: Seq<u8>,
) -> Seq<u8> {
    seq!['C' as u8, 'O' as u8, 'M' as u8, 'M' as u8] + be_bytes(
        18 + aiff_kind(compression).len(),
        4,
    ) + be_bytes(channels, 2) + be_bytes(frames, 4) + be_bytes(valid, 2) + rate + aiff_kind(
        compression,
    )
}

pub open spec fn aiff_sound(data: Seq<u8>) -> Seq<u8> {
    seq!['S' as u8, 'S' as u8, 'N' as u8, 'D' as u8] + be_bytes(8 + data.len(), 4) + be_bytes(0, 4)
        + be_bytes(0, 4) + data
}

/// The compression types without a compression: the most significant byte first in any width,
/// or the least significant one first in 16 bits.
pub open spec fn is_plain_kind(compression: Option<Seq<u8>>, valid: nat, order: ByteOrder) -> bool {
    match compression {
        None => order == ByteOrder::Big,
        Some(id) => {
            ||| id == seq!['N' as u8, 'O' as u8, 'N' as u8, 'E' as u8] && order == ByteOrder::Big
            ||| id == seq!['s' as u8, 'o' as u8, 'w' as u8, 't' as u8] && order
                == ByteOrder::Little && valid == 16
        },
    }
}

proof fn lemma_aiff_opening(is_aifc: bool, size: nat)
    ensures
        ({
            let opening = aiff_opening(is_aifc, size);
            &&& opening.len() == 12
            &&& bytes_at(opening, 0, 4) == FORM_ID@
            &&& bytes_at(opening, 8, 4) == if is_aifc {
                AIFC_FORM_TYPE@
            } else {
                AIFF_FORM_TYPE@
            }
            &&& AIFC_FORM_TYPE@ != AIFF_FORM_TYPE@
        }),
{
    lemma_be_bytes_len(size, 4);
    let opening = aiff_opening(is_aifc, size);
    assert(bytes_at(opening, 0, 4) == FORM_ID@);
    assert(bytes_at(opening, 8, 4) == if is_aifc {
        AIFC_FORM_TYPE@
    } else {
        AIFF_FORM_TYPE@
    });
    assert(AIFC_FORM_TYPE@[3] != AIFF_FORM_TYPE@[3]);
}

proof fn lemma_aiff_common(
    compression: Option<Seq<u8>>,
    channels: nat,
    frames: nat,
    valid: nat,
    rate: Seq<u8>,
)
    requires
        compression matches Some(id) ==> id.len() == 4,
        channels <= 8,
        frames < 0x1_0000_0000,
        valid <= 32,
        rate.len() == 10,
    ensures
        ({
            let chunk = aiff_common(compression, channels, frames, valid, rate);
            let more = aiff_kind(compression).len();
            &&& chunk.len() == 26 + more
            &&& more == if compression is Some {
                6nat
            } else {
                0
            }
            &&& bytes_at(chunk, 0, 4) == COMM_CHUNK_ID@
            &&& be_at(chunk, 4, 4) == 18 + more
            &&& be_at(chunk, 8, 2) == channels
            &&& be_at(chunk, 10, 4) == frames
            &&& be_at(chunk, 14, 2) == valid
            &&& bytes_at(chunk, 16, 10) == rate
            &&& compression matches Some(id) ==> bytes_at(chunk, 26, 4) == id
        }),
{
    lemma_byte_ranges();
    let kind = aiff_kind(compression);
    let chunk = aiff_common(compression, channels, frames, valid, rate);
    law_be_bytes_read_back(18 + kind.len(), 4);
    law_be_bytes_read_back(channels, 2);
    law_be_bytes_read_back(frames, 4);
    law_be_bytes_read_back(valid, 2);
    assert(bytes_at(chunk, 0, 4) == COMM_CHUNK_ID@);
    assert(bytes_at(chunk, 4, 4) == be_bytes(18 + kind.len(), 4));
    assert(bytes_at(chunk, 8, 2) == be_bytes(channels, 2));
    assert(bytes_at(chunk, 10, 4) == be_bytes(frames, 4));
    assert(bytes_at(chunk, 14, 2) == be_bytes(valid, 2));
    assert(bytes_at(chunk, 16, 10) == rate);
    if let Some(id) = compression {
        assert(bytes_at(chunk, 26, 4) == id);
    }
}

proof fn lemma_aiff_sound(data: Seq<u8>)
    requires
        data.len() < 0xffff_fff0,
    ensures
        ({
            let chunk = aiff_sound(data);
            &&& chunk.len() == 16 + data.len()
            &&& bytes_at(chunk, 0, 4) == SSND_CHUNK_ID@
            &&& be_at(chunk, 4, 4) == 8 + data.len()
            &&& be_at(chunk, 8, 4) == 0
            &&& COMM_CHUNK_ID@ != SSND_CHUNK_ID@
        }),
{
    lemma_byte_ranges();
    law_be_bytes_read_back(8 + data.len(), 4);
    law_be_bytes_read_back(0, 4);
    let chunk = aiff_sound(data);
    assert(bytes_at(chunk, 0, 4) == SSND_CHUNK_ID@);
    assert(bytes_at(chunk, 4, 4) == be_bytes(8 + data.len(), 4));
    assert(bytes_at(chunk, 8, 4) == be_bytes(0, 4));
    assert(COMM_CHUNK_ID@[0] != SSND_CHUNK_ID@[0]);
}

/// The names of the compression types differ.
proof fn lemma_kinds(compression: Option<Seq<u8>>, valid: u16, order: ByteOrder)
    requires
        is_plain_kind(compression, valid as nat, order),
    ensures
        compression matches Some(id) ==> id.len() == 4 && compression_order(id, valid) == Ok::<
            ByteOrder,
            ErrorView,
        >(order),
{
    if let Some(id) = compression {
        if order == ByteOrder::Big {
            assert(id == AIFC_NONE@);
        } else {
            assert(id == AIFC_SOWT@);
            assert(AIFC_NONE@[0] != AIFC_SOWT@[0]);
        }
    }
}

/// The chunks of a file with the given fields.
proof fn lemma_aiff_chunks(
    file: Seq<u8>,
    compression: Option<Seq<u8>>,
    channels: nat,
    frames: nat,
    valid: nat,
    rate: Seq<u8>,
    sample_rate: u32,
    order: ByteOrder,
    size: nat,
)
    requires
        is_plain_kind(compression, valid, order),
        channels <= 8,
        frames < 0x1_0000_0000,
        valid <= 32,
        size < 0xffff_fff0,
        extended_rate(rate) == Ok::<u32, ErrorView>(sample_rate),
        ({
            let more = if compression is Some {
                6nat
            } else {
                0
            };
            &&& file.len() == 54 + more + size
            &&& bytes_at(file, 12, 4) == COMM_CHUNK_ID@
            &&& be_at(file, 16, 4) == 18 + more
            &&& be_at(file, 20, 2) == channels
            &&& be_at(file, 22, 4) == frames
            &&& be_at(file, 26, 2) == valid
            &&& bytes_at(file, 28, 10) == rate
            &&& compression matches Some(id) ==> bytes_at(file, 38, 4) == id
            &&& bytes_at(file, 38 + more, 4) == SSND_CHUNK_ID@
            &&& be_at(file, 42 + more, 4) == 8 + size
            &&& be_at(file, 46 + more, 4) == 0
            &&& COMM_CHUNK_ID@ != SSND_CHUNK_ID@
        }),
    ensures
        ({
            let more = if compression is Some {
                6nat
            } else {
                0
            };
            walk_chunks(
                file,
                12,
                compression is Some,
                AiffParts { common: None, data_offset: None, data_size: None },
            ) == Ok::<AiffParts, ErrorView>(
                AiffParts {
                    common: Some(
                        CommonChunk {
                            channels: channels as u16,
                            sample_frames: frames as u64,
                            valid_bits_per_sample: valid as u16,
                            sample_rate,
                            byte_order: order,
                        },
                    ),
                    data_offset: Some((54 + more) as u64),
                    data_size: Some(size as u64),
                },
            )
        }),
{
    let more = if compression is Some {
        6nat
    } else {
        0
    };
    lemma_kinds(compression, valid as u16, order);
    let none = AiffParts { common: None, data_offset: None, data_size: None };
    let common = common_chunk(file, 20, 18 + more, compression is Some);
    assert(common is Ok);
    let first = AiffParts { common: Some(common->Ok_0), ..none };
    assert(with_chunk(file, COMM_CHUNK_ID@, 20, 18 + more, compression is Some, none) == Ok::<
        AiffParts,
        ErrorView,
    >(first));
    assert(walk_chunks(file, 12, compression is Some, none) == walk_chunks(
        file,
        38 + more,
        compression is Some,
        first,
    ));
    let both = AiffParts {
        data_offset: Some((54 + more) as u64),
        data_size: Some(size as u64),
        ..first
    };
    assert(sound_data(file, 46 + more, 8 + size) == Ok::<(u64, u64), ErrorView>(
        ((54 + more) as u64, size as u64),
    ));
    let end = after_chunk(46 + more, 8 + size)->Ok_0;
    assert(walk_chunks(file, end, compression is Some, both) == Ok::<AiffParts, ErrorView>(both));
    assert(walk_chunks(file, 38 + more, compression is Some, first) == walk_chunks(
        file,
        end,
        compression is Some,
        both,
    ));
}

proof fn lemma_plain_aiff(
    compression: Option<Seq<u8>>,
    size: nat,
    channels: nat,
    frames: nat,
    valid: nat,
    rate: Seq<u8>,
    sample_rate: u32,
    order: ByteOrder,
    data: Seq<u8>,
)
    requires
        is_plain_kind(compression, valid, order),
        channels <= 8,
        frames < 0x1_0000_0000,
        valid <= 32,
        data.len() < 0xffff_fff0,
        rate.len() == 10,
        extended_rate(rate) == Ok::<u32, ErrorView>(sample_rate),
    ensures
        ({
            let file = plain_aiff(compression, size, channels, frames, valid, rate, data);
            let start = if compression is Some {
                60nat
            } else {
                54
            };
            &&& file.len() == start + data.len()
            &&& file.skip(start as int) == data
            &&& input_kind(file, 0) == PcmInputKind::AiffLike
            &&& aiff_layout(file, 0) == layout_of_parts(
                AiffParts {
                    common: Some(
                        CommonChunk {
                            channels: channels as u16,
                            sample_frames: frames as u64,
                            valid_bits_per_sample: valid as u16,
                            sample_rate,
                            byte_order: order,
                        },
                    ),
                    data_offset: Some(start as u64),
                    data_size: Some(data.len() as u64),
                },
            )
        }),
{
    let file = plain_aiff(compression, size, channels, frames, valid, rate, data);
    let opening = aiff_opening(compression is Some, size);
    let common = aiff_common(compression, channels, frames, valid, rate);
    let sound = aiff_sound(data);
    let none = Seq::<u8>::empty();
    let more = aiff_kind(compression).len();
    lemma_kinds(compression, valid as u16, order);
    lemma_aiff_opening(compression is Some, size);
    lemma_aiff_common(compression, channels, frames, valid, rate);
    lemma_aiff_sound(data);
    assert(file == none + opening + (common + sound));
    assert(file == opening + common + sound);
    assert(file == (opening + common) + sound + none);
    lemma_part(none, opening, common + sound, 0, 4);
    lemma_part(none, opening, common + sound, 8, 4);
    lemma_part(opening, common, sound, 0, 4);
    lemma_part(opening, common, sound, 4, 4);
    lemma_part(opening, common, sound, 8, 2);
    lemma_part(opening, common, sound, 10, 4);
    lemma_part(opening, common, sound, 14, 2);
    lemma_part(opening, common, sound, 16, 10);
    if compression is Some {
        lemma_part(opening, common, sound, 26, 4);
    }
    lemma_part(opening + common, sound, none, 0, 4);
    lemma_part(opening + common, sound, none, 4, 4);
    lemma_part(opening + common, sound, none, 8, 4);
    assert(file.skip((54 + more) as int) == data);
    lemma_aiff_chunks(
        file,
        compression,
        channels,
        frames,
        valid,
        rate,
        sample_rate,
        order,
        data.len(),
    );
}

/// A plain AIFF or AIFC file is read as it is described: its samples are what its bytes hold,
/// the most significant byte first, but for the type `sowt`, which has the least significant
/// one first. They stand at the top of the smallest whole number of bytes.
pub proof fn law_plain_aiff_files_are_read(
    compression: Option<Seq<u8>>,
    size: nat,
    channels: nat,
    frames: nat,
    valid: nat,
    width: nat,
    rate: Seq<u8>,
    sample_rate: u32,
    order: ByteOrder,
    data: Seq<u8>,
    options: WavReaderOptions,
)
    requires
        is_plain_kind(compression, valid, order),
        1 <= channels <= 8,
        frames < 0x1_0000_0000,
        4 <= valid <= 32,
        8 * width - 8 < valid <= 8 * width,
        data.len() == frames * (channels * width),
        data.len() < 0xffff_fff0,
        rate.len() == 10,
        extended_rate(rate) == Ok::<u32, ErrorView>(sample_rate),
        sample_rate > 0,
    ensures
        ({
            let contents = input_contents(
                plain_aiff(compression, size, channels, frames, valid, rate, data),
                0,
                options,
            );
            &&& contents is Ok
            &&& contents->Ok_0.spec.sample_rate == sample_rate
            &&& contents->Ok_0.spec.channels == channels
            &&& contents->Ok_0.spec.bits_per_sample == valid
            &&& contents->Ok_0.spec.total_samples == frames
            &&& contents->Ok_0.is_complete
            &&& are_held(
                contents->Ok_0.samples,
                data,
                width as int,
                order,
                (8 * width - valid) as nat,
            )
        }),
{
    lemma_plain_aiff(compression, size, channels, frames, valid, rate, sample_rate, order, data);
    lemma_frame_counts(frames, channels, width);
    let start = if compression is Some {
        60nat
    } else {
        54
    };
    lemma_aiff_samples(
        plain_aiff(compression, size, channels, frames, valid, rate, data),
        start,
        channels,
        frames,
        valid,
        width,
        sample_rate,
        order,
        data,
        options,
    );
}

/// What a file with these chunks holds.
proof fn lemma_aiff_samples(
    file: Seq<u8>,
    start: nat,
    channels: nat,
    frames: nat,
    valid: nat,
    width: nat,
    sample_rate: u32,
    order: ByteOrder,
    data: Seq<u8>,
    options: WavReaderOptions,
)
    requires
        1 <= channels <= 8,
        frames < 0x1_0000_0000,
        4 <= valid <= 32,
        8 * width - 8 < valid <= 8 * width,
        data.len() == frames * (channels * width),
        data.len() < 0xffff_fff0,
        sample_rate > 0,
        start <= 60,
        file.len() == start + data.len(),
        file.skip(start as int) == data,
        input_kind(file, 0) == PcmInputKind::AiffLike,
        aiff_layout(file, 0) == layout_of_parts(
            AiffParts {
                common: Some(
                    CommonChunk {
                        channels: channels as u16,
                        sample_frames: frames as u64,
                        valid_bits_per_sample: valid as u16,
                        sample_rate,
                        byte_order: order,
                    },
                ),
                data_offset: Some(start as u64),
                data_size: Some(data.len() as u64),
            },
        ),
    ensures
        ({
            let contents = input_contents(file, 0, options);
            &&& contents is Ok
            &&& contents->Ok_0.spec.sample_rate == sample_rate
            &&& contents->Ok_0.spec.channels == channels
            &&& contents->Ok_0.spec.bits_per_sample == valid
            &&& contents->Ok_0.spec.total_samples == frames
            &&& contents->Ok_0.is_complete
            &&& are_held(
                contents->Ok_0.samples,
                data,
                width as int,
                order,
                (8 * width - valid) as nat,
            )
        }),
{
    lemma_frame_counts(frames, channels, width);
    let layout = aiff_layout(file, 0)->Ok_0;
    assert(frame_size(layout.envelope) == channels * width);
    assert(aiff_layout(file, 0) is Ok);
    lemma_held(file, start, data, frames, layout.envelope, order);
}

/// The bytes of a number are as many as are asked for.
proof fn lemma_le_bytes_len(value: nat, count: nat)
    ensures
        le_bytes(value, count).len() == count,
    decreases count,
{
    if count > 0 {
        lemma_le_bytes_len(value / 256, (count - 1) as nat);
    }
}

/// A plain wave file: its form, the description of its samples, and the samples.
pub open spec fn plain_wave(
    size: nat,
    channels: nat,
    sample_rate: nat,
    speed: nat,
    valid: nat,
    width: nat,
    data: Seq<u8>,
) -> Seq<u8> {
    wave_opening(size) + wave_format(channels, sample_rate, speed, valid, width) + wave_sound(data)
}

pub open spec fn wave_opening(size: nat) -> Seq<u8> {
    seq!['R' as u8, 'I' as u8, 'F' as u8, 'F' as u8] + le_bytes(size, 4) + seq![
        'W' as u8,
        'A' as u8,
        'V' as u8,
        'E' as u8,
    ]
}

pub open spec fn wave_format(
    channels: nat,
    sample_rate: nat,
    speed: nat,
    valid: nat,
    width: nat,
) -> Seq<u8> {
    seq!['f' as u8, 'm' as u8, 't' as u8, ' ' as u8] + le_bytes(16, 4) + le_bytes(1, 2) + le_bytes(
        channels,
        2,
    ) + le_bytes(sample_rate, 4) + le_bytes(speed, 4) + le_bytes(channels * width, 2) + le_bytes(
        valid,
        2,
    )
}

pub open spec fn wave_sound(data: Seq<u8>) -> Seq<u8> {
    seq!['d' as u8, 'a' as u8, 't' as u8, 'a' as u8] + le_bytes(data.len(), 4) + data
}

proof fn lemma_wave_opening(size: nat)
    ensures
        ({
            let opening = wave_opening(size);
            &&& opening.len() == 12
            &&& bytes_at(opening, 0, 4) == RIFF_ID@
            &&& bytes_at(opening, 8, 4) == WAVE_ID@
            &&& RIFF_ID@ != FORM_ID@
            &&& RIFF_ID@ != CAF_MAGIC@
        }),
{
    lemma_le_bytes_len(size, 4);
    let opening = wave_opening(size);
    assert(bytes_at(opening, 0, 4) == RIFF_ID@);
    assert(bytes_at(opening, 8, 4) == WAVE_ID@);
    assert(RIFF_ID@[0] != FORM_ID@[0]);
    assert(RIFF_ID@[0] != CAF_MAGIC@[0]);
}

proof fn lemma_wave_format(
    channels: nat,
    sample_rate: nat,
    speed: nat,
    valid: nat,
    width: nat,
)
    requires
        channels <= 8,
        sample_rate < 0x1_0000_0000,
        valid <= 32,
        width <= 4,
    ensures
        ({
            let chunk = wave_format(channels, sample_rate, speed, valid, width);
            &&& chunk.len() == 24
            &&& bytes_at(chunk, 0, 4) == FMT_ID@
            &&& le_at(chunk, 4, 4) == 16
            &&& le_at(chunk, 8, 2) == 1
            &&& le_at(chunk, 10, 2) == channels
            &&& le_at(chunk, 12, 4) == sample_rate
            &&& le_at(chunk, 20, 2) == channels * width
            &&& le_at(chunk, 22, 2) == valid
        }),
{
    lemma_byte_ranges();
    assert(channels * width <= 32) by (nonlinear_arith)
        requires
            channels <= 8,
            width <= 4,
    ;
    law_le_bytes_read_back(16, 4);
    law_le_bytes_read_back(1, 2);
    law_le_bytes_read_back(channels, 2);
    law_le_bytes_read_back(sample_rate, 4);
    lemma_le_bytes_len(speed, 4);
    law_le_bytes_read_back(channels * width, 2);
    law_le_bytes_read_back(valid, 2);
    let chunk = wave_format(channels, sample_rate, speed, valid, width);
    assert(bytes_at(chunk, 0, 4) == FMT_ID@);
    assert(bytes_at(chunk, 4, 4) == le_bytes(16, 4));
    assert(bytes_at(chunk, 8, 2) == le_bytes(1, 2));
    assert(bytes_at(chunk, 10, 2) == le_bytes(channels, 2));
    assert(bytes_at(chunk, 12, 4) == le_bytes(sample_rate, 4));
    assert(bytes_at(chunk, 20, 2) == le_bytes(channels * width, 2));
    assert(bytes_at(chunk, 22, 2) == le_bytes(valid, 2));
}

proof fn lemma_wave_sound(data: Seq<u8>)
    requires
        data.len() < 0x1_0000_0000,
    ensures
        ({
            let chunk = wave_sound(data);
            &&& chunk.len() == 8 + data.len()
            &&& bytes_at(chunk, 0, 4) == DATA_ID@
            &&& le_at(chunk, 4, 4) == data.len()
        }),
{
    lemma_byte_ranges();
    law_le_bytes_read_back(data.len(), 4);
    let chunk = wave_sound(data);
    assert(bytes_at(chunk, 0, 4) == DATA_ID@);
    assert(bytes_at(chunk, 4, 4) == le_bytes(data.len(), 4));
}

/// What the payload of a format chunk says, as its numbers are.
proof fn lemma_format_payload(
    payload: Seq<u8>,
    channels: nat,
    sample_rate: u32,
    valid: nat,
    width: nat,
)
    requires
        payload.len() == 16,
        le_at(payload, 0, 2) == 1,
        le_at(payload, 2, 2) == channels,
        le_at(payload, 4, 4) == sample_rate,
        le_at(payload, 12, 2) == channels * width,
        le_at(payload, 14, 2) == valid,
        1 <= channels <= 8,
        4 <= valid <= 32,
        8 * width - 8 < valid <= 8 * width,
        sample_rate > 0,
    ensures
        ({
            let descriptor = format_descriptor(payload);
            &&& descriptor is Ok
            &&& descriptor->Ok_0.sample_rate == sample_rate
            &&& descriptor->Ok_0.channels == channels
            &&& descriptor->Ok_0.valid_bits_per_sample == valid
            &&& descriptor->Ok_0.container_bits_per_sample == 8 * width
            &&& raw_envelope(descriptor->Ok_0) is Ok
        }),
{
    assert((channels * width) * 8 == channels * (8 * width)) by (nonlinear_arith);
    law_ordinary_positions_are_those_of_convention(channels as u16);
}

/// The layout of a file with the given fields.
proof fn lemma_wave_chunks(
    file: Seq<u8>,
    channels: nat,
    sample_rate: u32,
    valid: nat,
    width: nat,
    size: nat,
    frames: nat,
)
    requires
        file.len() == 44 + size,
        size < 0x1_0000_0000,
        size == frames * (channels * width),
        bytes_at(file, 0, 4) == RIFF_ID@,
        bytes_at(file, 8, 4) == WAVE_ID@,
        bytes_at(file, 12, 4) == FMT_ID@,
        le_at(file, 16, 4) == 16,
        le_at(file, 20, 2) == 1,
        le_at(file, 22, 2) == channels,
        le_at(file, 24, 4) == sample_rate,
        le_at(file, 32, 2) == channels * width,
        le_at(file, 34, 2) == valid,
        bytes_at(file, 36, 4) == DATA_ID@,
        le_at(file, 40, 4) == size,
        1 <= channels <= 8,
        4 <= valid <= 32,
        8 * width - 8 < valid <= 8 * width,
        sample_rate > 0,
    ensures
        ({
            let layout = wav_layout(file, 0);
            &&& layout is Ok
            &&& layout->Ok_0.data_offset == 44
            &&& layout->Ok_0.frames == frames
            &&& layout->Ok_0.descriptor.sample_rate == sample_rate
            &&& layout->Ok_0.descriptor.channels == channels
            &&& layout->Ok_0.descriptor.valid_bits_per_sample == valid
            &&& layout->Ok_0.descriptor.container_bits_per_sample == 8 * width
            &&& raw_envelope(layout->Ok_0.descriptor) is Ok
            &&& layout->Ok_0.places == seq![
                PlaceView { id: FMT_ID@, start: 20, size: 16 },
                PlaceView { id: DATA_ID@, start: 44, size },
            ]
        }),
{
    let format = PlaceView { id: FMT_ID@, start: 20, size: 16 };
    let sound = PlaceView { id: DATA_ID@, start: 44, size };
    let none = Seq::<PlaceView>::empty();
    assert(FMT_ID@[0] != DATA_ID@[0]);
    let end = 44 + size + size % 2;
    assert(places_from(file, end, WaveKind::Riff, 0) == Ok::<Seq<PlaceView>, ErrorView>(none));
    assert(place_at(file, 36, WaveKind::Riff, 0) == sound);
    assert(seq![sound] + none == seq![sound]);
    assert(places_from(file, 36, WaveKind::Riff, 0) == Ok::<Seq<PlaceView>, ErrorView>(
        seq![sound],
    ));
    assert(place_at(file, 12, WaveKind::Riff, 0) == format);
    assert(seq![format] + seq![sound] == seq![format, sound]);
    assert(places_from(file, 12, WaveKind::Riff, 0) == Ok::<Seq<PlaceView>, ErrorView>(
        seq![format, sound],
    ));
    let places = seq![format, sound];
    assert(wav_places(file, 0) == Ok::<Seq<PlaceView>, ErrorView>(places));
    reveal_with_fuel(first_place, 3);
    assert(places.drop_last() == seq![format]);
    assert(seq![format].drop_last() == none);
    assert(first_place(places, FMT_ID@) == Some(format));
    assert(first_place(places, DATA_ID@) == Some(sound));
    let payload = bytes_at(file, 20, 16);
    assert(bytes_at(payload, 0, 2) == bytes_at(file, 20, 2));
    assert(bytes_at(payload, 2, 2) == bytes_at(file, 22, 2));
    assert(bytes_at(payload, 4, 4) == bytes_at(file, 24, 4));
    assert(bytes_at(payload, 12, 2) == bytes_at(file, 32, 2));
    assert(bytes_at(payload, 14, 2) == bytes_at(file, 34, 2));
    lemma_format_payload(payload, channels, sample_rate, valid, width);
    lemma_frame_counts(frames, channels, width);
    assert(frames <= size) by (nonlinear_arith)
        requires
            size == frames * (channels * width),
            channels * width >= 1,
    ;
    let descriptor = format_descriptor(payload)->Ok_0;
    assert(frame_size(raw_envelope(descriptor)->Ok_0) == channels * width);
}

/// The chunks of a plain file hold no metadata.
proof fn lemma_wave_metadata(file: Seq<u8>, layout: WavLayoutView, options: WavReaderOptions)
    requires
        layout.places.len() == 2,
        layout.places[0].id == FMT_ID@,
        layout.places[1].id == DATA_ID@,
    ensures
        wav_metadata(file, layout, options) is Ok,
{
    reveal_with_fuel(drafted_places, 3);
    assert(FMT_ID@[0] == 0x66 && FMT_ID@[1] == 0x6d && DATA_ID@[0] == 0x64);
    assert(LIST_ID@[0] == 0x4c && CUE_ID@[0] == 0x63 && FXMD_ID@[0] == 0x66 && FXMD_ID@[1] == 0x78);
    assert(layout.places.drop_last().last() == layout.places[0]);
}

proof fn lemma_plain_wave(
    size: nat,
    channels: nat,
    sample_rate: u32,
    speed: nat,
    valid: nat,
    width: nat,
    data: Seq<u8>,
)
    requires
        channels <= 8,
        valid <= 32,
        width <= 4,
        data.len() < 0x1_0000_0000,
    ensures
        ({
            let file = plain_wave(
                size,
                channels,
                sample_rate as nat,
                speed,
                valid,
                width,
                data,
            );
            &&& file.len() == 44 + data.len()
            &&& file.skip(44) == data
            &&& input_kind(file, 0) == PcmInputKind::RiffLike
            &&& bytes_at(file, 0, 4) == RIFF_ID@
            &&& bytes_at(file, 8, 4) == WAVE_ID@
            &&& bytes_at(file, 12, 4) == FMT_ID@
            &&& le_at(file, 16, 4) == 16
            &&& le_at(file, 20, 2) == 1
            &&& le_at(file, 22, 2) == channels
            &&& le_at(file, 24, 4) == sample_rate
            &&& le_at(file, 32, 2) == channels * width
            &&& le_at(file, 34, 2) == valid
            &&& bytes_at(file, 36, 4) == DATA_ID@
            &&& le_at(file, 40, 4) == data.len()
        }),
{
    let file = plain_wave(size, channels, sample_rate as nat, speed, valid, width, data);
    let opening = wave_opening(size);
    let format = wave_format(channels, sample_rate as nat, speed, valid, width);
    let sound = wave_sound(data);
    let none = Seq::<u8>::empty();
    lemma_wave_opening(size);
    lemma_wave_format(channels, sample_rate as nat, speed, valid, width);
    lemma_wave_sound(data);
    assert(file == none + opening + (format + sound));
    assert(file == opening + format + sound);
    assert(file == (opening + format) + sound + none);
    lemma_part(none, opening, format + sound, 0, 4);
    lemma_part(none, opening, format + sound, 8, 4);
    lemma_part(opening, format, sound, 0, 4);
    lemma_part(opening, format, sound, 4, 4);
    lemma_part(opening, format, sound, 8, 2);
    lemma_part(opening, format, sound, 10, 2);
    lemma_part(opening, format, sound, 12, 4);
    lemma_part(opening, format, sound, 20, 2);
    lemma_part(opening, format, sound, 22, 2);
    lemma_part(opening + format, sound, none, 0, 4);
    lemma_part(opening + format, sound, none, 4, 4);
    assert(file.skip(44) == data);
}

/// A plain wave file is read as it is described: its samples are what its bytes hold, the least
/// significant byte first, and single bytes counted from -128 on. They stand at the top of the
/// smallest whole number of bytes.
pub proof fn law_plain_wave_files_are_read(
    size: nat,
    channels: nat,
    sample_rate: u32,
    speed: nat,
    valid: nat,
    width: nat,
    frames: nat,
    data: Seq<u8>,
    options: WavReaderOptions,
)
    requires
        1 <= channels <= 8,
        4 <= valid <= 32,
        8 * width - 8 < valid <= 8 * width,
        sample_rate > 0,
        data.len() == frames * (channels * width),
        data.len() < 0x1_0000_0000,
    ensures
        ({
            let file = plain_wave(
                size,
                channels,
                sample_rate as nat,
                speed,
                valid,
                width,
                data,
            );
            let contents = input_contents(file, 0, options);
            &&& contents is Ok
            &&& contents->Ok_0.spec.sample_rate == sample_rate
            &&& contents->Ok_0.spec.channels == channels
            &&& contents->Ok_0.spec.bits_per_sample == valid
            &&& contents->Ok_0.spec.total_samples == frames
            &&& contents->Ok_0.is_complete
            &&& are_held(
                contents->Ok_0.samples,
                data,
                width as int,
                ByteOrder::Wave,
                (8 * width - valid) as nat,
            )
        }),
{
    lemma_plain_wave(size, channels, sample_rate, speed, valid, width, data);
    lemma_wave_samples(
        plain_wave(size, channels, sample_rate as nat, speed, valid, width, data),
        channels,
        sample_rate,
        valid,
        width,
        frames,
        data,
        options,
    );
}

/// What a file with these fields holds.
proof fn lemma_wave_samples(
    file: Seq<u8>,
    channels: nat,
    sample_rate: u32,
    valid: nat,
    width: nat,
    frames: nat,
    data: Seq<u8>,
    options: WavReaderOptions,
)
    requires
        1 <= channels <= 8,
        4 <= valid <= 32,
        8 * width - 8 < valid <= 8 * width,
        sample_rate > 0,
        data.len() == frames * (channels * width),
        data.len() < 0x1_0000_0000,
        file.len() == 44 + data.len(),
        file.skip(44) == data,
        input_kind(file, 0) == PcmInputKind::RiffLike,
        bytes_at(file, 0, 4) == RIFF_ID@,
        bytes_at(file, 8, 4) == WAVE_ID@,
        bytes_at(file, 12, 4) == FMT_ID@,
        le_at(file, 16, 4) == 16,
        le_at(file, 20, 2) == 1,
        le_at(file, 22, 2) == channels,
        le_at(file, 24, 4) == sample_rate,
        le_at(file, 32, 2) == channels * width,
        le_at(file, 34, 2) == valid,
        bytes_at(file, 36, 4) == DATA_ID@,
        le_at(file, 40, 4) == data.len(),
    ensures
        ({
            let contents = input_contents(file, 0, options);
            &&& contents is Ok
            &&& contents->Ok_0.spec.sample_rate == sample_rate
            &&& contents->Ok_0.spec.channels == channels
            &&& contents->Ok_0.spec.bits_per_sample == valid
            &&& contents->Ok_0.spec.total_samples == frames
            &&& contents->Ok_0.is_complete
            &&& are_held(
                contents->Ok_0.samples,
                data,
                width as int,
                ByteOrder::Wave,
                (8 * width - valid) as nat,
            )
        }),
{
    lemma_wave_chunks(file, channels, sample_rate, valid, width, data.len(), frames);
    let layout = wav_layout(file, 0)->Ok_0;
    lemma_wave_metadata(file, layout, options);
    let envelope = wav_envelope(layout);
    assert(frame_size(envelope) == channels * width);
    lemma_held(file, 44, data, frames, envelope, ByteOrder::Wave);
}

/// An extensible format description says the width of a sample and how many of its bits are
/// valid by themselves, and the speaker positions where it gives any; the others are those of
/// convention.
pub proof fn law_extensible_formats_say_widths_and_positions(payload: Seq<u8>)
    requires
        payload.len() >= 40,
        le_at(payload, 0, 2) == 0xfffe,
    ensures
        format_descriptor(payload) matches Ok(descriptor) ==> {
            let mask = le_at(payload, 20, 4);
            &&& descriptor.channels == le_at(payload, 2, 2)
            &&& descriptor.sample_rate == le_at(payload, 4, 4)
            &&& descriptor.container_bits_per_sample == le_at(payload, 14, 2)
            &&& descriptor.valid_bits_per_sample == le_at(payload, 18, 2)
            &&& descriptor.byte_order == RawPcmByteOrder::LittleEndian
            &&& descriptor.channels * descriptor.container_bits_per_sample == 8 * le_at(
                payload,
                12,
                2,
            )
            &&& mask != 0 ==> descriptor.channel_mask == Some(mask as u32)
            &&& mask == 0 ==> descriptor.channel_mask == ordinary_mask(
                descriptor.channels as u16,
            )
        },
{
    lemma_byte_ranges();
    lemma_le_value_bound(bytes_at(payload, 4, 4));
    lemma_le_value_bound(bytes_at(payload, 20, 4));
}

} // verus!
