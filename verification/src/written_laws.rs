//! What the files of each container look like when they are written.

use vstd::prelude::*;

use crate::aiff::COMM_CHUNK_ID;
use crate::aiff_output::{aiff_file, chunk_bytes, chunks_size, comm_payload, extended_float, file_head, joined_chunks, leading_chunks, output_envelope, serialized_size, AiffContainer};
use crate::aiff_round_trip::{law_streamed_aiff_is_whole_aiff, lemma_be_bytes_len, lemma_fitting_samples_are_stored};
use crate::bits::fits_signed;
use crate::byte_reader::bytes_at;
use crate::bytes::{be_bytes, law_le_bytes_read_back, le_bytes, lemma_byte_ranges};
use crate::caf::{DATA_CHUNK_ID, DESC_CHUNK_ID};
use crate::caf_output::{caf_chunk, caf_file, caf_head, desc_payload, file_header, middle_chunks, plain_envelope, shape_failure, width_failure};
use crate::caf_round_trip::law_streamed_caf_is_whole_caf;
use crate::container_laws::{are_held, caf_description, caf_opening, caf_sound, plain_aiff, plain_caf, plain_wave};
use crate::encoder::declared_digest;
use crate::error::ErrorView;
use crate::float::double_of;
use crate::md5::{digest_envelope, md5_of, streaminfo_digest};
use crate::metadata::{empty_metadata, MetadataView};
use crate::pcm::{container_bits, encoded_samples, joined_sample_bytes, law_stored_samples_read_back, lemma_encoded_samples_len, ordinary_mask, stored_samples, ByteOrder, PcmEnvelope, PcmSpec};
use crate::pcm_output::{container_file, family_head, family_order, family_tail, OutputFamily};
use crate::riff_chunks::ChunkView;
use crate::sample_source::{frame_size, is_storable};
use crate::storage_laws::law_stored_samples_are_what_bytes_hold;
use crate::wav::{chunk_header_size, chunk_padding, le_at, preamble_size, WaveKind, FMT_ID, LONG_SIZE};
use crate::wav_output::{data_header, format_payload, is_plain, wav_file, wave_body, wave_chunks, wave_envelope, wave_head, wave_preamble, wave_size, zeros};

verus! {

/// Samples of their valid width are held by the bytes that store them.
proof fn lemma_stored(samples: Seq<i32>, envelope: PcmEnvelope, order: ByteOrder)
    requires
        is_storable(envelope),
        forall|i: int|
            0 <= i < samples.len() ==> fits_signed(
                #[trigger] samples[i] as int,
                envelope.valid_bits_per_sample as nat,
            ),
    ensures
        encoded_samples(samples, envelope, order) is Ok,
        are_held(
            samples,
            encoded_samples(samples, envelope, order)->Ok_0,
            (envelope.container_bits_per_sample / 8) as int,
            order,
            (envelope.container_bits_per_sample - envelope.valid_bits_per_sample) as nat,
        ),
{
    lemma_fitting_samples_are_stored(samples, envelope, order);
    law_stored_samples_read_back(samples, envelope, order);
    let data = joined_sample_bytes(samples, envelope, order);
    law_stored_samples_are_what_bytes_hold(data, envelope, order);
    assert(stored_samples(data, envelope, order) == samples);
}

/// What stands in front of the samples of a plain file.
proof fn lemma_caf_numbers(spec: PcmSpec)
    requires
        shape_failure(spec) is None,
        width_failure(spec) is None,
    ensures
        file_header() + caf_chunk(DESC_CHUNK_ID@, desc_payload(spec)) == caf_opening()
            + caf_description(
            be_bytes(double_of(spec.sample_rate), 8),
            2,
            spec.channels as nat,
            spec.bits_per_sample as nat,
            spec.bytes_per_sample as nat,
        ),
        (file_header() + caf_chunk(DESC_CHUNK_ID@, desc_payload(spec))).len() == 52,
        be_bytes(0, 4) == seq![0u8, 0u8, 0u8, 0u8],
{
    let packet = (spec.channels * spec.bytes_per_sample) as nat;
    lemma_be_bytes_len(double_of(spec.sample_rate), 8);
    lemma_be_bytes_len(32, 8);
    lemma_be_bytes_len(2, 4);
    lemma_be_bytes_len(packet, 4);
    lemma_be_bytes_len(1, 4);
    lemma_be_bytes_len(spec.channels as nat, 4);
    lemma_be_bytes_len(spec.bits_per_sample as nat, 4);
    let payload = desc_payload(spec);
    assert(payload.len() == 32);
    assert(payload == caf_description(
        be_bytes(double_of(spec.sample_rate), 8),
        2,
        spec.channels as nat,
        spec.bits_per_sample as nat,
        spec.bytes_per_sample as nat,
    ));
    assert(be_bytes(1, 2) == seq![0u8, 1u8]) by {
        reveal_with_fuel(be_bytes, 3);
    }
    assert(be_bytes(0, 2) == seq![0u8, 0u8]) by {
        reveal_with_fuel(be_bytes, 3);
    }
    assert(be_bytes(0, 4) == seq![0u8, 0u8, 0u8, 0u8]) by {
        reveal_with_fuel(be_bytes, 5);
    }
    assert(file_header() + DESC_CHUNK_ID@ + be_bytes(32, 8) == caf_opening());
    assert(file_header() + caf_chunk(DESC_CHUNK_ID@, payload) == file_header() + DESC_CHUNK_ID@
        + be_bytes(32, 8) + payload);
}

/// Mono or stereo samples without metadata are written as a plain Core Audio file, the least
/// significant byte first.
pub proof fn law_plain_caf_files_are_written(spec: PcmSpec, samples: Seq<i32>)
    requires
        spec.channels <= 2,
        ordinary_mask(spec.channels as u16) == Some(spec.channel_mask),
        forall|i: int|
            0 <= i < samples.len() ==> fits_signed(
                #[trigger] samples[i] as int,
                spec.bits_per_sample as nat,
            ),
    ensures
        caf_file(spec, samples, empty_metadata()) matches Ok(file) ==> {
            let data = file.skip(68);
            &&& file == plain_caf(
                be_bytes(double_of(spec.sample_rate), 8),
                2,
                spec.channels as nat,
                spec.bits_per_sample as nat,
                spec.bytes_per_sample as nat,
                data,
            )
            &&& are_held(
                samples,
                data,
                spec.bytes_per_sample as int,
                ByteOrder::Little,
                (8 * spec.bytes_per_sample - spec.bits_per_sample) as nat,
            )
        },
{
    if let Ok(file) = caf_file(spec, samples, empty_metadata()) {
        reveal(caf_head);
        let envelope = plain_envelope(spec);
        lemma_stored(samples, envelope, ByteOrder::Little);
        let data = encoded_samples(samples, envelope, ByteOrder::Little)->Ok_0;
        let rate = be_bytes(double_of(spec.sample_rate), 8);
        lemma_caf_numbers(spec);
        crate::wav_round_trip::lemma_ordinary_masks(spec.channels as u16);
        let none = Seq::<u8>::empty();
        reveal_with_fuel(middle_chunks, 1);
        assert(none + none + none == none);
        assert(middle_chunks(spec, empty_metadata()) == Ok::<Seq<u8>, ErrorView>(none));
        let front = file_header() + caf_chunk(DESC_CHUNK_ID@, desc_payload(spec));
        let sound = DATA_CHUNK_ID@ + be_bytes(data.len() + 4, 8) + be_bytes(0, 4) + data;
        lemma_be_bytes_len(4 + data.len(), 8);
        assert(file == front + none + (DATA_CHUNK_ID@ + be_bytes(data.len() + 4, 8)) + be_bytes(
            0,
            4,
        ) + data);
        assert(file == front + sound);
        assert(sound == caf_sound(data));
        let expected = plain_caf(
            rate,
            2,
            spec.channels as nat,
            spec.bits_per_sample as nat,
            spec.bytes_per_sample as nat,
            data,
        );
        assert(file == expected);
        assert(file.skip(68) == data);
    }
}

/// Samples without metadata are written as a plain AIFF file, the most significant byte first,
/// with a zero byte behind an odd number of bytes.
pub proof fn law_plain_aiff_files_are_written(spec: PcmSpec, samples: Seq<i32>)
    requires
        forall|i: int|
            0 <= i < samples.len() ==> fits_signed(
                #[trigger] samples[i] as int,
                spec.bits_per_sample as nat,
            ),
    ensures
        aiff_file(spec, samples, empty_metadata(), AiffContainer::Aiff) matches Ok(file) ==> {
            let size = samples.len() * spec.bytes_per_sample;
            let data = file.subrange(54, 54 + size);
            &&& file.len() == 54 + size + size % 2
            &&& file.take(54 + size) == plain_aiff(
                None,
                (file.len() - 8) as nat,
                spec.channels as nat,
                spec.total_samples as nat,
                spec.bits_per_sample as nat,
                extended_float(spec.sample_rate),
                data,
            )
            &&& samples.len() == spec.total_samples * spec.channels
            &&& are_held(
                samples,
                data,
                spec.bytes_per_sample as int,
                ByteOrder::Big,
                (8 * spec.bytes_per_sample - spec.bits_per_sample) as nat,
            )
        },
{
    if let Ok(file) = aiff_file(spec, samples, empty_metadata(), AiffContainer::Aiff) {
        reveal(file_head);
        reveal(leading_chunks);
        let envelope = output_envelope(spec)->Ok_0;
        lemma_stored(samples, envelope, ByteOrder::Big);
        let data = encoded_samples(samples, envelope, ByteOrder::Big)->Ok_0;
        let rate = extended_float(spec.sample_rate);
        let payload = comm_payload(spec, envelope, AiffContainer::Aiff);
        let chunk = ChunkView { id: COMM_CHUNK_ID@, payload };
        let chunks = leading_chunks(spec, envelope, empty_metadata(), AiffContainer::Aiff);
        let size = (4 + chunks_size(chunks) + serialized_size(8 + data.len())) as nat;
        lemma_be_bytes_len(size, 4);
        lemma_be_bytes_len(18, 4);
        lemma_be_bytes_len(spec.channels as nat, 2);
        lemma_be_bytes_len(spec.total_samples as nat, 4);
        lemma_be_bytes_len(spec.bits_per_sample as nat, 2);
        lemma_be_bytes_len(0, 4);
        lemma_be_bytes_len(8 + data.len(), 4);
        lemma_extended_len(spec.sample_rate);
        assert(chunks == seq![chunk]);
        assert(chunks.drop_last() == Seq::<ChunkView>::empty());
        reveal_with_fuel(joined_chunks, 2);
        reveal_with_fuel(chunks_size, 2);
        assert(joined_chunks(chunks) == chunk_bytes(chunk));
        assert(payload.len() == 18);
        assert(file.len() == 54 + data.len() + data.len() % 2);
        let expected = plain_aiff(
            None,
            size,
            spec.channels as nat,
            spec.total_samples as nat,
            spec.bits_per_sample as nat,
            rate,
            data,
        );
        assert(file.subrange(54, (54 + data.len()) as int) == data);
        assert(file.take((54 + data.len()) as int) == expected);
        vstd::arithmetic::div_mod::lemma_fundamental_div_mod(
            samples.len() as int,
            spec.channels as int,
        );
        assert(spec.total_samples * spec.channels == spec.channels * spec.total_samples)
            by (nonlinear_arith);
    }
}

proof fn lemma_extended_len(rate: u32)
    ensures
        extended_float(rate).len() == 10,
{
    lemma_be_bytes_len(0, 2);
    lemma_be_bytes_len(0, 8);
    let place = crate::float::top_bit(rate as nat);
    lemma_be_bytes_len(16_383 + place, 2);
    lemma_be_bytes_len(
        (rate * vstd::arithmetic::power2::pow2((63 - place) as nat)) as nat,
        8,
    );
}

/// Mono or stereo samples that fill their bytes are written without metadata as a plain wave
/// file, the least significant byte first, with a zero byte behind an odd number of bytes.
pub proof fn law_plain_wave_files_are_written(spec: PcmSpec, samples: Seq<i32>)
    requires
        spec.channels <= 2,
        ordinary_mask(spec.channels as u16) == Some(spec.channel_mask),
        spec.bits_per_sample == 8 * spec.bytes_per_sample,
        forall|i: int|
            0 <= i < samples.len() ==> fits_signed(
                #[trigger] samples[i] as int,
                spec.bits_per_sample as nat,
            ),
    ensures
        wav_file(WaveKind::Riff, spec, samples, empty_metadata()) matches Ok(file) ==> {
            let size = samples.len() * spec.bytes_per_sample;
            let data = file.subrange(44, 44 + size);
            let frame = spec.channels * spec.bytes_per_sample;
            &&& file.len() == 44 + size + size % 2
            &&& file.take(44 + size) == plain_wave(
                (file.len() - 8) as nat,
                spec.channels as nat,
                spec.sample_rate as nat,
                ((spec.sample_rate * frame) % 0x1_0000_0000) as nat,
                spec.bits_per_sample as nat,
                spec.bytes_per_sample as nat,
                data,
            )
            &&& are_held(
                samples,
                data,
                spec.bytes_per_sample as int,
                ByteOrder::Wave,
                0,
            )
        },
{
    if let Ok(file) = wav_file(WaveKind::Riff, spec, samples, empty_metadata()) {
        reveal(wave_head);
        let envelope = wave_envelope(spec)->Ok_0;
        lemma_stored(samples, envelope, ByteOrder::Wave);
        let data = encoded_samples(samples, envelope, ByteOrder::Wave)->Ok_0;
        let chunks = wave_body(spec.sample_rate, envelope, empty_metadata());
        let payload = format_payload(spec.sample_rate, envelope);
        let chunk = ChunkView { id: FMT_ID@, payload };
        let frame = frame_size(envelope);
        let speed = ((spec.sample_rate * frame) % 0x1_0000_0000) as nat;
        lemma_le_len(1, 2);
        lemma_le_len(spec.channels as nat, 2);
        lemma_le_len(spec.sample_rate as nat, 4);
        lemma_le_len(speed, 4);
        lemma_le_len(frame, 2);
        lemma_le_len(spec.bits_per_sample as nat, 2);
        lemma_le_len(16, 4);
        lemma_le_len(data.len(), 4);
        assert(is_plain(envelope));
        assert(chunks == seq![chunk]);
        assert(chunks.drop_last() == Seq::<ChunkView>::empty());
        reveal_with_fuel(wave_chunks, 2);
        assert(payload.len() == 16);
        let body = wave_chunks(WaveKind::Riff, chunks);
        assert(body.len() == 24);
        let size = wave_size(WaveKind::Riff, 24, data.len());
        lemma_le_len((size - 8) as nat, 4);
        let expected = plain_wave(
            (size - 8) as nat,
            spec.channels as nat,
            spec.sample_rate as nat,
            speed,
            spec.bits_per_sample as nat,
            spec.bytes_per_sample as nat,
            data,
        );
        assert(file.len() == size);
        assert(file.subrange(44, (44 + data.len()) as int) == data);
        assert(file.take((44 + data.len()) as int) == expected);
    }
}

proof fn lemma_le_len(value: nat, count: nat)
    ensures
        le_bytes(value, count).len() == count,
    decreases count,
{
    if count > 0 {
        lemma_le_len(value / 256, (count - 1) as nat);
    }
}

/// What a wave file says first: its kind, its size, and in a long file the size and the number
/// of its samples.
pub open spec fn says_size(
    bytes: Seq<u8>,
    kind: WaveKind,
    size: nat,
    data: nat,
    frames: nat,
) -> bool {
    match kind {
        WaveKind::Riff => {
            &&& bytes_at(bytes, 0, 4) == seq!['R' as u8, 'I' as u8, 'F' as u8, 'F' as u8]
            &&& le_at(bytes, 4, 4) == size - 8
            &&& bytes_at(bytes, 8, 4) == seq!['W' as u8, 'A' as u8, 'V' as u8, 'E' as u8]
        },
        WaveKind::Rf64 => {
            &&& bytes_at(bytes, 0, 4) == seq!['R' as u8, 'F' as u8, '6' as u8, '4' as u8]
            &&& le_at(bytes, 4, 4) == 0xffff_ffff
            &&& bytes_at(bytes, 8, 4) == seq!['W' as u8, 'A' as u8, 'V' as u8, 'E' as u8]
            &&& bytes_at(bytes, 12, 4) == seq!['d' as u8, 's' as u8, '6' as u8, '4' as u8]
            &&& le_at(bytes, 16, 4) == 28
            &&& le_at(bytes, 20, 8) == size - 8
            &&& le_at(bytes, 28, 8) == data
            &&& le_at(bytes, 36, 8) == frames
        },
        WaveKind::Wave64 => {
            &&& bytes_at(bytes, 0, 4) == seq!['r' as u8, 'i' as u8, 'f' as u8, 'f' as u8]
            &&& le_at(bytes, 16, 8) == size
            &&& bytes_at(bytes, 24, 4) == seq!['w' as u8, 'a' as u8, 'v' as u8, 'e' as u8]
        },
    }
}

/// What an opening says, a file that starts with it says.
proof fn lemma_said(
    file: Seq<u8>,
    opening: Seq<u8>,
    kind: WaveKind,
    size: nat,
    data: nat,
    frames: nat,
)
    requires
        says_size(opening, kind, size, data, frames),
        opening.len() == if kind == WaveKind::Riff {
            12nat
        } else if kind == WaveKind::Rf64 {
            48
        } else {
            40
        },
        opening.len() <= file.len(),
        file.take(opening.len() as int) == opening,
    ensures
        says_size(file, kind, size, data, frames),
{
    assert(bytes_at(file, 0, 4) == bytes_at(opening, 0, 4));
    assert(bytes_at(file, 4, 4) == bytes_at(opening, 4, 4));
    assert(bytes_at(file, 8, 4) == bytes_at(opening, 8, 4));
    if kind == WaveKind::Rf64 {
        assert(bytes_at(file, 12, 4) == bytes_at(opening, 12, 4));
        assert(bytes_at(file, 16, 4) == bytes_at(opening, 16, 4));
        assert(bytes_at(file, 20, 8) == bytes_at(opening, 20, 8));
        assert(bytes_at(file, 28, 8) == bytes_at(opening, 28, 8));
        assert(bytes_at(file, 36, 8) == bytes_at(opening, 36, 8));
    }
    if kind == WaveKind::Wave64 {
        assert(bytes_at(file, 16, 8) == bytes_at(opening, 16, 8));
        assert(bytes_at(file, 24, 4) == bytes_at(opening, 24, 4));
    }
}

/// What a wave file says of its own size is so, whatever it carries: a plain one the bytes
/// behind the size, a long one the same in its `ds64` chunk, with the bytes and the number of
/// its samples, and a Wave64 file all its bytes.
pub proof fn law_wave_files_say_their_sizes(
    kind: WaveKind,
    spec: PcmSpec,
    samples: Seq<i32>,
    metadata: MetadataView,
)
    ensures
        wav_file(kind, spec, samples, metadata) matches Ok(file) ==> {
            let data = (samples.len() * spec.bytes_per_sample) as nat;
            file.len() < 0x1_0000_0000_0000_0000 ==> says_size(
                file,
                kind,
                file.len(),
                data,
                spec.total_samples as nat,
            )
        },
{
    if let Ok(file) = wav_file(kind, spec, samples, metadata) {
        let envelope = wave_envelope(spec)->Ok_0;
        let data = samples.len() * (envelope.container_bits_per_sample / 8) as nat;
        let frames = spec.total_samples as nat;
        assert(frames < 0x1_0000_0000_0000_0000);
        lemma_encoded_samples_len(samples, envelope, ByteOrder::Wave);
        let sound = encoded_samples(samples, envelope, ByteOrder::Wave)->Ok_0;
        assert(sound.len() == data);
        assert(data == samples.len() * spec.bytes_per_sample);
        lemma_file_size(kind, spec, envelope, metadata, sound, file);
        if file.len() < 0x1_0000_0000_0000_0000 {
            lemma_wave_opening(kind, file.len(), data, frames);
            lemma_said(
                file,
                wave_preamble(kind, file.len(), data, frames),
                kind,
                file.len(),
                data,
                frames,
            );
        }
    }
}

/// A file is as long as its parts, and opens with what is said of it.
proof fn lemma_file_size(
    kind: WaveKind,
    spec: PcmSpec,
    envelope: PcmEnvelope,
    metadata: MetadataView,
    sound: Seq<u8>,
    file: Seq<u8>,
)
    requires
        ({
            let head = wave_head(kind, spec, envelope, metadata, sound.len());
            &&& head is Ok
            &&& file == head->Ok_0 + sound + zeros(chunk_padding(kind, sound.len()))
        }),
    ensures
        sound.len() <= file.len(),
        kind == WaveKind::Riff ==> file.len() - 8 < 0x1_0000_0000,
        ({
            let opening = wave_preamble(kind, file.len(), sound.len(), spec.total_samples as nat);
            &&& opening.len() == preamble_size(kind) + (if kind == WaveKind::Rf64 {
                36nat
            } else {
                0
            })
            &&& opening.len() <= file.len()
            &&& file.take(opening.len() as int) == opening
        }),
{
    reveal(wave_head);
    let data = sound.len();
    let chunks = wave_body(spec.sample_rate, envelope, metadata);
    let body = wave_chunks(kind, chunks);
    let size = wave_size(kind, body.len(), data);
    let opening = wave_preamble(kind, size, data, spec.total_samples as nat);
    let header = data_header(kind, data);
    lemma_le_len(size, 8);
    lemma_le_len((size - 8) as nat, 4);
    lemma_le_len((size - 8) as nat, 8);
    lemma_le_len(data, 8);
    lemma_le_len(data, 4);
    lemma_le_len(data + 24, 8);
    lemma_le_len(spec.total_samples as nat, 8);
    lemma_le_len(0, 4);
    lemma_le_len(28, 4);
    lemma_le_len(LONG_SIZE as nat, 4);
    assert(header.len() == chunk_header_size(kind));
    assert(opening.len() == preamble_size(kind) + (if kind == WaveKind::Rf64 {
        36nat
    } else {
        0
    }));
    assert(file.len() == size);
    assert(file.take(opening.len() as int) == opening);
}

/// What a file says of its size.
proof fn lemma_wave_opening(kind: WaveKind, size: nat, data: nat, frames: nat)
    requires
        8 <= size < 0x1_0000_0000_0000_0000,
        kind == WaveKind::Riff ==> size - 8 < 0x1_0000_0000,
        data < 0x1_0000_0000_0000_0000,
        frames < 0x1_0000_0000_0000_0000,
    ensures
        says_size(wave_preamble(kind, size, data, frames), kind, size, data, frames),
{
    let opening = wave_preamble(kind, size, data, frames);
    lemma_byte_ranges();
    match kind {
        WaveKind::Riff => {
            law_le_bytes_read_back((size - 8) as nat, 4);
            assert(bytes_at(opening, 0, 4) == seq!['R' as u8, 'I' as u8, 'F' as u8, 'F' as u8]);
            assert(bytes_at(opening, 4, 4) == le_bytes((size - 8) as nat, 4));
            assert(bytes_at(opening, 8, 4) == seq!['W' as u8, 'A' as u8, 'V' as u8, 'E' as u8]);
        },
        WaveKind::Rf64 => {
            law_le_bytes_read_back(LONG_SIZE as nat, 4);
            law_le_bytes_read_back(28, 4);
            law_le_bytes_read_back((size - 8) as nat, 8);
            law_le_bytes_read_back(data, 8);
            law_le_bytes_read_back(frames, 8);
            assert(bytes_at(opening, 0, 4) == seq!['R' as u8, 'F' as u8, '6' as u8, '4' as u8]);
            assert(bytes_at(opening, 4, 4) == le_bytes(LONG_SIZE as nat, 4));
            assert(bytes_at(opening, 8, 4) == seq!['W' as u8, 'A' as u8, 'V' as u8, 'E' as u8]);
            assert(bytes_at(opening, 12, 4) == seq!['d' as u8, 's' as u8, '6' as u8, '4' as u8]);
            assert(bytes_at(opening, 16, 4) == le_bytes(28, 4));
            assert(bytes_at(opening, 20, 8) == le_bytes((size - 8) as nat, 8));
            assert(bytes_at(opening, 28, 8) == le_bytes(data, 8));
            assert(bytes_at(opening, 36, 8) == le_bytes(frames, 8));
        },
        WaveKind::Wave64 => {
            law_le_bytes_read_back(size, 8);
            assert(bytes_at(opening, 0, 4) == seq!['r' as u8, 'i' as u8, 'f' as u8, 'f' as u8]);
            assert(bytes_at(opening, 16, 8) == le_bytes(size, 8));
            assert(bytes_at(opening, 24, 4) == seq!['w' as u8, 'a' as u8, 'v' as u8, 'e' as u8]);
        },
    }
}

/// A file that is written while its samples come piece by piece is the file that is written at
/// once, whatever the container: the same opening, the samples in the order of the container,
/// and the same end.
pub proof fn law_streamed_files_are_whole_files(
    family: OutputFamily,
    spec: PcmSpec,
    samples: Seq<i32>,
    metadata: MetadataView,
)
    requires
        samples.len() == spec.total_samples * spec.channels,
    ensures
        container_file(family, spec, samples, metadata) matches Ok(file) ==> {
            &&& family_head(family, spec, metadata) matches Ok(head)
            &&& encoded_samples(samples, digest_envelope(spec), family_order(family)) matches Ok(
                data,
            )
            &&& file == head + data + family_tail(family, spec)
        },
{
    if let Ok(file) = container_file(family, spec, samples, metadata) {
        let envelope = digest_envelope(spec);
        let width = (envelope.container_bits_per_sample / 8) as int;
        let none = Seq::<i32>::empty();
        assert(samples + none == samples);
        assert((spec.total_samples * spec.channels) * width == spec.total_samples * (spec.channels
            * width)) by (nonlinear_arith);
        match family {
            OutputFamily::Wave(kind) => {
                assert(wave_envelope(spec)->Ok_0 == envelope);
            },
            OutputFamily::Aiff(container) => {
                assert(output_envelope(spec)->Ok_0 == envelope);
                law_streamed_aiff_is_whole_aiff(spec, samples, none, metadata, container);
                let data = encoded_samples(samples, envelope, ByteOrder::Big)->Ok_0;
                assert(data + Seq::<u8>::empty() == data);
                let head = family_head(family, spec, metadata)->Ok_0;
                assert(head + data + Seq::<u8>::empty() == head + data);
            },
            OutputFamily::Caf => {
                law_streamed_caf_is_whole_caf(spec, samples, none, metadata);
                let head = family_head(family, spec, metadata)->Ok_0;
                let data = encoded_samples(samples, envelope, ByteOrder::Little)->Ok_0;
                assert(head + data + Seq::<u8>::empty() == head + data);
            },
        }
    }
}

/// The digest of a stream is that of its samples one after the other, each in the smallest
/// number of bytes and the least significant byte first, whatever the container was.
pub proof fn law_digests_are_of_little_endian_samples(spec: PcmSpec, samples: Seq<i32>)
    requires
        1 <= spec.channels <= 8,
        4 <= spec.bits_per_sample <= 32,
        samples.len() == spec.total_samples * spec.channels,
        forall|i: int|
            0 <= i < samples.len() ==> fits_signed(
                #[trigger] samples[i] as int,
                spec.bits_per_sample as nat,
            ),
    ensures
        ({
            let bytes = encoded_samples(samples, digest_envelope(spec), ByteOrder::Little)->Ok_0;
            let width = (container_bits(spec.bits_per_sample as u16) / 8) as int;
            &&& width * 8 - 8 < spec.bits_per_sample <= width * 8
            &&& are_held(
                samples,
                bytes,
                width,
                ByteOrder::Little,
                (width * 8 - spec.bits_per_sample) as nat,
            )
            &&& streaminfo_digest(spec, samples) == Ok::<Seq<u8>, ErrorView>(md5_of(bytes))
            &&& declared_digest(spec, samples) == md5_of(bytes)
        }),
{
    let envelope = digest_envelope(spec);
    lemma_stored(samples, envelope, ByteOrder::Little);
    assert(samples.take(spec.total_samples * spec.channels) == samples);
}

} // verus!
