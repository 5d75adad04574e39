//! What files say of their own sizes and formats, and how their texts are listed.

use vstd::prelude::*;
use vstd::utf8::encode_utf8;

use crate::aiff::{layout_of_parts, AiffParts, AIFC_FORM_TYPE, AIFF_FORM_TYPE, FORM_ID};
use crate::aiff_output::{aiff_file, chunk_bytes, chunks_size, file_head, form_type, joined_chunks, leading_chunks, output_envelope, resolved, serialized_size, AiffContainer};
use crate::aiff_round_trip::lemma_be_bytes_len;
use crate::byte_reader::{be_at, bytes_at};
use crate::bytes::{be_bytes, law_be_bytes_read_back, law_le_bytes_read_back, le_bytes, lemma_byte_ranges};
use crate::caf_output::{key_place, pair_bytes, with_value, InfoPairView};
use crate::metadata::MetadataView;
use crate::pcm::{encoded_samples, lemma_encoded_samples_len, ordinary_mask, ByteOrder, PcmEnvelope, PcmSpec};
use crate::raw::{frames_in_bytes, raw_envelope, RawPcmDescriptor};
use crate::riff_chunks::ChunkView;
use crate::sample_source::{frame_size, is_storable};
use crate::wav::{le_at, wave_kind, WaveKind, PCM_GUID};
use crate::wav_output::{format_payload, is_plain};

verus! {

/// All chunks have identifiers of four letters.
spec fn have_letters(chunks: Seq<ChunkView>) -> bool {
    forall|i: int| 0 <= i < chunks.len() ==> (#[trigger] chunks[i]).id.len() == 4
}

proof fn lemma_leading_letters(
    spec: PcmSpec,
    envelope: PcmEnvelope,
    metadata: MetadataView,
    container: AiffContainer,
)
    ensures
        have_letters(leading_chunks(spec, envelope, metadata, container)),
{
    reveal(leading_chunks);
}

proof fn lemma_joined_size(chunks: Seq<ChunkView>)
    requires
        have_letters(chunks),
    ensures
        joined_chunks(chunks).len() == chunks_size(chunks),
    decreases chunks.len(),
{
    if chunks.len() > 0 {
        let earlier = chunks.drop_last();
        assert forall|i: int| 0 <= i < earlier.len() implies (#[trigger] earlier[i]).id.len()
            == 4 by {
            assert(chunks[i] == earlier[i]);
        }
        lemma_joined_size(earlier);
        let last = chunks.last();
        assert(chunks[chunks.len() - 1] == last);
        lemma_be_bytes_len(last.payload.len(), 4);
        assert(chunk_bytes(last).len() == serialized_size(last.payload.len()));
    }
}

/// An AIFF file opens with `FORM`, the number of the bytes that follow, and letters for the
/// kind of the file, whatever it carries.
pub proof fn law_aiff_files_say_their_size(
    spec: PcmSpec,
    samples: Seq<i32>,
    metadata: MetadataView,
    container: AiffContainer,
)
    ensures
        aiff_file(spec, samples, metadata, container) matches Ok(file) ==> {
            &&& bytes_at(file, 0, 4) == seq!['F' as u8, 'O' as u8, 'R' as u8, 'M' as u8]
            &&& be_at(file, 4, 4) + 8 == file.len()
            &&& container == AiffContainer::AifcNone ==> bytes_at(file, 8, 4) == seq![
                'A' as u8,
                'I' as u8,
                'F' as u8,
                'C' as u8,
            ]
            &&& container != AiffContainer::AifcNone ==> bytes_at(file, 8, 4) == seq![
                'A' as u8,
                'I' as u8,
                'F' as u8,
                'F' as u8,
            ]
        },
{
    if let Ok(file) = aiff_file(spec, samples, metadata, container) {
        let envelope = output_envelope(spec)->Ok_0;
        let data_bytes = samples.len() * (envelope.container_bits_per_sample / 8) as nat;
        let chunks = leading_chunks(spec, envelope, metadata, resolved(container));
        lemma_leading_letters(spec, envelope, metadata, resolved(container));
        lemma_joined_size(chunks);
        lemma_encoded_samples_len(samples, envelope, ByteOrder::Big);
        lemma_head_says(spec, envelope, metadata, container, data_bytes);
        let head = file_head(spec, envelope, metadata, container, data_bytes)->Ok_0;
        let data = encoded_samples(samples, envelope, ByteOrder::Big)->Ok_0;
        assert(bytes_at(file, 0, 4) == bytes_at(head, 0, 4));
        assert(bytes_at(file, 4, 4) == bytes_at(head, 4, 4));
        assert(bytes_at(file, 8, 4) == bytes_at(head, 8, 4));
    }
}

proof fn lemma_head_says(
    spec: PcmSpec,
    envelope: PcmEnvelope,
    metadata: MetadataView,
    container: AiffContainer,
    data_bytes: nat,
)
    ensures
        file_head(spec, envelope, metadata, container, data_bytes) matches Ok(head) ==> {
            let chunks = leading_chunks(spec, envelope, metadata, resolved(container));
            &&& head.len() == 28 + joined_chunks(chunks).len()
            &&& bytes_at(head, 0, 4) == seq!['F' as u8, 'O' as u8, 'R' as u8, 'M' as u8]
            &&& be_at(head, 4, 4) == 4 + chunks_size(chunks) + serialized_size(8 + data_bytes)
            &&& container == AiffContainer::AifcNone ==> bytes_at(head, 8, 4) == seq![
                'A' as u8,
                'I' as u8,
                'F' as u8,
                'C' as u8,
            ]
            &&& container != AiffContainer::AifcNone ==> bytes_at(head, 8, 4) == seq![
                'A' as u8,
                'I' as u8,
                'F' as u8,
                'F' as u8,
            ]
        },
{
    reveal(file_head);
    if let Ok(head) = file_head(spec, envelope, metadata, container, data_bytes) {
        let chunks = leading_chunks(spec, envelope, metadata, resolved(container));
        let total = 4 + chunks_size(chunks) + serialized_size(8 + data_bytes);
        lemma_byte_ranges();
        law_be_bytes_read_back(total, 4);
        lemma_be_bytes_len(8 + data_bytes, 4);
        lemma_be_bytes_len(0, 4);
        assert(FORM_ID@ == seq!['F' as u8, 'O' as u8, 'R' as u8, 'M' as u8]);
        assert(AIFC_FORM_TYPE@ == seq!['A' as u8, 'I' as u8, 'F' as u8, 'C' as u8]);
        assert(AIFF_FORM_TYPE@ == seq!['A' as u8, 'I' as u8, 'F' as u8, 'F' as u8]);
        assert(bytes_at(head, 0, 4) == FORM_ID@);
        assert(bytes_at(head, 4, 4) == be_bytes(total, 4));
        assert(bytes_at(head, 8, 4) == form_type(resolved(container)));
    }
}

/// The samples of an AIFF file are as many as its description says, and fill the bytes that
/// there are for them.
pub proof fn law_aiff_samples_are_as_many_as_described(parts: AiffParts)
    ensures
        layout_of_parts(parts) matches Ok(layout) ==> {
            &&& parts.common matches Some(common)
            &&& layout.total_samples == common.sample_frames
            &&& layout.total_samples * frame_size(layout.envelope) == layout.data_size
            &&& parts.data_offset == Some(layout.data_offset)
            &&& parts.data_size == Some(layout.data_size)
            &&& layout.byte_order == common.byte_order
            &&& layout.sample_rate == common.sample_rate
        },
{
    if let Ok(layout) = layout_of_parts(parts) {
        let frame = frame_size(layout.envelope) as int;
        let size = layout.data_size as int;
        assert(frame > 0) by (nonlinear_arith)
            requires
                frame == layout.envelope.channels * (layout.envelope.container_bits_per_sample / 8),
                layout.envelope.channels >= 1,
                layout.envelope.container_bits_per_sample >= 8,
        ;
        vstd::arithmetic::div_mod::lemma_fundamental_div_mod(size, frame);
        let count = size / frame;
        assert(count * frame == frame * count) by (nonlinear_arith);
        assert(0 <= count <= size) by (nonlinear_arith)
            requires
                size == frame * count,
                frame >= 1,
                size >= 0,
        ;
    }
}

/// The frames that bytes hold fill them.
pub proof fn law_frames_fill_their_bytes(byte_len: u64, descriptor: RawPcmDescriptor)
    ensures
        frames_in_bytes(byte_len, descriptor) matches Ok(frames) ==> {
            &&& raw_envelope(descriptor) matches Ok(envelope)
            &&& frames * frame_size(envelope) == byte_len
        },
        raw_envelope(descriptor) matches Ok(envelope) ==> (frames_in_bytes(byte_len, descriptor)
            is Ok <==> byte_len as nat % frame_size(envelope) == 0),
{
    if let Ok(envelope) = raw_envelope(descriptor) {
        let frame = frame_size(envelope) as int;
        let size = byte_len as int;
        assert(frame > 0) by (nonlinear_arith)
            requires
                frame == envelope.channels * (envelope.container_bits_per_sample / 8),
                envelope.channels >= 1,
                envelope.container_bits_per_sample >= 8,
        ;
        vstd::arithmetic::div_mod::lemma_fundamental_div_mod(size, frame);
        let count = size / frame;
        let rest = size % frame;
        assert(count * frame == frame * count) by (nonlinear_arith);
        assert(0 <= count <= size) by (nonlinear_arith)
            requires
                size == frame * count + rest,
                0 <= rest < frame,
                frame >= 1,
                size >= 0,
        ;
    }
}

/// A wave file is told by its first letters and by `WAVE` behind its size, and a Wave64 file by
/// the two identifiers that stand in their places.
pub proof fn law_wave_kinds_are_told_by_their_letters(bytes: Seq<u8>)
    requires
        bytes.len() >= 40,
    ensures
        ({
            let wave = seq!['W' as u8, 'A' as u8, 'V' as u8, 'E' as u8];
            &&& wave_kind(bytes, 0) == Some(WaveKind::Riff) <==> bytes_at(bytes, 0, 4) == seq![
                'R' as u8,
                'I' as u8,
                'F' as u8,
                'F' as u8,
            ] && bytes_at(bytes, 8, 4) == wave
            &&& wave_kind(bytes, 0) == Some(WaveKind::Rf64) <==> bytes_at(bytes, 0, 4) == seq![
                'R' as u8,
                'F' as u8,
                '6' as u8,
                '4' as u8,
            ] && bytes_at(bytes, 8, 4) == wave
            &&& wave_kind(bytes, 0) == Some(WaveKind::Wave64) <==> bytes_at(bytes, 0, 16) == seq![
                'r' as u8,
                'i' as u8,
                'f' as u8,
                'f' as u8,
                0x2eu8,
                0x91u8,
                0xcfu8,
                0x11u8,
                0xa5u8,
                0xd6u8,
                0x28u8,
                0xdbu8,
                0x04u8,
                0xc1u8,
                0x00u8,
                0x00u8,
            ] && bytes_at(bytes, 24, 16) == seq![
                'w' as u8,
                'a' as u8,
                'v' as u8,
                'e' as u8,
                0xf3u8,
                0xacu8,
                0xd3u8,
                0x11u8,
                0x8cu8,
                0xd1u8,
                0x00u8,
                0xc0u8,
                0x4fu8,
                0x8eu8,
                0xdbu8,
                0x8au8,
            ]
        }),
{
    let riff = seq!['R' as u8, 'I' as u8, 'F' as u8, 'F' as u8];
    let long = seq!['R' as u8, 'F' as u8, '6' as u8, '4' as u8];
    let wave = seq!['W' as u8, 'A' as u8, 'V' as u8, 'E' as u8];
    assert(riff == crate::wav::RIFF_ID@);
    assert(long == crate::wav::RF64_ID@);
    assert(wave == crate::wav::WAVE_ID@);
    assert(riff[1] != long[1]);
    let first = seq![
        'r' as u8,
        'i' as u8,
        'f' as u8,
        'f' as u8,
        0x2eu8,
        0x91u8,
        0xcfu8,
        0x11u8,
        0xa5u8,
        0xd6u8,
        0x28u8,
        0xdbu8,
        0x04u8,
        0xc1u8,
        0x00u8,
        0x00u8,
    ];
    let second = seq![
        'w' as u8,
        'a' as u8,
        'v' as u8,
        'e' as u8,
        0xf3u8,
        0xacu8,
        0xd3u8,
        0x11u8,
        0x8cu8,
        0xd1u8,
        0x00u8,
        0xc0u8,
        0x4fu8,
        0x8eu8,
        0xdbu8,
        0x8au8,
    ];
    assert(first == crate::wav::WAVE64_RIFF_GUID@);
    assert(second == crate::wav::WAVE64_WAVE_GUID@);
    assert(bytes_at(bytes, 0, 4)[0] == bytes_at(bytes, 0, 16)[0]);
    assert(first[0] == 0x72u8 && riff[0] == 0x52u8 && long[0] == 0x52u8);
}

/// The format of a wave file says its channels, its rate, the bytes of a second and of a frame,
/// and the bits of a container. It is a plain one for one or two channels in the positions of
/// convention whose samples fill their containers; any other one says the bits of its samples
/// and the positions of its channels too.
pub proof fn law_formats_say_how_samples_are_stored(sample_rate: u32, envelope: PcmEnvelope)
    requires
        is_storable(envelope),
        envelope.channels <= 8,
    ensures
        ({
            let payload = format_payload(sample_rate, envelope);
            let frame = frame_size(envelope);
            let is_short = envelope.channels <= 2 && ordinary_mask(envelope.channels) == Some(
                envelope.channel_mask,
            ) && envelope.valid_bits_per_sample == envelope.container_bits_per_sample;
            &&& frame * 8 == envelope.channels * envelope.container_bits_per_sample
            &&& le_at(payload, 2, 2) == envelope.channels
            &&& le_at(payload, 4, 4) == sample_rate
            &&& sample_rate * frame < 0x1_0000_0000 ==> le_at(payload, 8, 4) == sample_rate * frame
            &&& le_at(payload, 12, 2) == frame
            &&& le_at(payload, 14, 2) == envelope.container_bits_per_sample
            &&& is_short ==> payload.len() == 16 && le_at(payload, 0, 2) == 1
            &&& !is_short ==> {
                &&& payload.len() == 40
                &&& le_at(payload, 0, 2) == 0xfffe
                &&& le_at(payload, 16, 2) == payload.len() - 18
                &&& le_at(payload, 18, 2) == envelope.valid_bits_per_sample
                &&& le_at(payload, 20, 4) == envelope.channel_mask
                &&& bytes_at(payload, 24, 16) == PCM_GUID@
            }
        }),
{
    let payload = format_payload(sample_rate, envelope);
    let frame = frame_size(envelope);
    let speed = ((sample_rate * frame) % 0x1_0000_0000) as nat;
    lemma_byte_ranges();
    let channels = envelope.channels as int;
    let width = (envelope.container_bits_per_sample / 8) as int;
    assert(0 <= channels * width <= 32 && (channels * width) * 8 == channels * (width * 8)) by (
        nonlinear_arith)
        requires
            0 <= channels <= 8,
            0 <= width <= 4,
    ;
    assert(sample_rate * frame >= 0) by (nonlinear_arith)
        requires
            frame >= 0,
    ;
    law_le_bytes_read_back(envelope.channels as nat, 2);
    law_le_bytes_read_back(sample_rate as nat, 4);
    law_le_bytes_read_back(speed, 4);
    law_le_bytes_read_back(frame, 2);
    law_le_bytes_read_back(envelope.container_bits_per_sample as nat, 2);
    law_le_bytes_read_back(1, 2);
    law_le_bytes_read_back(0xfffe, 2);
    law_le_bytes_read_back(22, 2);
    law_le_bytes_read_back(envelope.valid_bits_per_sample as nat, 2);
    law_le_bytes_read_back(envelope.channel_mask as nat, 4);
    assert(bytes_at(payload, 2, 2) == le_bytes(envelope.channels as nat, 2));
    assert(bytes_at(payload, 4, 4) == le_bytes(sample_rate as nat, 4));
    assert(bytes_at(payload, 8, 4) == le_bytes(speed, 4));
    assert(bytes_at(payload, 12, 2) == le_bytes(frame, 2));
    assert(bytes_at(payload, 14, 2) == le_bytes(envelope.container_bits_per_sample as nat, 2));
    if is_plain(envelope) {
        assert(bytes_at(payload, 0, 2) == le_bytes(1, 2));
    } else {
        assert(bytes_at(payload, 0, 2) == le_bytes(0xfffe, 2));
        assert(bytes_at(payload, 16, 2) == le_bytes(22, 2));
        assert(bytes_at(payload, 18, 2) == le_bytes(envelope.valid_bits_per_sample as nat, 2));
        assert(bytes_at(payload, 20, 4) == le_bytes(envelope.channel_mask as nat, 4));
        assert(bytes_at(payload, 24, 16) == PCM_GUID@);
    }
}

/// The texts of a Core Audio file stand behind each other, each key and each value before a
/// zero.
pub proof fn law_core_audio_texts_end_in_zeros(pairs: Seq<InfoPairView>, pair: InfoPairView)
    ensures
        pair_bytes(Seq::empty()) == Seq::<u8>::empty(),
        pair_bytes(pairs.push(pair)) == pair_bytes(pairs) + encode_utf8(pair.key) + seq![0u8]
            + encode_utf8(pair.value) + seq![0u8],
{
    assert(pairs.push(pair).drop_last() == pairs);
}

/// A text of a key that is there already is added to its value behind a comma, and another one
/// is listed behind the rest. Everything else stays as it is.
pub proof fn law_texts_of_a_key_are_joined_by_commas(
    pairs: Seq<InfoPairView>,
    key: Seq<char>,
    value: Seq<char>,
    index: int,
)
    requires
        0 <= index < pairs.len(),
    ensures
        ({
            let after = with_value(pairs, key, value);
            let is_first = pairs[index].key == key && forall|i: int|
                0 <= i < index ==> (#[trigger] pairs[i]).key != key;
            &&& is_first ==> after == pairs.update(
                index,
                InfoPairView { key, value: pairs[index].value + ","@ + value },
            )
            &&& (forall|i: int| 0 <= i < pairs.len() ==> (#[trigger] pairs[i]).key != key)
                ==> after == pairs.push(InfoPairView { key, value })
            &&& pairs[index].key != key ==> after[index] == pairs[index]
        }),
{
    lemma_key_place(pairs, key);
}

proof fn lemma_key_place(pairs: Seq<InfoPairView>, key: Seq<char>)
    ensures
        match key_place(pairs, key) {
            Some(place) => {
                &&& 0 <= place < pairs.len()
                &&& pairs[place].key == key
                &&& forall|i: int| 0 <= i < place ==> (#[trigger] pairs[i]).key != key
            },
            None => forall|i: int| 0 <= i < pairs.len() ==> (#[trigger] pairs[i]).key != key,
        },
    decreases pairs.len(),
{
    if pairs.len() > 0 {
        let earlier = pairs.drop_last();
        lemma_key_place(earlier, key);
        assert(pairs[pairs.len() - 1] == pairs.last());
        assert forall|i: int| 0 <= i < earlier.len() implies #[trigger] pairs[i]
            == earlier[i] by {}
        if key_place(earlier, key) is None {
            assert forall|i: int| 0 <= i < earlier.len() implies (#[trigger] pairs[i]).key
                != key by {
                assert(earlier[i] == pairs[i]);
            }
        }
    }
}

} // verus!
