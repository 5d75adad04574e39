//! Files that are written and read again.

use vstd::arithmetic::div_mod::{lemma_div_by_multiple, lemma_fundamental_div_mod, lemma_mod_multiples_basic};
use vstd::arithmetic::mul::{lemma_mul_is_associative, lemma_mul_is_commutative};
use vstd::arithmetic::power2::{lemma2_to64, lemma2_to64_rest, lemma_pow2_pos, lemma_pow2_strictly_increases, pow2};
use vstd::prelude::*;

use crate::aiff::{aiff_layout, common_chunk, layout_of_parts, extended_rate, walk_chunks, AiffParts, CommonChunk, ParsedAiffLayout, AIFC_FORM_TYPE, AIFC_NONE, AIFF_FORM_TYPE, COMM_CHUNK_ID, FORM_ID, SSND_CHUNK_ID};
use crate::aiff_output::{aiff_file, chunk_bytes, chunks_size, comm_payload, data_padding, extended_float, file_head, form_size, form_type, joined_chunks, leading_chunks, metadata_chunks, metadata_marks, optional_chunk, output_envelope, pascal, resolved, serialized_size, AiffContainer, AIFC_NONE_COMPRESSION_NAME, AIFC_NONE_COMPRESSION_TYPE, AIFF_ANNOTATION_CHUNK_ID, AIFF_AUTH_CHUNK_ID, AIFF_COPYRIGHT_CHUNK_ID, AIFF_NAME_CHUNK_ID, FVER_CHUNK_ID, MARK_CHUNK_ID};
use crate::bits::fits_signed;
use crate::byte_reader::{available, be_at, bytes_at};
use crate::bytes::{be_bytes, law_be_bytes_read_back, lemma_byte_ranges};
use crate::error::ErrorView;
use crate::float::{lemma_scaled, lemma_top_bit, top_bit};
use crate::metadata::MetadataView;
use crate::pcm::{encoded_sample, encoded_samples, is_container, joined_sample_bytes, law_stored_samples_read_back, ByteOrder, PcmEnvelope, PcmSpec};
use crate::riff_chunks::ChunkView;
use crate::raw::stream_spec;
use crate::sample_source::{bytes_from, frame_size, held_samples};

verus! {

/// Big-endian numbers take the bytes that they are given.
pub proof fn lemma_be_bytes_len(value: nat, count: nat)
    ensures
        be_bytes(value, count).len() == count,
    decreases count,
{
    if count > 0 {
        lemma_be_bytes_len(value / 256, (count - 1) as nat);
    }
}

/// The samples of two pieces are stored one behind the other.
pub proof fn law_samples_are_stored_piecewise(
    first: Seq<i32>,
    second: Seq<i32>,
    envelope: PcmEnvelope,
    order: ByteOrder,
)
    ensures
        encoded_samples(first, envelope, order) matches Ok(head) ==> match encoded_samples(
            second,
            envelope,
            order,
        ) {
            Ok(tail) => encoded_samples(first + second, envelope, order) == Ok::<
                Seq<u8>,
                ErrorView,
            >(head + tail),
            Err(error) => encoded_samples(first + second, envelope, order) == Err::<
                Seq<u8>,
                ErrorView,
            >(error),
        },
    decreases second.len(),
{
    if second.len() == 0 {
        assert(first + second == first);
        if let Ok(head) = encoded_samples(first, envelope, order) {
            assert(head + Seq::<u8>::empty() == head);
        }
    } else {
        law_samples_are_stored_piecewise(first, second.drop_last(), envelope, order);
        assert((first + second).drop_last() == first + second.drop_last());
        if let Ok(head) = encoded_samples(first, envelope, order) {
            if let Ok(middle) = encoded_samples(second.drop_last(), envelope, order) {
                if let Ok(bytes) = encoded_sample(second.last(), envelope, order) {
                    assert(head + middle + bytes == head + (middle + bytes));
                }
            }
        }
    }
}

/// A sample rate is read back from its extended float.
pub proof fn law_extended_float_reads_back(rate: u32)
    ensures
        extended_float(rate).len() == 10,
        extended_rate(extended_float(rate)) == Ok::<u32, ErrorView>(rate),
{
    if rate == 0 {
        lemma_byte_ranges();
        law_be_bytes_read_back(0, 2);
        law_be_bytes_read_back(0, 8);
        let bytes = extended_float(0);
        assert(bytes.subrange(0, 2) == be_bytes(0, 2));
        assert(bytes.subrange(2, 10) == be_bytes(0, 8));
    } else {
        lemma_extended_float(rate);
    }
}

proof fn lemma_extended_float(rate: u32)
    requires
        rate > 0,
    ensures
        extended_float(rate).len() == 10,
        extended_rate(extended_float(rate)) == Ok::<u32, ErrorView>(rate),
{
    let place = top_bit(rate as nat);
    lemma_top_bit(rate as nat);
    lemma2_to64();
    lemma2_to64_rest();
    assert(place < 32) by {
        if place > 32 {
            lemma_pow2_strictly_increases(32, place);
        }
    }
    lemma_scaled(rate, place, 63);
    let factor = pow2((63 - place) as nat);
    let mantissa = (rate * factor) as nat;
    lemma_byte_ranges();
    law_be_bytes_read_back(16_383 + place, 2);
    law_be_bytes_read_back(mantissa, 8);
    let bytes = extended_float(rate);
    assert(bytes.subrange(0, 2) == be_bytes(16_383 + place, 2));
    assert(bytes.subrange(2, 10) == be_bytes(mantissa, 8));
    lemma_pow2_pos((63 - place) as nat);
    lemma_mul_is_commutative(rate as int, factor as int);
    lemma_mod_multiples_basic(rate as int, factor as int);
    lemma_div_by_multiple(rate as int, factor as int);
    assert(63 - ((16_383 + place) - 16_383) == 63 - place);
}

/// What the chunks from a position on hold.
#[verifier::opaque]
spec fn walked(bytes: Seq<u8>, position: nat, is_aifc: bool, parts: AiffParts)
    -> std::result::Result<AiffParts, ErrorView> {
    walk_chunks(bytes, position, is_aifc, parts)
}

/// A chunk that tells nothing of the audio data.
spec fn is_other_chunk(chunk: ChunkView) -> bool {
    &&& chunk.id.len() == 4
    &&& chunk.id != COMM_CHUNK_ID@
    &&& chunk.id != SSND_CHUNK_ID@
}

proof fn lemma_chunk_header(prefix: Seq<u8>, chunk: ChunkView, rest: Seq<u8>)
    requires
        chunk.id.len() == 4,
        chunk.payload.len() < 0x1_0000_0000,
    ensures
        ({
            let bytes = prefix + chunk_bytes(chunk) + rest;
            let position = prefix.len();
            &&& chunk_bytes(chunk).len() == serialized_size(chunk.payload.len())
            &&& available(bytes, position, 8)
            &&& bytes_at(bytes, position, 4) == chunk.id
            &&& be_at(bytes, position + 4, 4) == chunk.payload.len()
            &&& bytes_at(bytes, position + 8, chunk.payload.len()) == chunk.payload
        }),
{
    lemma_byte_ranges();
    law_be_bytes_read_back(chunk.payload.len(), 4);
    let bytes = prefix + chunk_bytes(chunk) + rest;
    let position = prefix.len();
    assert(bytes_at(bytes, position, 4) == chunk.id);
    assert(bytes_at(bytes, position + 4, 4) == be_bytes(chunk.payload.len(), 4));
    assert(bytes_at(bytes, position + 8, chunk.payload.len()) == chunk.payload);
}

proof fn lemma_walk_over(
    prefix: Seq<u8>,
    chunk: ChunkView,
    rest: Seq<u8>,
    is_aifc: bool,
    parts: AiffParts,
)
    requires
        is_other_chunk(chunk),
        prefix.len() + chunk_bytes(chunk).len() <= 0x2_0000_0000,
        chunk.payload.len() < 0x1_0000_0000,
    ensures
        ({
            let bytes = prefix + chunk_bytes(chunk) + rest;
            walked(bytes, prefix.len(), is_aifc, parts) == walked(
                bytes,
                prefix.len() + chunk_bytes(chunk).len(),
                is_aifc,
                parts,
            )
        }),
{
    reveal(walked);
    lemma_chunk_header(prefix, chunk, rest);
}

proof fn lemma_joined_concat(first: Seq<ChunkView>, second: Seq<ChunkView>)
    ensures
        joined_chunks(first + second) == joined_chunks(first) + joined_chunks(second),
        chunks_size(first + second) == chunks_size(first) + chunks_size(second),
    decreases second.len(),
{
    if second.len() == 0 {
        assert(first + second == first);
        assert(joined_chunks(first) + Seq::<u8>::empty() == joined_chunks(first));
    } else {
        lemma_joined_concat(first, second.drop_last());
        assert((first + second).drop_last() == first + second.drop_last());
        assert(joined_chunks(first + second) == joined_chunks(first) + joined_chunks(second));
    }
}

proof fn lemma_walk_over_all(
    prefix: Seq<u8>,
    chunks: Seq<ChunkView>,
    rest: Seq<u8>,
    is_aifc: bool,
    parts: AiffParts,
)
    requires
        forall|i: int| 0 <= i < chunks.len() ==> is_other_chunk(#[trigger] chunks[i]),
        prefix.len() + chunks_size(chunks) <= 0x1_0000_0000,
    ensures
        ({
            let bytes = prefix + joined_chunks(chunks) + rest;
            walked(bytes, prefix.len(), is_aifc, parts) == walked(
                bytes,
                prefix.len() + joined_chunks(chunks).len(),
                is_aifc,
                parts,
            )
        }),
        joined_chunks(chunks).len() == chunks_size(chunks),
    decreases chunks.len(),
{
    let bytes = prefix + joined_chunks(chunks) + rest;
    if chunks.len() > 0 {
        let earlier = chunks.drop_last();
        let last = chunks.last();
        assert(is_other_chunk(last));
        assert forall|i: int| 0 <= i < earlier.len() implies is_other_chunk(
            #[trigger] earlier[i],
        ) by {
            assert(earlier[i] == chunks[i]);
        }
        let tail = chunk_bytes(last) + rest;
        lemma_walk_over_all(prefix, earlier, tail, is_aifc, parts);
        assert(prefix + joined_chunks(earlier) + tail == bytes);
        let before = prefix + joined_chunks(earlier);
        lemma_chunk_header(before, last, rest);
        lemma_walk_over(before, last, rest, is_aifc, parts);
        assert(before + chunk_bytes(last) + rest == bytes);
    } else {
        assert(joined_chunks(chunks).len() == 0);
    }
}

proof fn lemma_ids()
    ensures
        FVER_CHUNK_ID@ != COMM_CHUNK_ID@,
        FVER_CHUNK_ID@ != SSND_CHUNK_ID@,
        MARK_CHUNK_ID@ != COMM_CHUNK_ID@,
        MARK_CHUNK_ID@ != SSND_CHUNK_ID@,
        AIFF_NAME_CHUNK_ID@ != COMM_CHUNK_ID@,
        AIFF_NAME_CHUNK_ID@ != SSND_CHUNK_ID@,
        AIFF_AUTH_CHUNK_ID@ != COMM_CHUNK_ID@,
        AIFF_AUTH_CHUNK_ID@ != SSND_CHUNK_ID@,
        AIFF_COPYRIGHT_CHUNK_ID@ != COMM_CHUNK_ID@,
        AIFF_COPYRIGHT_CHUNK_ID@ != SSND_CHUNK_ID@,
        AIFF_ANNOTATION_CHUNK_ID@ != COMM_CHUNK_ID@,
        AIFF_ANNOTATION_CHUNK_ID@ != SSND_CHUNK_ID@,
        COMM_CHUNK_ID@ != SSND_CHUNK_ID@,
        AIFF_FORM_TYPE@ != AIFC_FORM_TYPE@,
        AIFC_NONE_COMPRESSION_TYPE@ == AIFC_NONE@,
{
    assert(COMM_CHUNK_ID@[0] == 0x43 && SSND_CHUNK_ID@[0] == 0x53);
    assert(FVER_CHUNK_ID@[0] == 0x46 && MARK_CHUNK_ID@[0] == 0x4d);
    assert(AIFF_NAME_CHUNK_ID@[0] == 0x4e && AIFF_AUTH_CHUNK_ID@[0] == 0x41);
    assert(AIFF_COPYRIGHT_CHUNK_ID@[0] == 0x28 && AIFF_ANNOTATION_CHUNK_ID@[0] == 0x41);
    assert(AIFF_FORM_TYPE@[3] == 0x46 && AIFC_FORM_TYPE@[3] == 0x43);
    assert(AIFC_NONE_COMPRESSION_TYPE@ == AIFC_NONE@);
}

/// The chunks behind the stream description.
#[verifier::opaque]
spec fn trailing_chunks(metadata: MetadataView) -> Seq<ChunkView> {
    metadata_chunks(metadata) + optional_chunk(MARK_CHUNK_ID@, metadata_marks(metadata))
}

/// The chunks in front of the stream description.
#[verifier::opaque]
spec fn version_chunks(container: AiffContainer) -> Seq<ChunkView> {
    if container == AiffContainer::AifcNone {
        seq![
            ChunkView {
                id: FVER_CHUNK_ID@,
                payload: be_bytes(crate::aiff_output::AIFC_FVER_VERSION as nat, 4),
            },
        ]
    } else {
        Seq::empty()
    }
}

proof fn lemma_trailing_chunks(metadata: MetadataView)
    ensures
        forall|i: int|
            0 <= i < trailing_chunks(metadata).len() ==> is_other_chunk(
                #[trigger] trailing_chunks(metadata)[i],
            ),
{
    reveal(trailing_chunks);
    lemma_ids();
}

/// The description of a written stream.
#[verifier::opaque]
spec fn written_common(spec: PcmSpec) -> CommonChunk {
    CommonChunk {
        channels: spec.channels as u16,
        sample_frames: spec.total_samples,
        valid_bits_per_sample: spec.bits_per_sample as u16,
        sample_rate: spec.sample_rate,
        byte_order: ByteOrder::Big,
    }
}

proof fn lemma_comm_payload(spec: PcmSpec, envelope: PcmEnvelope, container: AiffContainer)
    requires
        spec.sample_rate > 0,
        spec.total_samples <= u32::MAX,
    ensures
        ({
            let payload = comm_payload(spec, envelope, container);
            &&& payload.len() == if container == AiffContainer::AifcNone {
                38nat
            } else {
                18nat
            }
            &&& be_at(payload, 0, 2) == spec.channels
            &&& be_at(payload, 2, 4) == spec.total_samples
            &&& be_at(payload, 6, 2) == envelope.valid_bits_per_sample
            &&& bytes_at(payload, 8, 10) == extended_float(spec.sample_rate)
            &&& container == AiffContainer::AifcNone ==> bytes_at(payload, 18, 4) == AIFC_NONE@
        }),
{
    let payload = comm_payload(spec, envelope, container);
    lemma_ids();
    lemma_byte_ranges();
    law_be_bytes_read_back(spec.channels as nat, 2);
    law_be_bytes_read_back(spec.total_samples as nat, 4);
    law_be_bytes_read_back(envelope.valid_bits_per_sample as nat, 2);
    law_extended_float_reads_back(spec.sample_rate);
    assert(pascal(AIFC_NONE_COMPRESSION_NAME@).len() == 16);
    assert(bytes_at(payload, 0, 2) == be_bytes(spec.channels as nat, 2));
    assert(bytes_at(payload, 2, 4) == be_bytes(spec.total_samples as nat, 4));
    assert(bytes_at(payload, 6, 2) == be_bytes(envelope.valid_bits_per_sample as nat, 2));
    assert(bytes_at(payload, 8, 10) == extended_float(spec.sample_rate));
    if container == AiffContainer::AifcNone {
        assert(bytes_at(payload, 18, 4) == AIFC_NONE_COMPRESSION_TYPE@);
    }
}

proof fn lemma_common_reads_back(
    prefix: Seq<u8>,
    spec: PcmSpec,
    envelope: PcmEnvelope,
    container: AiffContainer,
    rest: Seq<u8>,
)
    requires
        spec.sample_rate > 0,
        spec.total_samples <= u32::MAX,
        envelope.valid_bits_per_sample == spec.bits_per_sample,
    ensures
        ({
            let payload = comm_payload(spec, envelope, container);
            common_chunk(
                prefix + payload + rest,
                prefix.len(),
                payload.len(),
                container == AiffContainer::AifcNone,
            ) == Ok::<CommonChunk, ErrorView>(written_common(spec))
        }),
{
    reveal(written_common);
    let payload = comm_payload(spec, envelope, container);
    let bytes = prefix + payload + rest;
    let start = prefix.len();
    lemma_comm_payload(spec, envelope, container);
    law_extended_float_reads_back(spec.sample_rate);
    assert(bytes_at(bytes, start, 2) == bytes_at(payload, 0, 2));
    assert(bytes_at(bytes, start + 2, 4) == bytes_at(payload, 2, 4));
    assert(bytes_at(bytes, start + 6, 2) == bytes_at(payload, 6, 2));
    assert(bytes_at(bytes, start + 8, 10) == bytes_at(payload, 8, 10));
    if container == AiffContainer::AifcNone {
        assert(bytes_at(bytes, start + 18, 4) == bytes_at(payload, 18, 4));
    }
}

/// The last chunk of a file.
#[verifier::opaque]
spec fn sound_chunk(data: Seq<u8>) -> ChunkView {
    ChunkView { id: SSND_CHUNK_ID@, payload: be_bytes(0, 4) + be_bytes(0, 4) + data }
}

proof fn lemma_walk_common(
    prefix: Seq<u8>,
    spec: PcmSpec,
    envelope: PcmEnvelope,
    container: AiffContainer,
    rest: Seq<u8>,
    parts: AiffParts,
)
    requires
        spec.sample_rate > 0,
        spec.total_samples <= u32::MAX,
        envelope.valid_bits_per_sample == spec.bits_per_sample,
        prefix.len() <= 0x1_0000_0000,
    ensures
        ({
            let chunk = common_as_chunk(spec, envelope, container);
            let bytes = prefix + chunk_bytes(chunk) + rest;
            let is_aifc = container == AiffContainer::AifcNone;
            walked(bytes, prefix.len(), is_aifc, parts) == walked(
                bytes,
                prefix.len() + chunk_bytes(chunk).len(),
                is_aifc,
                AiffParts { common: Some(written_common(spec)), ..parts },
            )
        }),
{
    reveal(walked);
    reveal(common_as_chunk);
    let payload = comm_payload(spec, envelope, container);
    let chunk = ChunkView { id: COMM_CHUNK_ID@, payload };
    let bytes = prefix + chunk_bytes(chunk) + rest;
    lemma_comm_payload(spec, envelope, container);
    lemma_chunk_header(prefix, chunk, rest);
    let header = prefix + (COMM_CHUNK_ID@ + be_bytes(payload.len(), 4));
    lemma_be_bytes_len(payload.len(), 4);
    lemma_common_reads_back(header, spec, envelope, container, rest);
    assert(bytes == header + payload + rest);
}

proof fn lemma_walk_sound(prefix: Seq<u8>, data: Seq<u8>, is_aifc: bool, parts: AiffParts)
    requires
        prefix.len() + data.len() + 16 <= 0x2_0000_0000,
        data.len() + 8 < 0x1_0000_0000,
    ensures
        walked(prefix + chunk_bytes(sound_chunk(data)), prefix.len(), is_aifc, parts) == Ok::<
            AiffParts,
            ErrorView,
        >(
            AiffParts {
                data_offset: Some((prefix.len() + 16) as u64),
                data_size: Some(data.len() as u64),
                ..parts
            },
        ),
{
    reveal(walked);
    reveal(sound_chunk);
    let chunk = sound_chunk(data);
    let bytes = prefix + chunk_bytes(chunk);
    lemma_ids();
    lemma_byte_ranges();
    law_be_bytes_read_back(0, 4);
    lemma_chunk_header(prefix, chunk, Seq::empty());
    assert(prefix + chunk_bytes(chunk) + Seq::<u8>::empty() == bytes);
    let position = prefix.len();
    let start = position + 8;
    assert(bytes_at(bytes, start, 4) == bytes_at(chunk.payload, 0, 4)) by {
        assert(bytes_at(bytes, start, chunk.payload.len()) == chunk.payload);
        assert(bytes_at(bytes, start, 4) == bytes_at(
            bytes_at(bytes, start, chunk.payload.len()),
            0,
            4,
        ));
    }
    assert(bytes_at(chunk.payload, 0, 4) == be_bytes(0, 4));
    let size = chunk.payload.len();
    assert(size == 8 + data.len());
    let end = position + 8 + size + size % 2;
    assert(end == bytes.len());
    assert(!available(bytes, end, 8));
    let found = AiffParts {
        data_offset: Some((position + 16) as u64),
        data_size: Some(data.len() as u64),
        ..parts
    };
    assert(walked(bytes, end, is_aifc, found) == Ok::<AiffParts, ErrorView>(found));
}

/// The samples that fit a width are stored without a failure.
pub proof fn lemma_fitting_samples_are_stored(
    samples: Seq<i32>,
    envelope: PcmEnvelope,
    order: ByteOrder,
)
    requires
        is_container(envelope.container_bits_per_sample),
        1 <= envelope.valid_bits_per_sample <= envelope.container_bits_per_sample,
        forall|i: int|
            0 <= i < samples.len() ==> fits_signed(
                #[trigger] samples[i] as int,
                envelope.valid_bits_per_sample as nat,
            ),
    ensures
        encoded_samples(samples, envelope, order) == Ok::<Seq<u8>, ErrorView>(
            joined_sample_bytes(samples, envelope, order),
        ),
    decreases samples.len(),
{
    if samples.len() > 0 {
        let earlier = samples.drop_last();
        assert forall|i: int| 0 <= i < earlier.len() implies fits_signed(
            #[trigger] earlier[i] as int,
            envelope.valid_bits_per_sample as nat,
        ) by {
            assert(earlier[i] == samples[i]);
        }
        lemma_fitting_samples_are_stored(earlier, envelope, order);
        crate::pcm::law_sample_bytes_read_back(samples.last(), envelope, order);
    }
}

/// The stream description as a chunk.
#[verifier::opaque]
spec fn common_as_chunk(spec: PcmSpec, envelope: PcmEnvelope, container: AiffContainer) -> ChunkView {
    ChunkView { id: COMM_CHUNK_ID@, payload: comm_payload(spec, envelope, container) }
}

proof fn lemma_common_as_chunk(spec: PcmSpec, envelope: PcmEnvelope, container: AiffContainer)
    requires
        spec.sample_rate > 0,
        spec.total_samples <= u32::MAX,
    ensures
        ({
            let chunk = common_as_chunk(spec, envelope, container);
            &&& chunk.payload.len() <= 38
            &&& chunk_bytes(chunk).len() == serialized_size(chunk.payload.len())
        }),
{
    reveal(common_as_chunk);
    let chunk = common_as_chunk(spec, envelope, container);
    lemma_comm_payload(spec, envelope, container);
    lemma_chunk_header(Seq::empty(), chunk, Seq::empty());
}

proof fn lemma_sound_chunk(data: Seq<u8>)
    requires
        data.len() + 8 < 0x1_0000_0000,
    ensures
        sound_chunk(data).payload.len() == 8 + data.len(),
        chunk_bytes(sound_chunk(data)).len() == serialized_size(8 + data.len()),
        chunk_bytes(sound_chunk(data)) == SSND_CHUNK_ID@ + be_bytes(8 + data.len(), 4) + be_bytes(
            0,
            4,
        ) + be_bytes(0, 4) + data + data_padding(data.len()),
{
    reveal(sound_chunk);
    lemma_be_bytes_len(0, 4);
    lemma_chunk_header(Seq::empty(), sound_chunk(data), Seq::empty());
    assert(chunk_bytes(sound_chunk(data)) == SSND_CHUNK_ID@ + be_bytes(8 + data.len(), 4)
        + be_bytes(0, 4) + be_bytes(0, 4) + data + data_padding(data.len()));
}

proof fn lemma_version_chunks(container: AiffContainer)
    ensures
        forall|i: int|
            0 <= i < version_chunks(container).len() ==> is_other_chunk(
                #[trigger] version_chunks(container)[i],
            ),
{
    reveal(version_chunks);
    lemma_ids();
}

/// The bytes of a FORM behind its size.
spec fn form_bytes(
    spec: PcmSpec,
    envelope: PcmEnvelope,
    metadata: MetadataView,
    container: AiffContainer,
    data_bytes: nat,
) -> nat {
    4 + chunks_size(version_chunks(container)) + serialized_size(
        common_as_chunk(spec, envelope, container).payload.len(),
    ) + chunks_size(trailing_chunks(metadata)) + serialized_size(8 + data_bytes)
}

/// The chunks in front of the audio data, one after the other.
spec fn leading_bytes(
    opening: Seq<u8>,
    spec: PcmSpec,
    envelope: PcmEnvelope,
    metadata: MetadataView,
    container: AiffContainer,
) -> Seq<u8> {
    opening + joined_chunks(version_chunks(container)) + chunk_bytes(
        common_as_chunk(spec, envelope, container),
    ) + joined_chunks(trailing_chunks(metadata))
}

/// What is found in the chunks behind an opening.
proof fn lemma_walk_pieces(
    opening: Seq<u8>,
    spec: PcmSpec,
    envelope: PcmEnvelope,
    metadata: MetadataView,
    container: AiffContainer,
    data: Seq<u8>,
)
    requires
        spec.sample_rate > 0,
        spec.total_samples <= u32::MAX,
        envelope.valid_bits_per_sample == spec.bits_per_sample,
        opening.len() == 12,
        form_bytes(spec, envelope, metadata, container, data.len()) <= u32::MAX,
    ensures
        ({
            let leading = leading_bytes(opening, spec, envelope, metadata, container);
            let none = AiffParts { common: None, data_offset: None, data_size: None };
            walked(
                leading + chunk_bytes(sound_chunk(data)),
                12,
                container == AiffContainer::AifcNone,
                none,
            ) == Ok::<AiffParts, ErrorView>(
                AiffParts {
                    common: Some(written_common(spec)),
                    data_offset: Some((leading.len() + 16) as u64),
                    data_size: Some(data.len() as u64),
                },
            )
        }),
{
    let version = version_chunks(container);
    let common = common_as_chunk(spec, envelope, container);
    let trailing = trailing_chunks(metadata);
    let sound = chunk_bytes(sound_chunk(data));
    let is_aifc = container == AiffContainer::AifcNone;
    let none = AiffParts { common: None, data_offset: None, data_size: None };
    let described = AiffParts { common: Some(written_common(spec)), ..none };
    lemma_trailing_chunks(metadata);
    lemma_version_chunks(container);
    lemma_common_as_chunk(spec, envelope, container);
    lemma_sound_chunk(data);
    let second = opening + joined_chunks(version);
    let third = second + chunk_bytes(common);
    let fourth = third + joined_chunks(trailing);
    let pieces = fourth + sound;
    let after_common = joined_chunks(trailing) + sound;
    let after_version = chunk_bytes(common) + after_common;
    assert(pieces == second + after_version);
    assert(pieces == third + after_common);
    lemma_walk_over_all(opening, version, after_version, is_aifc, none);
    lemma_walk_common(second, spec, envelope, container, after_common, none);
    lemma_walk_over_all(third, trailing, sound, is_aifc, described);
    lemma_walk_sound(fourth, data, is_aifc, described);
}

proof fn lemma_joined_three(
    opening: Seq<u8>,
    first: Seq<ChunkView>,
    second: ChunkView,
    third: Seq<ChunkView>,
)
    ensures
        opening + joined_chunks((first + seq![second]) + third) == opening + joined_chunks(first)
            + chunk_bytes(second) + joined_chunks(third),
        chunks_size((first + seq![second]) + third) == chunks_size(first) + serialized_size(
            second.payload.len(),
        ) + chunks_size(third),
{
    lemma_joined_concat(first + seq![second], third);
    lemma_joined_concat(first, seq![second]);
    assert(seq![second].drop_last() == Seq::<ChunkView>::empty());
    assert(joined_chunks(Seq::<ChunkView>::empty()) == Seq::<u8>::empty());
    assert(chunks_size(Seq::<ChunkView>::empty()) == 0);
    assert(joined_chunks(seq![second]) == chunk_bytes(second));
    assert(opening + (joined_chunks(first) + chunk_bytes(second) + joined_chunks(third)) == opening
        + joined_chunks(first) + chunk_bytes(second) + joined_chunks(third));
}

proof fn lemma_leading_split(
    spec: PcmSpec,
    envelope: PcmEnvelope,
    metadata: MetadataView,
    container: AiffContainer,
)
    ensures
        leading_chunks(spec, envelope, metadata, container) == (version_chunks(container) + seq![
            common_as_chunk(spec, envelope, container),
        ]) + trailing_chunks(metadata),
{
    reveal(leading_chunks);
    reveal(version_chunks);
    reveal(common_as_chunk);
    reveal(trailing_chunks);
    assert(leading_chunks(spec, envelope, metadata, container) == (version_chunks(container)
        + seq![common_as_chunk(spec, envelope, container)]) + trailing_chunks(metadata));
}

/// The size of the chunks in front of the audio data.
proof fn lemma_leading_chunks(
    opening: Seq<u8>,
    spec: PcmSpec,
    envelope: PcmEnvelope,
    metadata: MetadataView,
    container: AiffContainer,
)
    ensures
        ({
            let chunks = leading_chunks(spec, envelope, metadata, container);
            &&& opening + joined_chunks(chunks) == leading_bytes(
                opening,
                spec,
                envelope,
                metadata,
                container,
            )
            &&& chunks_size(chunks) == chunks_size(version_chunks(container)) + serialized_size(
                common_as_chunk(spec, envelope, container).payload.len(),
            ) + chunks_size(trailing_chunks(metadata))
        }),
{
    lemma_leading_split(spec, envelope, metadata, container);
    lemma_joined_three(
        opening,
        version_chunks(container),
        common_as_chunk(spec, envelope, container),
        trailing_chunks(metadata),
    );
}

/// A written file is made of the pieces that a reader walks over.
proof fn lemma_file_pieces(
    spec: PcmSpec,
    envelope: PcmEnvelope,
    metadata: MetadataView,
    container: AiffContainer,
    data: Seq<u8>,
)
    requires
        container != AiffContainer::Auto,
        file_head(spec, envelope, metadata, container, data.len()) is Ok,
    ensures
        ({
            let head = file_head(spec, envelope, metadata, container, data.len())->Ok_0;
            let size = form_bytes(spec, envelope, metadata, container, data.len());
            let opening = FORM_ID@ + be_bytes(size, 4) + form_type(container);
            let leading = leading_bytes(opening, spec, envelope, metadata, container);
            &&& opening.len() == 12
            &&& size <= u32::MAX
            &&& head + data + data_padding(data.len()) == leading + chunk_bytes(sound_chunk(data))
            &&& head.len() == leading.len() + 16
        }),
{
    reveal(file_head);
    let chunks = leading_chunks(spec, envelope, metadata, container);
    let size = form_size(chunks, 8 + data.len())->Ok_0;
    let opening = FORM_ID@ + be_bytes(size, 4) + form_type(container);
    lemma_be_bytes_len(size, 4);
    lemma_be_bytes_len(0, 4);
    lemma_be_bytes_len(8 + data.len(), 4);
    lemma_leading_chunks(opening, spec, envelope, metadata, container);
    lemma_sound_chunk(data);
    let head = file_head(spec, envelope, metadata, container, data.len())->Ok_0;
    let leading = leading_bytes(opening, spec, envelope, metadata, container);
    let tail = SSND_CHUNK_ID@ + be_bytes(8 + data.len(), 4) + be_bytes(0, 4) + be_bytes(0, 4);
    assert(head == leading + tail);
    assert(head + data + data_padding(data.len()) == leading + chunk_bytes(sound_chunk(data)));
}

/// What a reader finds in a written file.
proof fn lemma_file_layout(
    spec: PcmSpec,
    envelope: PcmEnvelope,
    metadata: MetadataView,
    container: AiffContainer,
    data: Seq<u8>,
)
    requires
        spec.sample_rate > 0,
        output_envelope(spec) == Ok::<PcmEnvelope, ErrorView>(envelope),
        container != AiffContainer::Auto,
        file_head(spec, envelope, metadata, container, data.len()) is Ok,
        data.len() == spec.total_samples * frame_size(envelope),
    ensures
        ({
            let head = file_head(spec, envelope, metadata, container, data.len())->Ok_0;
            &&& head.len() <= u64::MAX
            &&& data.len() <= u64::MAX
            &&& aiff_layout(head + data + data_padding(data.len()), 0) == Ok::<
                ParsedAiffLayout,
                ErrorView,
            >(written_layout(spec, envelope, head.len(), data.len()))
        }),
{
    lemma_file_pieces(spec, envelope, metadata, container, data);
    let head = file_head(spec, envelope, metadata, container, data.len())->Ok_0;
    let file = head + data + data_padding(data.len());
    let size = form_bytes(spec, envelope, metadata, container, data.len());
    let opening = FORM_ID@ + be_bytes(size, 4) + form_type(container);
    lemma_be_bytes_len(size, 4);
    lemma_walk_pieces(opening, spec, envelope, metadata, container, data);
    let leading = leading_bytes(opening, spec, envelope, metadata, container);
    assert(leading.len() >= 12 && leading.take(12) == opening);
    assert(file.take(12) == opening);
    assert(bytes_at(file, 0, 4) == FORM_ID@) by {
        assert(bytes_at(file, 0, 4) == opening.take(4));
        assert(opening.take(4) == FORM_ID@);
    }
    assert(bytes_at(file, 8, 4) == form_type(container)) by {
        assert(bytes_at(file, 8, 4) == opening.skip(8));
        assert(opening.skip(8) == form_type(container));
    }
    assert(head.len() <= u64::MAX) by {
        lemma_leading_size(opening, spec, envelope, metadata, container);
    }
    lemma_layout_of_parts(spec, envelope, head.len(), data.len());
    lemma_ids();
    reveal(walked);
}

/// The size of what stands in front of the audio data.
proof fn lemma_leading_size(
    opening: Seq<u8>,
    spec: PcmSpec,
    envelope: PcmEnvelope,
    metadata: MetadataView,
    container: AiffContainer,
)
    requires
        spec.sample_rate > 0,
        spec.total_samples <= u32::MAX,
        opening.len() == 12,
        form_bytes(spec, envelope, metadata, container, 0) <= u32::MAX,
    ensures
        leading_bytes(opening, spec, envelope, metadata, container).len() <= 0x1_0000_0010,
{
    lemma_trailing_chunks(metadata);
    lemma_version_chunks(container);
    lemma_common_as_chunk(spec, envelope, container);
    let none = AiffParts { common: None, data_offset: None, data_size: None };
    lemma_walk_over_all(Seq::empty(), version_chunks(container), Seq::empty(), true, none);
    lemma_walk_over_all(Seq::empty(), trailing_chunks(metadata), Seq::empty(), true, none);
}

/// The layout of a written file.
spec fn written_layout(
    spec: PcmSpec,
    envelope: PcmEnvelope,
    data_offset: nat,
    data_bytes: nat,
) -> ParsedAiffLayout {
    ParsedAiffLayout {
        envelope,
        sample_rate: spec.sample_rate,
        total_samples: spec.total_samples,
        data_offset: data_offset as u64,
        data_size: data_bytes as u64,
        byte_order: ByteOrder::Big,
    }
}

proof fn lemma_layout_of_parts(
    spec: PcmSpec,
    envelope: PcmEnvelope,
    data_offset: nat,
    data_bytes: nat,
)
    requires
        spec.sample_rate > 0,
        output_envelope(spec) == Ok::<PcmEnvelope, ErrorView>(envelope),
        data_bytes == spec.total_samples * frame_size(envelope),
        data_bytes <= u64::MAX,
    ensures
        layout_of_parts(
            AiffParts {
                common: Some(written_common(spec)),
                data_offset: Some(data_offset as u64),
                data_size: Some(data_bytes as u64),
            },
        ) == Ok::<ParsedAiffLayout, ErrorView>(
            written_layout(spec, envelope, data_offset, data_bytes),
        ),
{
    reveal(written_common);
    let unit = frame_size(envelope) as int;
    assert(unit >= 1) by (nonlinear_arith)
        requires
            unit == envelope.channels * (envelope.container_bits_per_sample / 8),
            envelope.channels >= 1,
            envelope.container_bits_per_sample >= 8,
    ;
    lemma_mul_is_commutative(spec.total_samples as int, unit);
    lemma_mod_multiples_basic(spec.total_samples as int, unit);
    lemma_div_by_multiple(spec.total_samples as int, unit);
}

/// A family and the family that it stands for give the same file.
proof fn lemma_resolved_head(
    spec: PcmSpec,
    envelope: PcmEnvelope,
    metadata: MetadataView,
    container: AiffContainer,
    data_bytes: nat,
)
    ensures
        file_head(spec, envelope, metadata, container, data_bytes) == file_head(
            spec,
            envelope,
            metadata,
            resolved(container),
            data_bytes,
        ),
{
    reveal(file_head);
}

/// A file that was written is read back: its description is that of the samples, and
/// the stream that its reader hands out gives the samples.
#[verifier::rlimit(60)]
#[verifier::spinoff_prover]
pub proof fn law_aiff_file_reads_back(
    spec: PcmSpec,
    samples: Seq<i32>,
    metadata: MetadataView,
    container: AiffContainer,
)
    requires
        spec.sample_rate > 0,
        forall|i: int|
            0 <= i < samples.len() ==> fits_signed(
                #[trigger] samples[i] as int,
                spec.bits_per_sample as nat,
            ),
    ensures
        aiff_file(spec, samples, metadata, container) matches Ok(file) ==> {
            &&& aiff_layout(file, 0) matches Ok(layout)
            &&& stream_spec(layout.sample_rate, layout.total_samples, layout.envelope) == spec
            &&& held_samples(
                bytes_from(file, layout.data_offset as nat),
                layout.total_samples as nat,
                layout.envelope,
                layout.byte_order,
            ) == samples
            &&& layout.total_samples * frame_size(layout.envelope) <= bytes_from(
                file,
                layout.data_offset as nat,
            ).len()
        },
{
    if let Ok(file) = aiff_file(spec, samples, metadata, container) {
        let envelope = output_envelope(spec)->Ok_0;
        let width = (envelope.container_bits_per_sample / 8) as int;
        let channels = envelope.channels as int;
        let unit = frame_size(envelope) as int;
        lemma_fitting_samples_are_stored(samples, envelope, ByteOrder::Big);
        law_stored_samples_read_back(samples, envelope, ByteOrder::Big);
        let data = joined_sample_bytes(samples, envelope, ByteOrder::Big);
        let data_bytes = samples.len() * width;
        lemma_resolved_head(spec, envelope, metadata, container, data_bytes as nat);
        let head = file_head(spec, envelope, metadata, container, data_bytes as nat)->Ok_0;
        lemma_fundamental_div_mod(samples.len() as int, channels);
        lemma_mul_is_commutative(channels, spec.total_samples as int);
        lemma_mul_is_associative(spec.total_samples as int, channels, width);
        assert(data.len() == spec.total_samples * unit);
        lemma_file_layout(spec, envelope, metadata, resolved(container), data);
        let behind = bytes_from(file, head.len());
        assert(behind == data + data_padding(data.len()));
        assert(behind.take(data.len() as int) == data);
    }
}

/// A file that is written piece by piece is the file that is written at once.
pub proof fn law_streamed_aiff_is_whole_aiff(
    spec: PcmSpec,
    first: Seq<i32>,
    second: Seq<i32>,
    metadata: MetadataView,
    container: AiffContainer,
)
    ensures
        aiff_file(spec, first + second, metadata, container) matches Ok(file) ==> {
            let envelope = output_envelope(spec)->Ok_0;
            let data_bytes = (spec.total_samples * frame_size(envelope)) as nat;
            &&& file_head(spec, envelope, metadata, container, data_bytes) matches Ok(head)
            &&& encoded_samples(first, envelope, ByteOrder::Big) matches Ok(early)
            &&& encoded_samples(second, envelope, ByteOrder::Big) matches Ok(late)
            &&& file == head + early + late + if data_bytes % 2 != 0 {
                seq![0u8]
            } else {
                Seq::empty()
            }
        },
{
    if let Ok(file) = aiff_file(spec, first + second, metadata, container) {
        let samples = first + second;
        let envelope = output_envelope(spec)->Ok_0;
        let width = (envelope.container_bits_per_sample / 8) as int;
        let channels = envelope.channels as int;
        lemma_fundamental_div_mod(samples.len() as int, channels);
        lemma_mul_is_commutative(channels, spec.total_samples as int);
        lemma_mul_is_associative(spec.total_samples as int, channels, width);
        let data_bytes = (samples.len() * width) as nat;
        assert(data_bytes == spec.total_samples * frame_size(envelope));
        let head = file_head(spec, envelope, metadata, container, data_bytes)->Ok_0;
        law_samples_are_stored_piecewise(first, second, envelope, ByteOrder::Big);
        lemma_failure_comes_first(first, second, envelope, ByteOrder::Big);
        let early = encoded_samples(first, envelope, ByteOrder::Big)->Ok_0;
        let late = encoded_samples(second, envelope, ByteOrder::Big)->Ok_0;
        assert(head + (early + late) + data_padding(data_bytes) == head + early + late
            + data_padding(data_bytes));
    }
}

/// Samples that cannot be stored cannot be stored with others behind them either.
pub proof fn lemma_failure_comes_first(
    first: Seq<i32>,
    second: Seq<i32>,
    envelope: PcmEnvelope,
    order: ByteOrder,
)
    ensures
        encoded_samples(first, envelope, order) is Err ==> encoded_samples(
            first + second,
            envelope,
            order,
        ) is Err,
    decreases second.len(),
{
    if second.len() == 0 {
        assert(first + second == first);
    } else {
        lemma_failure_comes_first(first, second.drop_last(), envelope, order);
        assert((first + second).drop_last() == first + second.drop_last());
    }
}

} // verus!
