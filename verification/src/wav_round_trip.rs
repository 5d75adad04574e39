//! Files of the RIFF/WAVE family read back.

use vstd::arithmetic::div_mod::lemma_fundamental_div_mod;
use vstd::arithmetic::mul::{lemma_mul_is_associative, lemma_mul_is_commutative};
use vstd::prelude::*;

use crate::aiff_round_trip::lemma_fitting_samples_are_stored;
use crate::byte_reader::bytes_at;
use crate::bytes::{law_le_bytes_read_back, le_bytes, lemma_byte_ranges};
use crate::draft::FxmdChunkPolicy;
use crate::error::ErrorView;
use crate::fxmd::{carried_blocks, law_fxmd_reads_back};
use crate::metadata::{MetadataView, DATA_ID};
use crate::pcm::{joined_sample_bytes, law_stored_samples_read_back, mask_is_supported, ordinary_mask, ByteOrder, PcmEnvelope, PcmSpec};
use crate::raw::{frames_in_bytes, raw_envelope, RawPcmByteOrder, RawPcmDescriptor};
use crate::rice::all_fit;
use crate::riff_chunks::{lemma_le_bytes_len, ChunkView};
use crate::sample_source::{bytes_from, frame_size, held_samples, is_storable};
use crate::wav::{chunk_header_size, chunk_padding, first_place, format_descriptor, layout_of_places, long_size, place_at, places_from, preamble_size, wav_places, wave64_size, wave_kind, PlaceView, WavLayoutView, WaveKind, CUE_ID, DS64_ID, EXTENSIBLE_FORMAT_TAG, FMT_ID, FXMD_ID, LIST_ID, LONG_SIZE, PCM_FORMAT_TAG, PCM_GUID, RF64_ID, RIFF_ID, WAVE64_CHUNK_TAIL, WAVE64_RIFF_GUID, WAVE64_WAVE_GUID, WAVE_ID};
use crate::wav_output::{data_header, format_payload, is_plain, payloads_fit, wav_file, wave_body, wave_chunk, wave_chunk_header, wave_chunks, wave_envelope, wave_head, wave_preamble, wave_size, zeros};
use crate::wav_reader::{drafted_places, fxmd_policy, wav_contents, wav_envelope, wav_spec, WavReaderOptions};

verus! {

/// The description that a file of the family gives back: where no speaker positions were
/// named, those of convention.
pub open spec fn named_spec(spec: PcmSpec) -> PcmSpec {
    PcmSpec {
        channel_mask: if spec.channel_mask == 0 {
            ordinary_mask(spec.channels as u16).unwrap()
        } else {
            spec.channel_mask
        },
        ..spec
    }
}

/// A length that the header of a chunk can tell.
pub open spec fn size_is_told(kind: WaveKind, size: nat) -> bool {
    if kind == WaveKind::Wave64 {
        size + 24 <= u64::MAX
    } else {
        size <= LONG_SIZE
    }
}

/// The header of a chunk is read.
#[verifier::rlimit(60)]
#[verifier::spinoff_prover]
proof fn lemma_header_reads(
    file: Seq<u8>,
    position: nat,
    kind: WaveKind,
    id: Seq<u8>,
    size: nat,
    long: nat,
)
    requires
        id.len() == 4,
        size_is_told(kind, size),
        position + chunk_header_size(kind) <= file.len(),
        bytes_at(file, position, chunk_header_size(kind)) == wave_chunk_header(kind, id, size),
    ensures
        wave_chunk_header(kind, id, size).len() == chunk_header_size(kind),
        kind == WaveKind::Wave64 ==> wave64_size(file, position) == size + 24,
        place_at(file, position, kind, long) == (PlaceView {
            id,
            start: position + chunk_header_size(kind),
            size: if kind == WaveKind::Rf64 && id == DATA_ID@ && size == LONG_SIZE {
                long
            } else {
                size
            },
        }),
{
    lemma_byte_ranges();
    let header = wave_chunk_header(kind, id, size);
    if kind == WaveKind::Wave64 {
        law_le_bytes_read_back(size + 24, 8);
        let guid = bytes_at(file, position, 16);
        assert(guid == header.take(16));
        assert(guid.take(4) == id);
        assert(guid.skip(4) == WAVE64_CHUNK_TAIL@);
        assert(bytes_at(file, position + 16, 8) == header.skip(16));
        assert(header.skip(16) == le_bytes(size + 24, 8));
    } else {
        law_le_bytes_read_back(size, 4);
        assert(bytes_at(file, position, 4) == header.take(4));
        assert(header.take(4) == id);
        assert(bytes_at(file, position + 4, 4) == header.skip(4));
        assert(header.skip(4) == le_bytes(size, 4));
    }
}

/// Where the payload of a chunk stands.
spec fn place_of(kind: WaveKind, chunk: ChunkView, position: nat) -> PlaceView {
    PlaceView {
        id: chunk.id,
        start: position + chunk_header_size(kind),
        size: chunk.payload.len(),
    }
}

/// A chunk is read, and then what follows it.
#[verifier::rlimit(60)]
#[verifier::spinoff_prover]
proof fn lemma_chunk_reads(
    file: Seq<u8>,
    position: nat,
    kind: WaveKind,
    chunk: ChunkView,
    long: nat,
)
    requires
        chunk.id.len() == 4,
        chunk.payload.len() < LONG_SIZE,
        position + wave_chunk(kind, chunk).len() <= file.len(),
        bytes_at(file, position, wave_chunk(kind, chunk).len()) == wave_chunk(kind, chunk),
    ensures
        wave_chunk(kind, chunk).len() == chunk_header_size(kind) + chunk.payload.len()
            + chunk_padding(kind, chunk.payload.len()),
        places_from(file, position, kind, long) == match places_from(
            file,
            position + wave_chunk(kind, chunk).len(),
            kind,
            long,
        ) {
            Ok(rest) => Ok::<Seq<PlaceView>, ErrorView>(
                seq![place_of(kind, chunk, position)] + rest,
            ),
            Err(error) => Err(error),
        },
        bytes_at(file, position + chunk_header_size(kind), chunk.payload.len()) == chunk.payload,
{
    let size = chunk.payload.len();
    let bytes = wave_chunk(kind, chunk);
    let header = wave_chunk_header(kind, chunk.id, size);
    let padding = zeros(chunk_padding(kind, size));
    lemma_byte_ranges();
    lemma_le_bytes_len(size + 24, 8);
    lemma_le_bytes_len(size, 4);
    assert(header.len() == chunk_header_size(kind));
    assert(bytes.len() == header.len() + size + padding.len());
    assert(bytes_at(file, position, header.len()) == bytes.take(header.len() as int));
    assert(bytes.take(header.len() as int) == header);
    lemma_header_reads(file, position, kind, chunk.id, size, long);
    assert(bytes_at(file, position + header.len(), size) == bytes.subrange(
        header.len() as int,
        (header.len() + size) as int,
    ));
    assert(bytes.subrange(header.len() as int, (header.len() + size) as int) == chunk.payload);
    let place = place_at(file, position, kind, long);
    assert(place == place_of(kind, chunk, position));
}

/// Where the payloads of chunks stand.
spec fn places_of(kind: WaveKind, chunks: Seq<ChunkView>, position: nat) -> Seq<PlaceView>
    decreases chunks.len(),
{
    if chunks.len() == 0 {
        Seq::empty()
    } else {
        let earlier = chunks.drop_last();
        places_of(kind, earlier, position).push(
            place_of(kind, chunks.last(), position + wave_chunks(kind, earlier).len()),
        )
    }
}

/// Chunks are read, and then what follows them.
#[verifier::rlimit(60)]
#[verifier::spinoff_prover]
proof fn lemma_chunks_read(
    file: Seq<u8>,
    position: nat,
    kind: WaveKind,
    chunks: Seq<ChunkView>,
    long: nat,
)
    requires
        payloads_fit(chunks),
        forall|i: int| 0 <= i < chunks.len() ==> (#[trigger] chunks[i]).id.len() == 4,
        position + wave_chunks(kind, chunks).len() <= file.len(),
        bytes_at(file, position, wave_chunks(kind, chunks).len()) == wave_chunks(kind, chunks),
    ensures
        places_from(file, position, kind, long) == match places_from(
            file,
            position + wave_chunks(kind, chunks).len(),
            kind,
            long,
        ) {
            Ok(rest) => Ok::<Seq<PlaceView>, ErrorView>(places_of(kind, chunks, position) + rest),
            Err(error) => Err(error),
        },
        places_of(kind, chunks, position).len() == chunks.len(),
        forall|i: int|
            0 <= i < chunks.len() ==> {
                let place = #[trigger] places_of(kind, chunks, position)[i];
                &&& place.id == chunks[i].id
                &&& place.size == chunks[i].payload.len()
                &&& place.start + place.size <= file.len()
                &&& bytes_at(file, place.start, place.size) == chunks[i].payload
            },
    decreases chunks.len(),
{
    let all = wave_chunks(kind, chunks);
    let places = places_of(kind, chunks, position);
    if chunks.len() == 0 {
        if let Ok(rest) = places_from(file, position, kind, long) {
            assert(places + rest == rest);
        }
    } else {
        let earlier = chunks.drop_last();
        let front = wave_chunks(kind, earlier);
        let last = chunks.last();
        let place = position + front.len();
        assert(last == chunks[chunks.len() - 1]);
        assert forall|i: int| 0 <= i < earlier.len() implies (#[trigger] earlier[i]).id.len() == 4
            && earlier[i].payload.len() < LONG_SIZE by {
            assert(earlier[i] == chunks[i]);
        }
        assert(bytes_at(file, position, front.len()) == all.take(front.len() as int));
        assert(all.take(front.len() as int) == front);
        assert(bytes_at(file, place, wave_chunk(kind, last).len()) == all.skip(front.len() as int));
        assert(all.skip(front.len() as int) == wave_chunk(kind, last));
        lemma_chunks_read(file, position, kind, earlier, long);
        lemma_chunk_reads(file, place, kind, last, long);
        let end = position + all.len();
        assert(end == place + wave_chunk(kind, last).len());
        let before = places_of(kind, earlier, position);
        if let Ok(rest) = places_from(file, end, kind, long) {
            assert(before + (seq![place_of(kind, last, place)] + rest) == places + rest);
        }
        assert forall|i: int| 0 <= i < chunks.len() implies {
            let found = #[trigger] places[i];
            &&& found.id == chunks[i].id
            &&& found.size == chunks[i].payload.len()
            &&& found.start + found.size <= file.len()
            &&& bytes_at(file, found.start, found.size) == chunks[i].payload
        } by {
            if i < earlier.len() {
                assert(places[i] == before[i]);
                assert(earlier[i] == chunks[i]);
            }
        }
    }
}

/// Where no chunk has an identifier, the next one that has it is the first.
proof fn lemma_first_behind(places: Seq<PlaceView>, place: PlaceView, more: Seq<PlaceView>)
    requires
        forall|i: int| 0 <= i < places.len() ==> (#[trigger] places[i]).id != place.id,
    ensures
        first_place(places.push(place) + more, place.id) == Some(place),
    decreases places.len() + more.len(),
{
    let all = places.push(place) + more;
    if more.len() > 0 {
        lemma_first_behind(places, place, more.drop_last());
        assert(all.drop_last() == places.push(place) + more.drop_last());
    } else {
        assert(all.drop_last() == places);
        assert(all.last() == place);
        lemma_none(places, place.id);
    }
}

proof fn lemma_none(places: Seq<PlaceView>, id: Seq<u8>)
    requires
        forall|i: int| 0 <= i < places.len() ==> (#[trigger] places[i]).id != id,
    ensures
        first_place(places, id) is None,
    decreases places.len(),
{
    if places.len() > 0 {
        assert(places.last() == places[places.len() - 1]);
        assert forall|i: int| 0 <= i < places.drop_last().len() implies (
        #[trigger] places.drop_last()[i]).id != id by {
            assert(places.drop_last()[i] == places[i]);
        }
        lemma_none(places.drop_last(), id);
    }
}

proof fn lemma_ids_differ()
    ensures
        FMT_ID@ != DATA_ID@,
        LIST_ID@ != DATA_ID@,
        CUE_ID@ != DATA_ID@,
        FXMD_ID@ != DATA_ID@,
        DS64_ID@ != DATA_ID@,
        DS64_ID@ != FMT_ID@,
        DS64_ID@ != FXMD_ID@,
        FMT_ID@ != FXMD_ID@,
        LIST_ID@ != FXMD_ID@,
        CUE_ID@ != FXMD_ID@,
        DATA_ID@ != FXMD_ID@,
        RIFF_ID@ != RF64_ID@,
        WAVE64_RIFF_GUID@.take(4) != RIFF_ID@,
        WAVE64_RIFF_GUID@.take(4) != RF64_ID@,
{
    assert(FMT_ID@[0] == 0x66 && FMT_ID@[1] == 0x6d);
    assert(FXMD_ID@[0] == 0x66 && FXMD_ID@[1] == 0x78);
    assert(DATA_ID@[0] == 0x64 && DATA_ID@[1] == 0x61);
    assert(DS64_ID@[0] == 0x64 && DS64_ID@[1] == 0x73);
    assert(LIST_ID@[0] == 0x4c && CUE_ID@[0] == 0x63);
    assert(RIFF_ID@[0] == 0x52 && RF64_ID@[0] == 0x52);
    assert(RIFF_ID@[1] == 0x49 && RF64_ID@[1] == 0x46);
    assert(WAVE64_RIFF_GUID@.take(4)[0] == 0x72);
}

/// What the `fmt ` chunk of a file says of its samples.
spec fn told_descriptor(sample_rate: u32, envelope: PcmEnvelope) -> RawPcmDescriptor {
    RawPcmDescriptor {
        sample_rate,
        channels: envelope.channels as u8,
        valid_bits_per_sample: envelope.valid_bits_per_sample as u8,
        container_bits_per_sample: envelope.container_bits_per_sample as u8,
        byte_order: RawPcmByteOrder::LittleEndian,
        channel_mask: if envelope.channel_mask == 0 {
            ordinary_mask(envelope.channels)
        } else {
            Some(envelope.channel_mask)
        },
    }
}

/// The `fmt ` chunk is read as it was written.
#[verifier::rlimit(40)]
#[verifier::spinoff_prover]
proof fn lemma_format_reads(sample_rate: u32, envelope: PcmEnvelope)
    requires
        is_storable(envelope),
        1 <= envelope.channels <= 8,
        envelope.valid_bits_per_sample <= 32,
    ensures
        format_descriptor(format_payload(sample_rate, envelope)) == Ok::<
            RawPcmDescriptor,
            ErrorView,
        >(told_descriptor(sample_rate, envelope)),
        format_payload(sample_rate, envelope).len() <= 40,
{
    let payload = format_payload(sample_rate, envelope);
    let frame = frame_size(envelope);
    let rate = ((sample_rate * frame) % 0x1_0000_0000) as nat;
    let bits = envelope.container_bits_per_sample as nat;
    lemma_byte_ranges();
    assert(1 <= frame <= 32 && frame * 8 == envelope.channels * bits) by (nonlinear_arith)
        requires
            frame == envelope.channels * (bits / 8),
            1 <= envelope.channels <= 8,
            bits == 8 || bits == 16 || bits == 24 || bits == 32,
    ;
    law_le_bytes_read_back(PCM_FORMAT_TAG as nat, 2);
    law_le_bytes_read_back(EXTENSIBLE_FORMAT_TAG as nat, 2);
    law_le_bytes_read_back(envelope.channels as nat, 2);
    law_le_bytes_read_back(sample_rate as nat, 4);
    lemma_le_bytes_len(rate, 4);
    law_le_bytes_read_back(frame, 2);
    law_le_bytes_read_back(bits, 2);
    lemma_le_bytes_len(22, 2);
    law_le_bytes_read_back(envelope.valid_bits_per_sample as nat, 2);
    law_le_bytes_read_back(envelope.channel_mask as nat, 4);
    assert(bytes_at(payload, 2, 2) == le_bytes(envelope.channels as nat, 2));
    assert(bytes_at(payload, 4, 4) == le_bytes(sample_rate as nat, 4));
    assert(bytes_at(payload, 12, 2) == le_bytes(frame, 2));
    assert(bytes_at(payload, 14, 2) == le_bytes(bits, 2));
    if is_plain(envelope) {
        assert(bytes_at(payload, 0, 2) == le_bytes(PCM_FORMAT_TAG as nat, 2));
    } else {
        assert(bytes_at(payload, 0, 2) == le_bytes(EXTENSIBLE_FORMAT_TAG as nat, 2));
        assert(bytes_at(payload, 18, 2) == le_bytes(envelope.valid_bits_per_sample as nat, 2));
        assert(bytes_at(payload, 20, 4) == le_bytes(envelope.channel_mask as nat, 4));
        assert(bytes_at(payload, 24, 16) == PCM_GUID@);
    }
}

/// What a file starts with tells its kind, and the length of its samples where it has to.
#[verifier::rlimit(60)]
#[verifier::spinoff_prover]
proof fn lemma_preamble_reads(file: Seq<u8>, kind: WaveKind, size: nat, data: nat, frames: nat)
    requires
        data <= u64::MAX,
        wave_preamble(kind, size, data, frames).len() <= file.len(),
        bytes_at(file, 0, wave_preamble(kind, size, data, frames).len()) == wave_preamble(
            kind,
            size,
            data,
            frames,
        ),
    ensures
        wave_kind(file, 0) == Some(kind),
        long_size(file, 0, kind) == Ok::<nat, ErrorView>(
            if kind == WaveKind::Rf64 {
                data
            } else {
                0
            },
        ),
        wave_preamble(kind, size, data, frames).len() == preamble_size(kind) + if kind
            == WaveKind::Rf64 {
            36nat
        } else {
            0nat
        },
        kind == WaveKind::Rf64 ==> {
            &&& bytes_at(file, 12, 8) == wave_chunk_header(kind, DS64_ID@, 28)
        },
{
    let start = wave_preamble(kind, size, data, frames);
    lemma_byte_ranges();
    lemma_ids_differ();
    lemma_le_bytes_len((size - 8) as nat, 4);
    lemma_le_bytes_len((size - 8) as nat, 8);
    lemma_le_bytes_len(size, 8);
    lemma_le_bytes_len(LONG_SIZE as nat, 4);
    law_le_bytes_read_back(28, 4);
    law_le_bytes_read_back(data, 8);
    lemma_le_bytes_len(frames, 8);
    lemma_le_bytes_len(0, 4);
    match kind {
        WaveKind::Riff => {
            assert(bytes_at(file, 0, 4) == start.take(4));
            assert(start.take(4) == RIFF_ID@);
            assert(bytes_at(file, 8, 4) == start.subrange(8, 12));
            assert(start.subrange(8, 12) == WAVE_ID@);
        },
        WaveKind::Rf64 => {
            assert(start.len() == 48);
            assert(bytes_at(file, 0, 4) == start.take(4));
            assert(start.take(4) == RF64_ID@);
            assert(bytes_at(file, 8, 4) == start.subrange(8, 12));
            assert(start.subrange(8, 12) == WAVE_ID@);
            assert(bytes_at(file, 12, 8) == start.subrange(12, 20));
            assert(start.subrange(12, 20) == wave_chunk_header(kind, DS64_ID@, 28));
            assert(bytes_at(file, 12, 4) == start.subrange(12, 16));
            assert(start.subrange(12, 16) == DS64_ID@);
            assert(bytes_at(file, 16, 4) == start.subrange(16, 20));
            assert(start.subrange(16, 20) == le_bytes(28, 4));
            assert(bytes_at(file, 28, 8) == start.subrange(28, 36));
            assert(start.subrange(28, 36) == le_bytes(data, 8));
        },
        WaveKind::Wave64 => {
            assert(start.len() == 40);
            assert(bytes_at(file, 0, 16) == start.take(16));
            assert(start.take(16) == WAVE64_RIFF_GUID@);
            assert(bytes_at(file, 0, 4) == WAVE64_RIFF_GUID@.take(4));
            assert(bytes_at(file, 24, 16) == start.subrange(24, 40));
            assert(start.subrange(24, 40) == WAVE64_WAVE_GUID@);
        },
    }
}

/// The chunks in front of the samples, that of an RF64 file among them.
spec fn front_places(kind: WaveKind, chunks: Seq<ChunkView>) -> Seq<PlaceView> {
    if kind == WaveKind::Rf64 {
        seq![PlaceView { id: DS64_ID@, start: 20, size: 28 }] + places_of(kind, chunks, 48)
    } else {
        places_of(kind, chunks, preamble_size(kind))
    }
}

/// The number of chunks that stand in front of those that describe the samples.
spec fn skipped(kind: WaveKind) -> int {
    if kind == WaveKind::Rf64 {
        1
    } else {
        0
    }
}

/// A chunk stands at a place of a file.
spec fn is_place_of(file: Seq<u8>, place: PlaceView, chunk: ChunkView) -> bool {
    &&& place.id == chunk.id
    &&& place.size == chunk.payload.len()
    &&& place.start + place.size <= file.len()
    &&& bytes_at(file, place.start, place.size) == chunk.payload
}

/// The chunks of a written file.
#[verifier::rlimit(40)]
#[verifier::spinoff_prover]
proof fn lemma_file_places(
    kind: WaveKind,
    size: nat,
    frames: nat,
    chunks: Seq<ChunkView>,
    data: Seq<u8>,
)
    requires
        payloads_fit(chunks),
        forall|i: int| 0 <= i < chunks.len() ==> (#[trigger] chunks[i]).id.len() == 4,
        data.len() + 64 <= u64::MAX,
        kind == WaveKind::Riff ==> data.len() < LONG_SIZE,
    ensures
        ({
            let head = wave_preamble(kind, size, data.len(), frames) + wave_chunks(kind, chunks)
                + data_header(kind, data.len());
            let file = head + data + zeros(chunk_padding(kind, data.len()));
            let place = PlaceView { id: DATA_ID@, start: head.len(), size: data.len() };
            let front = front_places(kind, chunks);
            &&& wav_places(file, 0) == Ok::<Seq<PlaceView>, ErrorView>(front.push(place))
            &&& front.len() == chunks.len() + skipped(kind)
            &&& kind == WaveKind::Rf64 ==> front[0].id == DS64_ID@
            &&& forall|i: int|
                skipped(kind) <= i < front.len() ==> is_place_of(
                    file,
                    #[trigger] front[i],
                    chunks[i - skipped(kind)],
                )
        }),
{
    let start = wave_preamble(kind, size, data.len(), frames);
    let body = wave_chunks(kind, chunks);
    let header = data_header(kind, data.len());
    let padding = zeros(chunk_padding(kind, data.len()));
    let head = start + body + header;
    let file = head + data + padding;
    let long: nat = if kind == WaveKind::Rf64 {
        data.len()
    } else {
        0
    };
    assert(bytes_at(file, 0, start.len()) == start);
    lemma_preamble_reads(file, kind, size, data.len(), frames);
    assert(bytes_at(file, start.len(), body.len()) == body);
    lemma_chunks_read(file, start.len(), kind, chunks, long);
    let place = start.len() + body.len();
    lemma_data_reads(file, place, kind, data.len(), long, start + body, data);
    let last = PlaceView { id: DATA_ID@, start: head.len(), size: data.len() };
    let found = places_of(kind, chunks, start.len());
    assert(found + seq![last] == found.push(last));
    let front = front_places(kind, chunks);
    if kind == WaveKind::Rf64 {
        let first = PlaceView { id: DS64_ID@, start: 20, size: 28 };
        lemma_header_reads(file, 12, kind, DS64_ID@, 28, long);
        lemma_ids_differ();
        assert(place_at(file, 12, kind, long) == first);
        assert(seq![first] + found.push(last) == front.push(last));
    }
    assert forall|i: int| skipped(kind) <= i < front.len() implies is_place_of(
        file,
        #[trigger] front[i],
        chunks[i - skipped(kind)],
    ) by {
        assert(front[i] == found[i - skipped(kind)]);
    }
}

/// The samples are the last chunk of a written file.
#[verifier::rlimit(60)]
#[verifier::spinoff_prover]
proof fn lemma_data_reads(
    file: Seq<u8>,
    place: nat,
    kind: WaveKind,
    size: nat,
    long: nat,
    front: Seq<u8>,
    data: Seq<u8>,
)
    requires
        size == data.len(),
        size + 64 <= u64::MAX,
        kind == WaveKind::Riff ==> size < LONG_SIZE,
        kind == WaveKind::Rf64 ==> long == size,
        place == front.len(),
        file == front + data_header(kind, size) + data + zeros(chunk_padding(kind, size)),
    ensures
        places_from(file, place, kind, long) == Ok::<Seq<PlaceView>, ErrorView>(
            seq![
                PlaceView {
                    id: DATA_ID@,
                    start: (front + data_header(kind, size)).len(),
                    size,
                },
            ],
        ),
{
    let header = data_header(kind, size);
    let told: nat = if kind == WaveKind::Rf64 {
        LONG_SIZE as nat
    } else {
        size
    };
    lemma_byte_ranges();
    lemma_le_bytes_len(told + 24, 8);
    lemma_le_bytes_len(told, 4);
    assert(header.len() == chunk_header_size(kind));
    assert(bytes_at(file, place, header.len()) == header);
    lemma_header_reads(file, place, kind, DATA_ID@, told, long);
    let last = PlaceView { id: DATA_ID@, start: (front + header).len(), size };
    assert(place_at(file, place, kind, long) == last);
    assert(places_from(file, file.len(), kind, long) == Ok::<Seq<PlaceView>, ErrorView>(
        Seq::empty(),
    ));
    assert(seq![last] + Seq::<PlaceView>::empty() == seq![last]);
}

/// Metadata are read from chunks of which none carries blocks that cannot be read.
proof fn lemma_metadata_reads(bytes: Seq<u8>, places: Seq<PlaceView>, policy: FxmdChunkPolicy)
    requires
        forall|i: int|
            0 <= i < places.len() ==> {
                let place = #[trigger] places[i];
                place.id == FXMD_ID@ && place.start + place.size <= bytes.len()
                    ==> carried_blocks(bytes_at(bytes, place.start, place.size)) is Ok
            },
    ensures
        drafted_places(bytes, places, policy) is Ok,
    decreases places.len(),
{
    if places.len() > 0 {
        assert(places.last() == places[places.len() - 1]);
        assert forall|i: int| 0 <= i < places.drop_last().len() implies {
            let place = #[trigger] places.drop_last()[i];
            place.id == FXMD_ID@ && place.start + place.size <= bytes.len() ==> carried_blocks(
                bytes_at(bytes, place.start, place.size),
            ) is Ok
        } by {
            assert(places.drop_last()[i] == places[i]);
        }
        lemma_metadata_reads(bytes, places.drop_last(), policy);
    }
}

/// The chunks that describe the samples and carry metadata are none of the others.
proof fn lemma_body_chunks(sample_rate: u32, envelope: PcmEnvelope, metadata: MetadataView)
    ensures
        ({
            let chunks = wave_body(sample_rate, envelope, metadata);
            &&& chunks.len() >= 1
            &&& chunks[0] == (ChunkView {
                id: FMT_ID@,
                payload: format_payload(sample_rate, envelope),
            })
            &&& forall|i: int|
                0 <= i < chunks.len() ==> {
                    &&& (#[trigger] chunks[i]).id.len() == 4
                    &&& chunks[i].id != DATA_ID@
                    &&& chunks[i].id == FXMD_ID@ ==> carried_blocks(chunks[i].payload) is Ok
                }
        }),
{
    lemma_ids_differ();
    law_fxmd_reads_back(metadata.preserved);
}

/// The first chunks with the identifiers of the description and of the samples.
proof fn lemma_front_firsts(kind: WaveKind, front: Seq<PlaceView>, last: PlaceView)
    requires
        front.len() > skipped(kind),
        front[skipped(kind)].id == FMT_ID@,
        kind == WaveKind::Rf64 ==> front[0].id == DS64_ID@,
        forall|i: int| 0 <= i < front.len() ==> (#[trigger] front[i]).id != DATA_ID@,
        last.id == DATA_ID@,
    ensures
        first_place(front.push(last), FMT_ID@) == Some(front[skipped(kind)]),
        first_place(front.push(last), DATA_ID@) == Some(last),
{
    lemma_ids_differ();
    let places = front.push(last);
    let format = front[skipped(kind)];
    let earlier = front.take(skipped(kind));
    let behind = places.skip(skipped(kind) + 1);
    assert(places == earlier.push(format) + behind);
    assert forall|i: int| 0 <= i < earlier.len() implies (#[trigger] earlier[i]).id
        != format.id by {
        assert(earlier[i] == front[0]);
    }
    lemma_first_behind(earlier, format, behind);
    lemma_first_behind(front, last, Seq::empty());
    assert(front.push(last) + Seq::<PlaceView>::empty() == places);
}

/// What the chunks of a file say, once the first of them are known.
proof fn lemma_layout_told(
    file: Seq<u8>,
    places: Seq<PlaceView>,
    format: PlaceView,
    last: PlaceView,
    descriptor: RawPcmDescriptor,
    frames: u64,
)
    requires
        first_place(places, FMT_ID@) == Some(format),
        first_place(places, DATA_ID@) == Some(last),
        format_descriptor(bytes_at(file, format.start, format.size)) == Ok::<
            RawPcmDescriptor,
            ErrorView,
        >(descriptor),
        frames_in_bytes(last.size as u64, descriptor) == Ok::<u64, ErrorView>(frames),
    ensures
        layout_of_places(file, places) == Ok::<WavLayoutView, ErrorView>(
            WavLayoutView { descriptor, data_offset: last.start, frames, places },
        ),
{
}

/// The layout of a written file, and that its metadata are read.
#[verifier::rlimit(60)]
#[verifier::spinoff_prover]
proof fn lemma_file_layout(
    kind: WaveKind,
    spec: PcmSpec,
    envelope: PcmEnvelope,
    metadata: MetadataView,
    data: Seq<u8>,
    options: WavReaderOptions,
)
    requires
        spec.sample_rate > 0,
        wave_envelope(spec) == Ok::<PcmEnvelope, ErrorView>(envelope),
        data.len() == spec.total_samples * frame_size(envelope),
        data.len() + 64 <= u64::MAX,
    ensures
        wave_head(kind, spec, envelope, metadata, data.len()) matches Ok(head) ==> {
            let file = head + data + zeros(chunk_padding(kind, data.len()));
            &&& wav_contents(file, 0, options) matches Ok((layout, _))
            &&& layout.descriptor == told_descriptor(spec.sample_rate, envelope)
            &&& layout.data_offset == head.len()
            &&& layout.frames == spec.total_samples
        },
{
    reveal(wave_head);
    if let Ok(head) = wave_head(kind, spec, envelope, metadata, data.len()) {
        let chunks = wave_body(spec.sample_rate, envelope, metadata);
        let body = wave_chunks(kind, chunks);
        let size = wave_size(kind, body.len(), data.len());
        let file = head + data + zeros(chunk_padding(kind, data.len()));
        let front = front_places(kind, chunks);
        let last = PlaceView { id: DATA_ID@, start: head.len(), size: data.len() };
        lemma_ids_differ();
        lemma_body_chunks(spec.sample_rate, envelope, metadata);
        lemma_file_places(kind, size, spec.total_samples as nat, chunks, data);
        lemma_raw_layout(spec, envelope, data.len());
        assert(is_place_of(file, front[skipped(kind)], chunks[0]));
        assert forall|i: int| 0 <= i < front.len() implies (#[trigger] front[i]).id != DATA_ID@ by {
            if i >= skipped(kind) {
                assert(is_place_of(file, front[i], chunks[i - skipped(kind)]));
            }
        }
        lemma_front_firsts(kind, front, last);
        lemma_format_reads(spec.sample_rate, envelope);
        lemma_layout_told(
            file,
            front.push(last),
            front[skipped(kind)],
            last,
            told_descriptor(spec.sample_rate, envelope),
            spec.total_samples,
        );
        let places = front.push(last);
        assert forall|i: int| 0 <= i < places.len() implies {
            let place = #[trigger] places[i];
            place.id == FXMD_ID@ && place.start + place.size <= file.len() ==> carried_blocks(
                bytes_at(file, place.start, place.size),
            ) is Ok
        } by {
            if skipped(kind) <= i < front.len() {
                assert(is_place_of(file, front[i], chunks[i - skipped(kind)]));
            }
        }
        lemma_metadata_reads(file, places, fxmd_policy(options));
    }
}

/// What the file says of its samples is supported.
proof fn lemma_raw_layout(spec: PcmSpec, envelope: PcmEnvelope, size: nat)
    requires
        spec.sample_rate > 0,
        wave_envelope(spec) == Ok::<PcmEnvelope, ErrorView>(envelope),
        size == spec.total_samples * frame_size(envelope),
        size <= u64::MAX,
    ensures
        raw_envelope(told_descriptor(spec.sample_rate, envelope)) == Ok::<PcmEnvelope, ErrorView>(
            PcmEnvelope { channel_mask: named_spec(spec).channel_mask, ..envelope },
        ),
        frames_in_bytes(size as u64, told_descriptor(spec.sample_rate, envelope))
            == Ok::<u64, ErrorView>(spec.total_samples),
{
    let channels = envelope.channels;
    lemma_ordinary_masks(channels);
    let frame = frame_size(envelope) as int;
    assert(frame >= 1) by (nonlinear_arith)
        requires
            frame == envelope.channels * (envelope.container_bits_per_sample / 8),
            1 <= envelope.channels,
            1 <= envelope.container_bits_per_sample / 8,
    ;
    vstd::arithmetic::div_mod::lemma_mod_multiples_basic(spec.total_samples as int, frame);
    vstd::arithmetic::div_mod::lemma_div_by_multiple(spec.total_samples as int, frame);
}

/// Speaker positions by convention are known ones, one for each channel.
pub proof fn lemma_ordinary_masks(channels: u16)
    requires
        1 <= channels <= 8,
    ensures
        ordinary_mask(channels) matches Some(mask) && mask != 0 && mask_is_supported(
            channels,
            mask,
        ),
{
    reveal_with_fuel(crate::pcm::set_bits, 13);
}

/// A file that was written reads back: with the description and the samples that went into
/// it, and with metadata that can be read.
pub proof fn law_wav_file_reads_back(
    kind: WaveKind,
    spec: PcmSpec,
    samples: Seq<i32>,
    metadata: MetadataView,
    options: WavReaderOptions,
)
    requires
        spec.sample_rate > 0,
        all_fit(samples, spec.bits_per_sample as nat),
        wav_file(kind, spec, samples, metadata) matches Ok(file) ==> file.len() + 64 <= u64::MAX,
    ensures
        wav_file(kind, spec, samples, metadata) matches Ok(file) ==> {
            &&& wav_contents(file, 0, options) matches Ok((layout, _))
            &&& wav_spec(layout) == named_spec(spec)
            &&& held_samples(
                bytes_from(file, layout.data_offset),
                layout.frames as nat,
                wav_envelope(layout),
                ByteOrder::Wave,
            ) == samples
            &&& layout.frames * frame_size(wav_envelope(layout)) <= bytes_from(
                file,
                layout.data_offset,
            ).len()
        },
{
    if let Ok(file) = wav_file(kind, spec, samples, metadata) {
        let envelope = wave_envelope(spec)->Ok_0;
        let width = (envelope.container_bits_per_sample / 8) as int;
        let channels = envelope.channels as int;
        lemma_fitting_samples_are_stored(samples, envelope, ByteOrder::Wave);
        law_stored_samples_read_back(samples, envelope, ByteOrder::Wave);
        let data = joined_sample_bytes(samples, envelope, ByteOrder::Wave);
        lemma_fundamental_div_mod(samples.len() as int, channels);
        lemma_mul_is_commutative(channels, spec.total_samples as int);
        lemma_mul_is_associative(spec.total_samples as int, channels, width);
        assert(data.len() == spec.total_samples * frame_size(envelope));
        let head = wave_head(kind, spec, envelope, metadata, data.len())->Ok_0;
        lemma_file_layout(kind, spec, envelope, metadata, data, options);
        lemma_raw_layout(spec, envelope, data.len());
        let behind = bytes_from(file, head.len());
        assert(behind == data + zeros(chunk_padding(kind, data.len())));
        assert(behind.take(data.len() as int) == data);
        let read = PcmEnvelope { channel_mask: named_spec(spec).channel_mask, ..envelope };
        assert(held_samples(behind, spec.total_samples as nat, read, ByteOrder::Wave)
            == held_samples(behind, spec.total_samples as nat, envelope, ByteOrder::Wave));
    }
}

} // verus!
