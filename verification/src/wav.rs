//! RIFF/WAVE, RF64 and Wave64 files: their chunks and what their headers say.

use vstd::prelude::*;
use vstd::slice::slice_subrange;

use crate::byte_reader::{available, bytes_at, ByteReader};
use crate::bytes::{bytes_equal, le_value, lemma_byte_ranges, read_le};
use crate::error::{Error, ErrorView, Result};
use crate::fourcc::{is_id, FourCc};
use crate::metadata::DATA_ID;
use crate::pcm::{container_bits, container_bits_from_valid_bits, ordinary_channel_mask, ordinary_mask};
use crate::raw::{frames_in_bytes, total_samples_from_byte_len_with_descriptor, RawPcmByteOrder, RawPcmDescriptor};

verus! {

/// `RIFF`
pub const RIFF_ID: FourCc = [0x52, 0x49, 0x46, 0x46];

/// `RF64`
pub const RF64_ID: FourCc = [0x52, 0x46, 0x36, 0x34];

/// `WAVE`
pub const WAVE_ID: FourCc = [0x57, 0x41, 0x56, 0x45];

/// `fmt `
pub const FMT_ID: FourCc = [0x66, 0x6d, 0x74, 0x20];

/// `ds64`
pub const DS64_ID: FourCc = [0x64, 0x73, 0x36, 0x34];

/// `LIST`
pub const LIST_ID: FourCc = [0x4c, 0x49, 0x53, 0x54];

/// `cue `
pub const CUE_ID: FourCc = [0x63, 0x75, 0x65, 0x20];

/// `fxmd`
pub const FXMD_ID: FourCc = [0x66, 0x78, 0x6d, 0x64];

/// The identifier of a Wave64 file.
pub const WAVE64_RIFF_GUID: [u8; 16] = [
    0x72,
    0x69,
    0x66,
    0x66,
    0x2e,
    0x91,
    0xcf,
    0x11,
    0xa5,
    0xd6,
    0x28,
    0xdb,
    0x04,
    0xc1,
    0x00,
    0x00,
];

/// The identifier of the contents of a Wave64 file.
pub const WAVE64_WAVE_GUID: [u8; 16] = [
    0x77,
    0x61,
    0x76,
    0x65,
    0xf3,
    0xac,
    0xd3,
    0x11,
    0x8c,
    0xd1,
    0x00,
    0xc0,
    0x4f,
    0x8e,
    0xdb,
    0x8a,
];

/// What follows the four letters of a chunk identifier in a Wave64 file.
pub const WAVE64_CHUNK_TAIL: [u8; 12] = [
    0xf3,
    0xac,
    0xd3,
    0x11,
    0x8c,
    0xd1,
    0x00,
    0xc0,
    0x4f,
    0x8e,
    0xdb,
    0x8a,
];

/// The subformat of integer PCM.
pub const PCM_GUID: [u8; 16] = [
    0x01,
    0x00,
    0x00,
    0x00,
    0x00,
    0x00,
    0x10,
    0x00,
    0x80,
    0x00,
    0x00,
    0xaa,
    0x00,
    0x38,
    0x9b,
    0x71,
];

/// The format tag of plain integer PCM.
pub const PCM_FORMAT_TAG: u16 = 1;

/// The format tag of a description with a subformat and speaker positions.
pub const EXTENSIBLE_FORMAT_TAG: u16 = 0xfffe;

/// The length that stands for one that only the `ds64` chunk can tell.
pub const LONG_SIZE: u32 = 0xffff_ffff;

/// The members of the RIFF/WAVE family.
#[derive(Debug, Clone, Copy, PartialEq, Eq, Structural)]
pub enum WaveKind {
    Riff,
    Rf64,
    Wave64,
}

/// The little-endian number of `count` bytes at a position.
pub open spec fn le_at(bytes: Seq<u8>, position: nat, count: nat) -> nat {
    le_value(bytes_at(bytes, position, count))
}

pub open spec fn invalid_wav<T>(message: Seq<char>) -> std::result::Result<T, ErrorView> {
    Err(ErrorView::InvalidPcmContainer(message))
}

pub open spec fn unsupported_wav<T>(message: Seq<char>) -> std::result::Result<T, ErrorView> {
    Err(ErrorView::UnsupportedPcmContainer(message))
}

/// The member of the family that stands at a position.
pub open spec fn wave_kind(bytes: Seq<u8>, position: nat) -> Option<WaveKind> {
    if available(bytes, position, 12) && bytes_at(bytes, position, 4) == RIFF_ID@ && bytes_at(
        bytes,
        position + 8,
        4,
    ) == WAVE_ID@ {
        Some(WaveKind::Riff)
    } else if available(bytes, position, 12) && bytes_at(bytes, position, 4) == RF64_ID@
        && bytes_at(bytes, position + 8, 4) == WAVE_ID@ {
        Some(WaveKind::Rf64)
    } else if available(bytes, position, 40) && bytes_at(bytes, position, 16) == WAVE64_RIFF_GUID@
        && bytes_at(bytes, position + 24, 16) == WAVE64_WAVE_GUID@ {
        Some(WaveKind::Wave64)
    } else {
        None
    }
}

/// Tells which member of the family stands at a position.
fn find_kind(bytes: &[u8], position: usize) -> (kind: Option<WaveKind>)
    requires
        position <= bytes@.len(),
    ensures
        kind == wave_kind(bytes@, position as nat),
{
    let length: usize = bytes.len();
    if length - position >= 12 {
        let outer = slice_subrange(bytes, position, position + 4);
        let inner = slice_subrange(bytes, position + 8, position + 12);
        if is_id(outer, &RIFF_ID) && is_id(inner, &WAVE_ID) {
            return Some(WaveKind::Riff);
        }
        if is_id(outer, &RF64_ID) && is_id(inner, &WAVE_ID) {
            return Some(WaveKind::Rf64);
        }
    }
    if length - position >= 40 {
        let outer = slice_subrange(bytes, position, position + 16);
        let inner = slice_subrange(bytes, position + 24, position + 40);
        if bytes_equal(outer, WAVE64_RIFF_GUID.as_slice()) && bytes_equal(
            inner,
            WAVE64_WAVE_GUID.as_slice(),
        ) {
            return Some(WaveKind::Wave64);
        }
    }
    None
}

/// The bytes in front of the first chunk of a file.
pub open spec fn preamble_size(kind: WaveKind) -> nat {
    if kind == WaveKind::Wave64 {
        40
    } else {
        12
    }
}

/// The bytes in front of the payload of a chunk.
pub open spec fn chunk_header_size(kind: WaveKind) -> nat {
    if kind == WaveKind::Wave64 {
        24
    } else {
        8
    }
}

/// The bytes that fill up a payload.
pub open spec fn chunk_padding(kind: WaveKind, size: nat) -> nat {
    if kind == WaveKind::Wave64 {
        ((8 - size % 8) % 8) as nat
    } else {
        size % 2
    }
}

/// A chunk of a file: its identifier, where its payload starts and how long it is.
#[derive(Debug, Clone, Copy)]
pub struct ChunkPlace {
    pub id: FourCc,
    pub start: usize,
    pub size: u64,
}

/// A [`ChunkPlace`] over mathematical values.
pub struct PlaceView {
    pub id: Seq<u8>,
    pub start: nat,
    pub size: nat,
}

impl View for ChunkPlace {
    type V = PlaceView;

    open spec fn view(&self) -> PlaceView {
        PlaceView { id: self.id@, start: self.start as nat, size: self.size as nat }
    }
}

/// The places of chunks.
pub open spec fn place_views(places: Seq<ChunkPlace>) -> Seq<PlaceView> {
    places.map_values(|place: ChunkPlace| place@)
}

/// The four letters of a Wave64 chunk identifier; other identifiers have none.
pub open spec fn wave64_letters(guid: Seq<u8>) -> Seq<u8> {
    if guid.skip(4) == WAVE64_CHUNK_TAIL@ {
        guid.take(4)
    } else {
        seq![0u8, 0u8, 0u8, 0u8]
    }
}

/// The length that the header of a Wave64 chunk declares, its header counted in.
pub open spec fn wave64_size(bytes: Seq<u8>, position: nat) -> nat {
    le_at(bytes, position + 16, 8)
}

/// The chunk at a position. `long` is the length of the samples that a `ds64` chunk tells.
pub open spec fn place_at(bytes: Seq<u8>, position: nat, kind: WaveKind, long: nat) -> PlaceView {
    if kind == WaveKind::Wave64 {
        PlaceView {
            id: wave64_letters(bytes_at(bytes, position, 16)),
            start: position + 24,
            size: (wave64_size(bytes, position) - 24) as nat,
        }
    } else {
        let id = bytes_at(bytes, position, 4);
        let size = le_at(bytes, position + 4, 4);
        PlaceView {
            id,
            start: position + 8,
            size: if kind == WaveKind::Rf64 && id == DATA_ID@ && size == LONG_SIZE {
                long
            } else {
                size
            },
        }
    }
}

/// The chunks from a position on, or why they cannot be told. Only the samples may be cut
/// off by the end of the file.
pub open spec fn places_from(bytes: Seq<u8>, position: nat, kind: WaveKind, long: nat)
    -> std::result::Result<Seq<PlaceView>, ErrorView>
    decreases
            if position <= bytes.len() {
                bytes.len() - position
            } else {
                0
            },
{
    if !available(bytes, position, chunk_header_size(kind)) {
        Ok(Seq::empty())
    } else if kind == WaveKind::Wave64 && wave64_size(bytes, position) < 24 {
        invalid_wav("invalid wav: chunk is shorter than its header"@)
    } else {
        let place = place_at(bytes, position, kind, long);
        if available(bytes, place.start, place.size) {
            match places_from(
                bytes,
                place.start + place.size + chunk_padding(kind, place.size),
                kind,
                long,
            ) {
                Err(error) => Err(error),
                Ok(rest) => Ok(seq![place] + rest),
            }
        } else if place.id == DATA_ID@ {
            Ok(seq![place])
        } else {
            invalid_wav("invalid wav: chunk exceeds the file"@)
        }
    }
}

/// The chunk at a position.
fn read_place(bytes: &[u8], position: usize, kind: WaveKind, long: u64) -> (place: ChunkPlace)
    requires
        available(bytes@, position as nat, chunk_header_size(kind)),
        kind == WaveKind::Wave64 ==> wave64_size(bytes@, position as nat) >= 24,
    ensures
        place@ == place_at(bytes@, position as nat, kind, long as nat),
{
    let length: usize = bytes.len();
    let letters: FourCc = [
        bytes[position],
        bytes[position + 1],
        bytes[position + 2],
        bytes[position + 3],
    ];
    if kind == WaveKind::Wave64 {
        let tail = slice_subrange(bytes, position + 4, position + 16);
        let ghost guid = bytes_at(bytes@, position as nat, 16);
        assert(tail@ == guid.skip(4));
        assert(letters@ == guid.take(4));
        let id: FourCc = if bytes_equal(tail, WAVE64_CHUNK_TAIL.as_slice()) {
            letters
        } else {
            [0, 0, 0, 0]
        };
        assert(id@ == wave64_letters(guid));
        let declared: u64 = read_le(bytes, position + 16, 8);
        ChunkPlace { id, start: position + 24, size: declared - 24 }
    } else {
        assert(letters@ == bytes_at(bytes@, position as nat, 4));
        let declared: u64 = read_le(bytes, position + 4, 4);
        let size: u64 = if kind == WaveKind::Rf64 && is_id(letters.as_slice(), &DATA_ID)
            && declared == LONG_SIZE as u64 {
            long
        } else {
            declared
        };
        ChunkPlace { id: letters, start: position + 8, size }
    }
}

/// The chunks from a position on.
fn read_places(bytes: &[u8], start: usize, kind: WaveKind, long: u64) -> (places: Result<
    Vec<ChunkPlace>,
>)
    requires
        start <= bytes@.len(),
    ensures
        match places_from(bytes@, start as nat, kind, long as nat) {
            Ok(expected) => places matches Ok(found) && place_views(found@) == expected && forall|
                i: int,
            |
                0 <= i < found@.len() ==> (#[trigger] found@[i]).start <= bytes@.len(),
            Err(expected) => places matches Err(error) && error@ == expected,
        },
{
    let length: usize = bytes.len();
    let header: usize = if kind == WaveKind::Wave64 {
        24
    } else {
        8
    };
    let mut places: Vec<ChunkPlace> = Vec::new();
    let mut position: usize = start;
    let ghost whole = places_from(bytes@, start as nat, kind, long as nat);
    proof {
        if let Ok(rest) = whole {
            assert(place_views(places@) + rest == rest);
        }
    }
    while length - position >= header
        invariant
            position <= length,
            length == bytes@.len(),
            header == chunk_header_size(kind),
            whole == places_from(bytes@, start as nat, kind, long as nat),
            forall|i: int| 0 <= i < places@.len() ==> (#[trigger] places@[i]).start <= bytes@.len(),
            match places_from(bytes@, position as nat, kind, long as nat) {
                Ok(rest) => whole == Ok::<Seq<PlaceView>, ErrorView>(
                    place_views(places@) + rest,
                ),
                Err(error) => whole == Err::<Seq<PlaceView>, ErrorView>(error),
            },
        decreases length - position,
    {
        if kind == WaveKind::Wave64 {
            let declared: u64 = read_le(bytes, position + 16, 8);
            if declared < 24 {
                return Err(
                    Error::InvalidPcmContainer("invalid wav: chunk is shorter than its header"),
                );
            }
        }
        let place = read_place(bytes, position, kind, long);
        let left: usize = length - place.start;
        let ghost before = places@;
        places.push(place);
        assert(place_views(places@) == place_views(before).push(place@));
        if place.size > left as u64 {
            if is_id(place.id.as_slice(), &DATA_ID) {
                assert(place_views(before) + seq![place@] == place_views(places@));
                return Ok(places);
            }
            return Err(Error::InvalidPcmContainer("invalid wav: chunk exceeds the file"));
        }
        let size: usize = place.size as usize;
        let padding: usize = if kind == WaveKind::Wave64 {
            (8 - size % 8) % 8
        } else {
            size % 2
        };
        let ghost next = place.start + size + padding;
        proof {
            match places_from(bytes@, next as nat, kind, long as nat) {
                Ok(rest) => {
                    assert(place_views(before) + (seq![place@] + rest) == place_views(places@)
                        + rest);
                },
                Err(_) => {},
            }
        }
        if padding > left - size {
            assert(next > length);
            proof {
                assert(places_from(bytes@, next as nat, kind, long as nat) == Ok::<
                    Seq<PlaceView>,
                    ErrorView,
                >(Seq::empty()));
                assert(place_views(places@) + Seq::<PlaceView>::empty() == place_views(places@));
            }
            return Ok(places);
        }
        position = place.start + size + padding;
    }
    assert(place_views(places@) + Seq::<PlaceView>::empty() == place_views(places@));
    Ok(places)
}

/// The first chunk with an identifier.
pub open spec fn first_place(places: Seq<PlaceView>, id: Seq<u8>) -> Option<PlaceView>
    decreases places.len(),
{
    if places.len() == 0 {
        None
    } else {
        match first_place(places.drop_last(), id) {
            Some(found) => Some(found),
            None => if places.last().id == id {
                Some(places.last())
            } else {
                None
            },
        }
    }
}

proof fn lemma_first_place_stays(places: Seq<PlaceView>, id: Seq<u8>, count: int)
    requires
        0 <= count <= places.len(),
        first_place(places.take(count), id) is Some,
    ensures
        first_place(places, id) == first_place(places.take(count), id),
    decreases places.len(),
{
    if count < places.len() {
        assert(places.drop_last().take(count) == places.take(count));
        lemma_first_place_stays(places.drop_last(), id, count);
    } else {
        assert(places.take(count) == places);
    }
}

/// The first chunk with an identifier.
pub fn find_place(places: &Vec<ChunkPlace>, id: &FourCc) -> (place: Option<ChunkPlace>)
    ensures
        match place {
            Some(found) => first_place(place_views(places@), id@) == Some(found@)
                && places@.contains(found),
            None => first_place(place_views(places@), id@) is None,
        },
{
    let ghost views = place_views(places@);
    let mut index: usize = 0;
    assert(views.take(0) == Seq::<PlaceView>::empty());
    while index < places.len()
        invariant
            index <= places@.len(),
            views == place_views(places@),
            first_place(views.take(index as int), id@) is None,
        decreases places.len() - index,
    {
        proof {
            assert(views.take(index + 1).drop_last() == views.take(index as int));
            assert(views.take(index + 1).last() == places@[index as int]@);
        }
        if is_id(places[index].id.as_slice(), id) {
            proof {
                lemma_first_place_stays(views, id@, index + 1);
                assert(places@.contains(places@[index as int]));
            }
            return Some(places[index]);
        }
        index = index + 1;
    }
    assert(views.take(index as int) == views);
    None
}

/// What a format description says of the samples, once its numbers are known.
pub open spec fn described_format(
    channels: nat,
    sample_rate: nat,
    block_align: nat,
    container: nat,
    valid: nat,
    mask: nat,
) -> std::result::Result<RawPcmDescriptor, ErrorView> {
    if !(1 <= channels <= 8) {
        unsupported_wav("unsupported wav: only 1..8 channels are supported"@)
    } else if container > 32 || valid > 32 {
        unsupported_wav("unsupported wav: only samples of up to 32 bits are supported"@)
    } else if block_align * 8 != channels * container {
        invalid_wav("invalid wav: block alignment does not match the sample frame size"@)
    } else {
        Ok(
            RawPcmDescriptor {
                sample_rate: sample_rate as u32,
                channels: channels as u8,
                valid_bits_per_sample: valid as u8,
                container_bits_per_sample: container as u8,
                byte_order: RawPcmByteOrder::LittleEndian,
                channel_mask: if mask == 0 {
                    ordinary_mask(channels as u16)
                } else {
                    Some(mask as u32)
                },
            },
        )
    }
}

/// What the payload of a `fmt ` chunk says of the samples, or why it cannot be read.
pub open spec fn format_descriptor(payload: Seq<u8>) -> std::result::Result<
    RawPcmDescriptor,
    ErrorView,
> {
    if payload.len() < 16 {
        invalid_wav("invalid wav: fmt chunk is too short"@)
    } else {
        let tag = le_at(payload, 0, 2);
        let channels = le_at(payload, 2, 2);
        let sample_rate = le_at(payload, 4, 4);
        let block_align = le_at(payload, 12, 2);
        let bits = le_at(payload, 14, 2);
        if tag == PCM_FORMAT_TAG {
            described_format(
                channels,
                sample_rate,
                block_align,
                container_bits(bits as u16) as nat,
                bits,
                0,
            )
        } else if tag != EXTENSIBLE_FORMAT_TAG {
            unsupported_wav("unsupported wav: only integer PCM is supported"@)
        } else if payload.len() < 40 {
            invalid_wav("invalid wav: fmt chunk is too short"@)
        } else if bytes_at(payload, 24, 16) != PCM_GUID@ {
            unsupported_wav("unsupported wav: only integer PCM is supported"@)
        } else {
            described_format(
                channels,
                sample_rate,
                block_align,
                bits,
                le_at(payload, 18, 2),
                le_at(payload, 20, 4),
            )
        }
    }
}

fn describe_format(
    channels: u64,
    sample_rate: u64,
    block_align: u64,
    container: u64,
    valid: u64,
    mask: u64,
) -> (descriptor: Result<RawPcmDescriptor>)
    requires
        channels < 0x1_0000,
        sample_rate < 0x1_0000_0000,
        block_align < 0x1_0000,
        container < 0x1_0000,
        valid < 0x1_0000,
        mask < 0x1_0000_0000,
    ensures
        match described_format(
            channels as nat,
            sample_rate as nat,
            block_align as nat,
            container as nat,
            valid as nat,
            mask as nat,
        ) {
            Ok(expected) => descriptor == Ok::<RawPcmDescriptor, Error>(expected),
            Err(expected) => descriptor matches Err(error) && error@ == expected,
        },
{
    if channels < 1 || channels > 8 {
        return Err(
            Error::UnsupportedPcmContainer(
                "unsupported wav: only 1..8 channels are supported".to_owned(),
            ),
        );
    }
    if container > 32 || valid > 32 {
        return Err(
            Error::UnsupportedPcmContainer(
                "unsupported wav: only samples of up to 32 bits are supported".to_owned(),
            ),
        );
    }
    assert(channels * container <= 256) by (nonlinear_arith)
        requires
            channels <= 8,
            container <= 32,
    ;
    if block_align * 8 != channels * container {
        return Err(
            Error::InvalidPcmContainer(
                "invalid wav: block alignment does not match the sample frame size",
            ),
        );
    }
    Ok(
        RawPcmDescriptor {
            sample_rate: sample_rate as u32,
            channels: channels as u8,
            valid_bits_per_sample: valid as u8,
            container_bits_per_sample: container as u8,
            byte_order: RawPcmByteOrder::LittleEndian,
            channel_mask: if mask == 0 {
                ordinary_channel_mask(channels as u16)
            } else {
                Some(mask as u32)
            },
        },
    )
}

/// What the payload of a `fmt ` chunk says of the samples.
pub fn parse_format(payload: &[u8]) -> (descriptor: Result<RawPcmDescriptor>)
    ensures
        match format_descriptor(payload@) {
            Ok(expected) => descriptor == Ok::<RawPcmDescriptor, Error>(expected),
            Err(expected) => descriptor matches Err(error) && error@ == expected,
        },
{
    if payload.len() < 16 {
        return Err(Error::InvalidPcmContainer("invalid wav: fmt chunk is too short"));
    }
    proof {
        lemma_byte_ranges();
    }
    let tag: u64 = read_le(payload, 0, 2);
    let channels: u64 = read_le(payload, 2, 2);
    let sample_rate: u64 = read_le(payload, 4, 4);
    let block_align: u64 = read_le(payload, 12, 2);
    let bits: u64 = read_le(payload, 14, 2);
    if tag == PCM_FORMAT_TAG as u64 {
        let container: u16 = container_bits_from_valid_bits(bits as u16);
        return describe_format(channels, sample_rate, block_align, container as u64, bits, 0);
    }
    if tag != EXTENSIBLE_FORMAT_TAG as u64 {
        return Err(
            Error::UnsupportedPcmContainer(
                "unsupported wav: only integer PCM is supported".to_owned(),
            ),
        );
    }
    if payload.len() < 40 {
        return Err(Error::InvalidPcmContainer("invalid wav: fmt chunk is too short"));
    }
    if !bytes_equal(slice_subrange(payload, 24, 40), PCM_GUID.as_slice()) {
        return Err(
            Error::UnsupportedPcmContainer(
                "unsupported wav: only integer PCM is supported".to_owned(),
            ),
        );
    }
    let valid: u64 = read_le(payload, 18, 2);
    let mask: u64 = read_le(payload, 20, 4);
    describe_format(channels, sample_rate, block_align, bits, valid, mask)
}

/// The length of the samples that the `ds64` chunk of an RF64 file tells, or why it cannot be
/// told. Other files tell none.
pub open spec fn long_size(bytes: Seq<u8>, position: nat, kind: WaveKind) -> std::result::Result<
    nat,
    ErrorView,
> {
    if kind != WaveKind::Rf64 {
        Ok(0)
    } else if !available(bytes, position, 48) || bytes_at(bytes, position + 12, 4) != DS64_ID@
        || le_at(bytes, position + 16, 4) < 28 {
        invalid_wav("invalid wav: RF64 file lacks its ds64 chunk"@)
    } else {
        Ok(le_at(bytes, position + 28, 8))
    }
}

/// What a file says of its samples, and its chunks.
pub struct WavLayoutView {
    pub descriptor: RawPcmDescriptor,
    pub data_offset: nat,
    pub frames: u64,
    pub places: Seq<PlaceView>,
}

/// The chunks of the file at a position, or why they cannot be told.
pub open spec fn wav_places(bytes: Seq<u8>, position: nat) -> std::result::Result<
    Seq<PlaceView>,
    ErrorView,
> {
    match wave_kind(bytes, position) {
        None => invalid_wav("invalid wav: expected a RIFF, RF64 or Wave64 header"@),
        Some(kind) => match long_size(bytes, position, kind) {
            Err(error) => Err(error),
            Ok(long) => places_from(bytes, position + preamble_size(kind), kind, long),
        },
    }
}

/// What chunks of a file say of its samples, or why they say nothing.
pub open spec fn layout_of_places(bytes: Seq<u8>, places: Seq<PlaceView>) -> std::result::Result<
    WavLayoutView,
    ErrorView,
> {
    match first_place(places, FMT_ID@) {
        None => invalid_wav("invalid wav: fmt chunk is missing"@),
        Some(format) => match format_descriptor(bytes_at(bytes, format.start, format.size)) {
            Err(error) => Err(error),
            Ok(descriptor) => match first_place(places, DATA_ID@) {
                None => invalid_wav("invalid wav: data chunk is missing"@),
                Some(data) => match frames_in_bytes(data.size as u64, descriptor) {
                    Err(error) => Err(error),
                    Ok(frames) => Ok(
                        WavLayoutView { descriptor, data_offset: data.start, frames, places },
                    ),
                },
            },
        },
    }
}

/// What the file at a position says of its samples, and its chunks, or why it cannot be read.
pub open spec fn wav_layout(bytes: Seq<u8>, position: nat) -> std::result::Result<
    WavLayoutView,
    ErrorView,
> {
    match wav_places(bytes, position) {
        Err(error) => Err(error),
        Ok(places) => layout_of_places(bytes, places),
    }
}

/// What a file says of its samples, and its chunks.
#[derive(Debug, Clone)]
pub struct WavLayout {
    pub descriptor: RawPcmDescriptor,
    pub data_offset: usize,
    pub frames: u64,
    pub places: Vec<ChunkPlace>,
}

impl View for WavLayout {
    type V = WavLayoutView;

    open spec fn view(&self) -> WavLayoutView {
        WavLayoutView {
            descriptor: self.descriptor,
            data_offset: self.data_offset as nat,
            frames: self.frames,
            places: place_views(self.places@),
        }
    }
}

/// A chunk that lies in the file, or holds the samples.
pub open spec fn place_is_held(bytes: Seq<u8>, place: PlaceView) -> bool {
    place.id == DATA_ID@ || available(bytes, place.start, place.size)
}

/// All chunks but those of the samples lie in the file.
pub proof fn lemma_places_are_held(bytes: Seq<u8>, position: nat, kind: WaveKind, long: nat)
    ensures
        places_from(bytes, position, kind, long) matches Ok(places) ==> forall|i: int|
            0 <= i < places.len() ==> place_is_held(bytes, #[trigger] places[i]),
    decreases
            if position <= bytes.len() {
                bytes.len() - position
            } else {
                0
            },
{
    if available(bytes, position, chunk_header_size(kind)) {
        let place = place_at(bytes, position, kind, long);
        if available(bytes, place.start, place.size) && (kind == WaveKind::Wave64 ==> wave64_size(
            bytes,
            position,
        ) >= 24) {
            lemma_places_are_held(
                bytes,
                place.start + place.size + chunk_padding(kind, place.size),
                kind,
                long,
            );
        }
    }
}

/// The first chunk with an identifier is one of the chunks.
pub proof fn lemma_first_is_one(places: Seq<PlaceView>, id: Seq<u8>)
    ensures
        first_place(places, id) matches Some(found) ==> found.id == id && places.contains(found),
    decreases places.len(),
{
    if places.len() > 0 {
        lemma_first_is_one(places.drop_last(), id);
        if first_place(places.drop_last(), id) is Some {
            let found = first_place(places.drop_last(), id).unwrap();
            let index = choose|i: int| 0 <= i < places.len() - 1 && places.drop_last()[i] == found;
            assert(places[index] == found);
        } else {
            assert(places[places.len() - 1] == places.last());
        }
    }
}

proof fn lemma_fmt_is_not_data()
    ensures
        FMT_ID@ != DATA_ID@,
{
    assert(FMT_ID@[0] == 0x66 && DATA_ID@[0] == 0x64);
}

/// Reads what the file at a reader's position says of its samples, and its chunks.
pub fn parse_wav_layout(reader: &ByteReader) -> (layout: Result<WavLayout>)
    ensures
        match wav_layout(reader.contents(), reader.at()) {
            Ok(expected) => layout matches Ok(found) && found@ == expected && found.data_offset
                <= reader.contents().len(),
            Err(expected) => layout matches Err(error) && error@ == expected,
        },
{
    let bytes = reader.as_slice();
    let length: usize = bytes.len();
    let place: u64 = reader.position();
    if place > length as u64 {
        return Err(
            Error::InvalidPcmContainer("invalid wav: expected a RIFF, RF64 or Wave64 header"),
        );
    }
    let position: usize = place as usize;
    let kind = match find_kind(bytes, position) {
        Some(kind) => kind,
        None => {
            return Err(
                Error::InvalidPcmContainer("invalid wav: expected a RIFF, RF64 or Wave64 header"),
            );
        },
    };
    let mut long: u64 = 0;
    if kind == WaveKind::Rf64 {
        if length - position < 48 {
            return Err(Error::InvalidPcmContainer("invalid wav: RF64 file lacks its ds64 chunk"));
        }
        let id = slice_subrange(bytes, position + 12, position + 16);
        if !is_id(id, &DS64_ID) || read_le(bytes, position + 16, 4) < 28 {
            return Err(Error::InvalidPcmContainer("invalid wav: RF64 file lacks its ds64 chunk"));
        }
        long = read_le(bytes, position + 28, 8);
    }
    let start: usize = position + if kind == WaveKind::Wave64 {
        40
    } else {
        12
    };
    let places = match read_places(bytes, start, kind, long) {
        Ok(places) => places,
        Err(error) => return Err(error),
    };
    proof {
        lemma_places_are_held(bytes@, start as nat, kind, long as nat);
        lemma_first_is_one(place_views(places@), FMT_ID@);
        lemma_fmt_is_not_data();
    }
    let format = match find_place(&places, &FMT_ID) {
        Some(format) => format,
        None => return Err(Error::InvalidPcmContainer("invalid wav: fmt chunk is missing")),
    };
    let format_size: usize = format.size as usize;
    let payload = slice_subrange(bytes, format.start, format.start + format_size);
    let descriptor = match parse_format(payload) {
        Ok(descriptor) => descriptor,
        Err(error) => return Err(error),
    };
    let data = match find_place(&places, &DATA_ID) {
        Some(data) => data,
        None => return Err(Error::InvalidPcmContainer("invalid wav: data chunk is missing")),
    };
    match total_samples_from_byte_len_with_descriptor(data.size, descriptor) {
        Ok(frames) => Ok(
            WavLayout { descriptor, data_offset: data.start, frames, places },
        ),
        Err(error) => Err(error),
    }
}

} // verus!
