//! How the chunks and blocks of files follow each other, and what each of them brings.

use vstd::prelude::*;

use crate::aiff::{after_chunk, with_chunk, AiffParts};
use crate::byte_reader::{available, be_at, bytes_at};
use crate::bytes::{le_value, lemma_be_value_bound, lemma_byte_ranges};
use crate::caf::{chunk_end, with_caf_chunk, CafParts};
use crate::cuesheet::{cue_points_of, index_one_at, track_at, track_points, CueTrack};
use crate::flac_reader::blocks_from;
use crate::metadata::{comment_mask, comment_pairs, layout_after, made_block, with_flac_block, BlockView, LayoutView, MetadataView};
use crate::names::same_name;
use crate::pcm::mask_is_supported;
use crate::riff_chunks::{cues_from, info_at, info_chunks, info_from, info_len};
use crate::seektable::{scan_number, seektable_check, SeekScan};
use crate::vorbis::{entry_parts, first_equals, vorbis_block};
use crate::wav::{chunk_header_size, first_place, le_at, long_size, place_at, places_from, PlaceView, WaveKind};

verus! {

/// The first chunk from a position on is the one whose header stands there: four letters and a
/// size of four bytes, or, in Wave64 files, sixteen bytes and a size of eight, which counts the
/// header. The samples of an RF64 file whose size cannot be told so have the size that was told
/// before.
pub proof fn law_wave_chunks_open_with_their_headers(
    bytes: Seq<u8>,
    position: nat,
    kind: WaveKind,
    long: nat,
)
    requires
        available(bytes, position, chunk_header_size(kind)),
    ensures
        places_from(bytes, position, kind, long) matches Ok(places) ==> {
            let place = places[0];
            let letters = bytes_at(bytes, position, 4);
            let told = le_at(bytes, position + 4, 4);
            let is_long = kind == WaveKind::Rf64 && told == 0xffff_ffff && letters == seq![
                'd' as u8,
                'a' as u8,
                't' as u8,
                'a' as u8,
            ];
            &&& places.len() >= 1
            &&& kind != WaveKind::Wave64 ==> {
                &&& place.id == letters
                &&& place.start == position + 8
                &&& is_long ==> place.size == long
                &&& !is_long ==> place.size == told
            }
            &&& kind == WaveKind::Wave64 ==> {
                &&& place.start == position + 24
                &&& place.size + 24 == le_at(bytes, position + 16, 8)
            }
        },
{
    assert(crate::metadata::DATA_ID@ == seq!['d' as u8, 'a' as u8, 't' as u8, 'a' as u8]);
}

/// A chunk of a wave file is followed by the next one at the next even place behind it, or, in
/// Wave64 files, at the next multiple of eight bytes from where it starts.
pub proof fn law_wave_chunks_are_padded(
    bytes: Seq<u8>,
    position: nat,
    kind: WaveKind,
    long: nat,
)
    requires
        available(bytes, position, chunk_header_size(kind)),
    ensures
        places_from(bytes, position, kind, long) matches Ok(places) ==> {
            let first = places[0];
            let length = places[1].start - chunk_header_size(kind) - first.start;
            let unit: int = if kind == WaveKind::Wave64 {
                8
            } else {
                2
            };
            places.len() > 1 ==> {
                &&& first.size <= length < first.size + unit
                &&& length % unit == 0
                &&& first.start + first.size <= bytes.len()
            }
        },
{
    if let Ok(places) = places_from(bytes, position, kind, long) {
        if places.len() > 1 {
            let place = place_at(bytes, position, kind, long);
            let next = place.start + place.size + crate::wav::chunk_padding(kind, place.size);
            let rest = places_from(bytes, next, kind, long)->Ok_0;
            assert(places == seq![place] + rest);
            assert(places[1] == rest[0]);
            assert(available(bytes, next, chunk_header_size(kind)));
            law_wave_chunks_open_with_their_headers(bytes, next, kind, long);
        }
    }
}

/// The size of the samples of an RF64 file is told by the second number of eight bytes of its
/// `ds64` chunk, which is the first one of the file.
pub proof fn law_long_sizes_are_told_first(bytes: Seq<u8>, position: nat)
    ensures
        long_size(bytes, position, WaveKind::Rf64) matches Ok(size) ==> {
            &&& bytes_at(bytes, position + 12, 4) == seq!['d' as u8, 's' as u8, '6' as u8, '4' as u8]
            &&& le_at(bytes, position + 16, 4) >= 28
            &&& size == le_at(bytes, position + 28, 8)
        },
{
    assert(crate::wav::DS64_ID@ == seq!['d' as u8, 's' as u8, '6' as u8, '4' as u8]);
}

/// The first chunk of its letters counts.
pub proof fn law_first_chunks_count(places: Seq<PlaceView>, id: Seq<u8>, index: int)
    requires
        0 <= index < places.len(),
    ensures
        first_place(places, id) matches Some(found) ==> found.id == id && places.contains(found),
        places[index].id == id && (forall|i: int|
            0 <= i < index ==> (#[trigger] places[i]).id != id) ==> first_place(places, id)
            == Some(places[index]),
    decreases places.len(),
{
    let earlier = places.drop_last();
    if earlier.len() > 0 {
        let inner = if index < earlier.len() {
            index
        } else {
            0
        };
        law_first_chunks_count(earlier, id, inner);
        if let Some(found) = first_place(earlier, id) {
            let at = earlier.index_of(found);
            assert(places[at] == found);
        }
        if index == earlier.len() && places[index].id == id && (forall|i: int|
            0 <= i < index ==> (#[trigger] places[i]).id != id) {
            lemma_no_place(earlier, id);
        }
        if index < earlier.len() && places[index].id == id && (forall|i: int|
            0 <= i < index ==> (#[trigger] places[i]).id != id) {
            assert(earlier[index] == places[index]);
            assert forall|i: int| 0 <= i < index implies (#[trigger] earlier[i]).id != id by {
                assert(places[i] == earlier[i]);
            }
        }
    }
    assert(places[places.len() - 1] == places.last());
}

proof fn lemma_no_place(places: Seq<PlaceView>, id: Seq<u8>)
    requires
        forall|i: int| 0 <= i < places.len() ==> (#[trigger] places[i]).id != id,
    ensures
        first_place(places, id) is None,
    decreases places.len(),
{
    if places.len() > 0 {
        let earlier = places.drop_last();
        assert forall|i: int| 0 <= i < earlier.len() implies (#[trigger] earlier[i]).id != id by {
            assert(places[i] == earlier[i]);
        }
        lemma_no_place(earlier, id);
        assert(places[places.len() - 1] == places.last());
    }
}

/// A chunk of an AIFF file is followed by the next one at an even distance, and one of a Core
/// Audio file right behind it.
pub proof fn law_other_chunks_follow_each_other(start: nat, size: nat)
    ensures
        after_chunk(start, size) matches Ok(next) ==> {
            &&& start + size <= next <= start + size + 1
            &&& (next - start) % 2 == 0
        },
        chunk_end(start, size) matches Ok(next) ==> next == start + size,
        start + size < u64::MAX ==> after_chunk(start, size) is Ok && chunk_end(start, size) is Ok,
{
}

/// Of an AIFF file the chunks `COMM` and `SSND` count, of a Core Audio file `data` and `chan`
/// beside the description in front; a packet table is refused, and any other chunk is passed
/// over.
pub proof fn law_other_chunks_are_told_by_their_letters(
    bytes: Seq<u8>,
    id: Seq<u8>,
    start: nat,
    size: nat,
    is_aifc: bool,
    parts: AiffParts,
    caf_parts: CafParts,
)
    requires
        4 <= size <= 0x7fff_ffff_ffff_ffff,
        available(bytes, start, size),
        bytes.len() <= u64::MAX,
    ensures
        ({
            let common = seq!['C' as u8, 'O' as u8, 'M' as u8, 'M' as u8];
            let sound = seq!['S' as u8, 'S' as u8, 'N' as u8, 'D' as u8];
            let data = seq!['d' as u8, 'a' as u8, 't' as u8, 'a' as u8];
            let layout = seq!['c' as u8, 'h' as u8, 'a' as u8, 'n' as u8];
            let table = seq!['p' as u8, 'a' as u8, 'k' as u8, 't' as u8];
            &&& id != common && id != sound ==> with_chunk(bytes, id, start, size, is_aifc, parts)
                == Ok::<AiffParts, crate::error::ErrorView>(parts)
            &&& with_chunk(bytes, id, start, size, is_aifc, parts) matches Ok(after) ==> {
                &&& id == common ==> after.common is Some && after.data_offset == parts.data_offset
                    && after.data_size == parts.data_size
                &&& id == sound ==> after.common == parts.common && after.data_offset is Some
                    && after.data_size is Some
            }
            &&& id == data ==> with_caf_chunk(bytes, id, start, size, caf_parts) == Ok::<
                CafParts,
                crate::error::ErrorView,
            >(CafParts { data: Some(((start + 4) as u64, (size - 4) as u64)), ..caf_parts })
            &&& id == layout && size >= 12 ==> {
                &&& with_caf_chunk(bytes, id, start, size, caf_parts) matches Ok(after)
                &&& after.layout is Some && after.data == caf_parts.data
            }
            &&& id == table ==> with_caf_chunk(bytes, id, start, size, caf_parts) is Err
            &&& id != data && id != layout && id != table ==> with_caf_chunk(
                bytes,
                id,
                start,
                size,
                caf_parts,
            ) == Ok::<CafParts, crate::error::ErrorView>(caf_parts)
        }),
{
    let common = seq!['C' as u8, 'O' as u8, 'M' as u8, 'M' as u8];
    let sound = seq!['S' as u8, 'S' as u8, 'N' as u8, 'D' as u8];
    let data = seq!['d' as u8, 'a' as u8, 't' as u8, 'a' as u8];
    let layout = seq!['c' as u8, 'h' as u8, 'a' as u8, 'n' as u8];
    let table = seq!['p' as u8, 'a' as u8, 'k' as u8, 't' as u8];
    assert(common == crate::aiff::COMM_CHUNK_ID@);
    assert(sound == crate::aiff::SSND_CHUNK_ID@);
    assert(data == crate::caf::DATA_CHUNK_ID@);
    assert(layout == crate::caf::CHAN_CHUNK_ID@);
    assert(table == crate::caf::PAKT_CHUNK_ID@);
    assert(common[0] != sound[0]);
    assert(data[0] != layout[0] && data[0] != table[0] && layout[0] != table[0]);
}

/// A cue point is read from the last number of its 24 bytes, which stand behind the number of
/// points, and has to be one of the samples.
pub proof fn law_cue_points_are_read_from_the_sample_offset(
    payload: Seq<u8>,
    position: nat,
    count: nat,
    index: int,
)
    requires
        0 <= index < count,
    ensures
        cues_from(payload, position, count) matches Ok(points) ==> {
            let start = (position + 24 * index) as nat;
            &&& points.len() == count
            &&& points[index] == le_value(bytes_at(payload, start + 20, 4))
            &&& bytes_at(payload, start + 8, 4) == seq!['d' as u8, 'a' as u8, 't' as u8, 'a' as u8]
            &&& position + 24 * count <= payload.len()
        },
    decreases count,
{
    assert(crate::metadata::DATA_ID@ == seq!['d' as u8, 'a' as u8, 't' as u8, 'a' as u8]);
    if cues_from(payload, position, count) is Ok {
        crate::bytes::lemma_byte_ranges();
        crate::bytes::lemma_le_value_bound(bytes_at(payload, position + 20, 4));
        if count > 1 {
            let inner = if index > 0 {
                index - 1
            } else {
                0
            };
            law_cue_points_are_read_from_the_sample_offset(
                payload,
                position + 24,
                (count - 1) as nat,
                inner,
            );
        } else {
            assert(cues_from(payload, position + 24, 0) == Ok::<
                Seq<u32>,
                crate::riff_chunks::CueFault,
            >(Seq::empty()));
        }
    }
}

/// The texts of a list follow each other at even places, each behind its letters and its size.
pub proof fn law_listed_texts_follow_each_other(payload: Seq<u8>, position: nat)
    requires
        available(payload, position, 8),
    ensures
        info_from(payload, position) matches Some(chunks) ==> {
            let size = le_value(bytes_at(payload, position + 4, 4));
            let next = position + 8 + size + size % 2;
            &&& chunks.len() >= 1
            &&& chunks[0].id == bytes_at(payload, position, 4)
            &&& chunks[0].payload == bytes_at(payload, position + 8, size)
            &&& chunks[0].payload.len() == size
            &&& info_from(payload, next) == Some(chunks.skip(1))
        },
{
    if let Some(chunks) = info_from(payload, position) {
        let size = info_len(payload, position);
        let next = position + 8 + size + size % 2;
        let rest = info_from(payload, next).unwrap();
        assert(chunks == seq![info_at(payload, position)] + rest);
        assert(chunks.skip(1) == rest);
    }
}

/// A comment is split at its first equals sign: no key holds one, and what is behind it is the
/// value.
pub proof fn law_comments_are_split_at_the_first_equals_sign(entry: Seq<char>)
    ensures
        match entry_parts(entry) {
            Some((key, value)) => {
                &&& entry == key + seq!['='] + value
                &&& !key.contains('=')
            },
            None => !entry.contains('='),
        },
{
    lemma_first_equals(entry);
    if let Some(place) = first_equals(entry) {
        assert(entry == entry.take(place) + seq!['='] + entry.skip(place + 1));
    }
}

proof fn lemma_first_equals(text: Seq<char>)
    ensures
        match first_equals(text) {
            Some(place) => {
                &&& 0 <= place < text.len()
                &&& text[place] == '='
                &&& !text.take(place).contains('=')
            },
            None => !text.contains('='),
        },
    decreases text.len(),
{
    if text.len() > 0 && text[0] != '=' {
        let rest = text.skip(1);
        lemma_first_equals(rest);
        match first_equals(rest) {
            Some(place) => {
                let front = text.take(place + 1);
                assert forall|i: int| 0 <= i < front.len() implies front[i] != '=' by {
                    if i > 0 {
                        assert(rest.take(place)[i - 1] == front[i]);
                    }
                }
            },
            None => {
                assert forall|i: int| 0 <= i < text.len() implies text[i] != '=' by {
                    if i > 0 {
                        assert(rest[i - 1] == text[i]);
                    }
                }
            },
        }
    }
}

/// Every block of a stream is kept as it is. Comments come from blocks of type 4 and bring the
/// speaker positions, and cue points come from blocks of type 5.
pub proof fn law_blocks_are_kept_as_they_are(
    metadata: MetadataView,
    block_type: u8,
    payload: Seq<u8>,
    total_samples: u64,
    channels: u8,
)
    ensures
        with_flac_block(metadata, block_type, payload, total_samples, channels) matches Ok(after)
            ==> {
            &&& after.preserved == metadata.preserved.push(BlockView { block_type, payload })
            &&& block_type != 4 ==> after.comments == metadata.comments && after.channel_mask
                == metadata.channel_mask && after.provenance == metadata.provenance
            &&& block_type == 4 && vorbis_block(payload) is Some ==> after.comments == vorbis_block(
                payload,
            )
            &&& block_type != 5 ==> after.cue_points == metadata.cue_points
            &&& block_type == 5 ==> after.cue_points == cue_points_of(payload, total_samples)
        },
        with_flac_block(metadata, block_type, payload, total_samples, channels) is Err
            ==> block_type == 4,
{
}

/// The positions that a comment gives are known ones, and as many as there are channels, or
/// none. A comment of another key leaves the positions as they are.
pub proof fn law_positions_of_comments_are_known(
    value: Seq<char>,
    channels: u8,
    layout: LayoutView,
    entry: Seq<char>,
)
    ensures
        comment_mask(value, channels) matches Ok(mask) ==> mask == 0 || mask_is_supported(
            channels as u16,
            mask,
        ),
        layout_after(layout, entry, channels) matches Ok(after) ==> {
            &&& after.channel_mask != layout.channel_mask ==> {
                &&& after.channel_mask matches Some(mask)
                &&& mask == 0 || mask_is_supported(channels as u16, mask)
            }
            &&& layout.provenance ==> after.provenance
            &&& entry_parts(entry) is None ==> after == layout
        },
{
}

/// Blocks of a stream follow each other, each behind a byte for its type, whose highest bit is
/// set for the last one, and a size of three bytes. A second description of the stream and the
/// type 127 are refused, and so are seek tables that are out of order where one is strict.
pub proof fn law_blocks_follow_each_other(
    bytes: Seq<u8>,
    position: nat,
    total_samples: u64,
    strict: bool,
    metadata: MetadataView,
    channels: u8,
)
    ensures
        blocks_from(bytes, position, total_samples, strict, metadata, channels) matches Ok(
            (found, end),
        ) ==> {
            let opening = bytes[position as int];
            let size = be_at(bytes, position + 1, 3);
            let payload = bytes_at(bytes, position + 4, size);
            let next = position + 4 + size;
            &&& next <= bytes.len()
            &&& opening % 128 != 0 && opening % 128 != 127
            &&& strict && opening % 128 == 3 ==> seektable_check(payload) is Ok
            &&& with_flac_block(
                metadata,
                (opening % 128) as u8,
                payload,
                total_samples,
                channels,
            ) matches Ok(after)
            &&& opening >= 128 ==> found == after && end == next
            &&& opening < 128 ==> blocks_from(
                bytes,
                next,
                total_samples,
                strict,
                after,
                channels,
            ) == Ok::<(MetadataView, nat), crate::error::ErrorView>((found, end))
        },
{
}

/// A track of a cue sheet says its offset in eight bytes, its number, of which 170 ends the
/// sheet, and how many indices of twelve bytes follow. Of these the first one with the number 1
/// counts.
pub proof fn law_tracks_of_cue_sheets_say_their_offsets(
    payload: Seq<u8>,
    position: nat,
    index: int,
)
    ensures
        track_at(payload, position) matches Some((track, end)) ==> {
            let count = payload[position as int + 35] as int;
            let start = (position + 36 + 12 * index) as nat;
            let is_first = payload[start as int + 8] == 1 && forall|i: int|
                0 <= i < index ==> payload[#[trigger] index_number(position, i)] != 1;
            &&& track.offset == be_at(payload, position, 8)
            &&& track.is_lead_out <==> payload[position as int + 8] == 170
            &&& end == position + 36 + 12 * count && end <= payload.len()
            &&& 0 <= index < count && is_first ==> track.index_one == Some(
                be_at(payload, start, 8) as u64,
            )
            &&& (forall|i: int|
                0 <= i < count ==> payload[#[trigger] index_number(position, i)] != 1)
                ==> track.index_one is None
        },
{
    if track_at(payload, position) is Some {
        let count = payload[position as int + 35] as nat;
        lemma_byte_ranges();
        lemma_be_value_bound(bytes_at(payload, position, 8));
        if 0 <= index < count {
            let start = (position + 36 + 12 * index) as nat;
            assert(index_number(position, index) == start as int + 8);
            if payload[start as int + 8] == 1 && forall|i: int|
                0 <= i < index ==> payload[#[trigger] index_number(position, i)] != 1 {
                lemma_first_index(payload, position, count, index);
            }
        }
        if forall|i: int| 0 <= i < count ==> payload[#[trigger] index_number(position, i)] != 1 {
            lemma_no_index(payload, position, count);
        }
    }
}

/// The place of the number of an index.
pub open spec fn index_number(position: nat, index: int) -> int {
    position + 36 + 12 * index + 8
}

proof fn lemma_no_index(payload: Seq<u8>, position: nat, count: nat)
    requires
        forall|i: int| 0 <= i < count ==> payload[#[trigger] index_number(position, i)] != 1,
    ensures
        index_one_at(payload, position + 36, count) is None,
    decreases count,
{
    if count > 0 {
        lemma_no_index(payload, position, (count - 1) as nat);
        assert(payload[index_number(position, count - 1)] != 1);
    }
}

proof fn lemma_first_index(payload: Seq<u8>, position: nat, count: nat, index: int)
    requires
        0 <= index < count,
        payload[index_number(position, index)] == 1,
        forall|i: int| 0 <= i < index ==> payload[#[trigger] index_number(position, i)] != 1,
    ensures
        index_one_at(payload, position + 36, count) == Some(
            be_at(payload, (position + 36 + 12 * index) as nat, 8) as u64,
        ),
    decreases count,
{
    if index < count - 1 {
        lemma_first_index(payload, position, (count - 1) as nat, index);
    } else {
        lemma_no_index(payload, position, (count - 1) as nat);
    }
}

/// A track that does not end the sheet gives a cue point: its offset, and that of its index
/// behind it. Points that 32 bits cannot hold are left out.
pub proof fn law_tracks_give_cue_points(tracks: Seq<CueTrack>, track: CueTrack)
    ensures
        ({
            let point = track.offset + match track.index_one {
                Some(offset) => offset as int,
                None => 0,
            };
            let before = track_points(tracks);
            let after = track_points(tracks.push(track));
            &&& track_points(Seq::empty()) == Seq::<u64>::empty()
            &&& !track.is_lead_out && point < 0x1_0000_0000 ==> after == before.push(point as u64)
            &&& track.is_lead_out || point >= 0x1_0000_0000 ==> after == before
        }),
{
    assert(tracks.push(track).drop_last() == tracks);
}

/// The comments of a block are its entries that have a key and a value, but for those that
/// describe the speaker positions, in their order.
pub proof fn law_comments_are_listed_in_order(entries: Seq<Seq<char>>, entry: Seq<char>)
    ensures
        ({
            let before = comment_pairs(entries);
            let after = comment_pairs(entries.push(entry));
            &&& comment_pairs(Seq::empty()).len() == 0
            &&& match entry_parts(entry) {
                None => after == before,
                Some((key, value)) => {
                    let is_position = same_name(key, "WAVEFORMATEXTENSIBLE_CHANNEL_MASK"@)
                        || same_name(key, "FLACX_CHANNEL_LAYOUT_PROVENANCE"@);
                    &&& is_position ==> after == before
                    &&& !is_position ==> after == before.push((key, value))
                },
            }
            &&& made_block(entries) is None <==> entries.len() == 0
            &&& made_block(entries) matches Some(block) ==> block.entries == entries
                && block.vendor == "flacx 0.9.0"@
        }),
{
    assert(entries.push(entry).drop_last() == entries);
}

/// A list of texts opens with `INFO`, and the texts follow.
pub proof fn law_lists_of_texts_open_with_letters(payload: Seq<u8>)
    ensures
        info_chunks(payload) is Some ==> bytes_at(payload, 0, 4) == seq![
            'I' as u8,
            'N' as u8,
            'F' as u8,
            'O' as u8,
        ],
        payload.len() >= 4 && bytes_at(payload, 0, 4) == seq![
            'I' as u8,
            'N' as u8,
            'F' as u8,
            'O' as u8,
        ] ==> info_chunks(payload) == info_from(payload, 4),
{
    assert(crate::metadata::INFO_LIST_TYPE@ == seq!['I' as u8, 'N' as u8, 'F' as u8, 'O' as u8]);
}

/// A track of a cue sheet can be read exactly if its 36 bytes and all its indices are there.
pub proof fn law_whole_tracks_are_read(payload: Seq<u8>, position: nat)
    ensures
        track_at(payload, position) is Some <==> position + 36 <= payload.len() && position + 36
            + 12 * payload[position as int + 35] <= payload.len(),
{
}

/// The numbers of seek points ascend: the same one again is told apart from a smaller one, and
/// nothing but placeholders follows a placeholder.
pub proof fn law_seek_points_ascend(previous: u64, number: u64)
    requires
        previous < u64::MAX,
        number < u64::MAX,
    ensures
        ({
            let scan = SeekScan { previous: Some(previous), saw_placeholder: false };
            let behind = SeekScan { previous: Some(previous), saw_placeholder: true };
            &&& number > previous ==> scan_number(scan, number) == Ok::<
                SeekScan,
                crate::error::ErrorView,
            >(SeekScan { previous: Some(number), saw_placeholder: false })
            &&& number < previous ==> scan_number(scan, number) == Err::<
                SeekScan,
                crate::error::ErrorView,
            >(
                crate::error::ErrorView::InvalidFlac(
                    "seektable sample numbers must be in ascending order"@,
                ),
            )
            &&& number == previous ==> scan_number(scan, number) == Err::<
                SeekScan,
                crate::error::ErrorView,
            >(crate::error::ErrorView::InvalidFlac("seektable sample numbers must be unique"@))
            &&& scan_number(behind, number) is Err
            &&& scan_number(scan, u64::MAX) == Ok::<SeekScan, crate::error::ErrorView>(behind)
        }),
{
}

} // verus!
