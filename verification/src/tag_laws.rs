//! How tags, cue points and kept blocks are laid out in each format.

use vstd::prelude::*;
use vstd::string::*;
use vstd::utf8::encode_utf8;

use crate::aiff_output::{marks_of, metadata_marks, pascal, text_chunk_id};
use crate::aiff_round_trip::lemma_be_bytes_len;
use crate::byte_reader::{be_at, bytes_at};
use crate::bytes::{be_bytes, law_be_bytes_read_back, law_le_bytes_read_back, le_bytes, lemma_byte_ranges};
use crate::caf_output::{info_key, is_year, marker_bytes, marker_payload, markers_of};
use crate::cuesheet::{cuesheet_for, cuesheet_payload, lead_out_bytes, normalized_points, track_bytes, tracks_bytes, zeros};
use crate::draft::{info_kind_id, info_kind_key};
use crate::error::ErrorView;
use crate::float::double_of;
use crate::fxmd::{fxmd_block, fxmd_head};
use crate::metadata::{comments_with_layout, cue_entries, cue_entry, cue_payload, flac_block_views, info_chunk_id, is_layout_key, riff_chunk, wide_points, BlockView, MetadataView};
use crate::names::{lower, lower_char, same_name};
use crate::riff_chunks::law_cue_chunk_reads_back;
use crate::seektable::{point_bytes, points_bytes, SeekPoint};
use crate::vorbis::{counted_text, vorbis_payload};
use crate::wav::le_at;

verus! {

/// The bytes of an ASCII text.
pub open spec fn letters(text: Seq<char>) -> Seq<u8> {
    Seq::new(text.len(), |i: int| text[i] as u8)
}

/// The INFO chunks of wave files and the comment keys that they stand for.
pub open spec fn published_tags() -> Seq<(Seq<char>, Seq<char>)> {
    seq![
        ("IART"@, "ARTIST"@),
        ("ICMT"@, "COMMENT"@),
        ("ICOP"@, "COPYRIGHT"@),
        ("ICRD"@, "DATE"@),
        ("IGNR"@, "GENRE"@),
        ("INAM"@, "TITLE"@),
        ("IPRD"@, "ALBUM"@),
        ("ISFT"@, "ENCODER"@),
        ("ITRK"@, "TRACKNUMBER"@),
    ]
}

/// Texts that are the same up to case are as long and start the same.
proof fn lemma_same_start(left: Seq<char>, right: Seq<char>)
    requires
        same_name(left, right),
    ensures
        left.len() == right.len(),
        left.len() > 0 ==> lower_char(left[0]) == lower_char(right[0]),
{
    assert(lower(left).len() == lower(right).len());
    if left.len() > 0 {
        assert(lower(left)[0] == lower_char(left[0]));
        assert(lower(right)[0] == lower_char(right[0]));
    }
}

proof fn lemma_tag_names()
    ensures
        "ARTIST"@.len() == 6 && "ARTIST"@[0] == 'A',
        "COMMENT"@.len() == 7 && "COMMENT"@[0] == 'C',
        "COPYRIGHT"@.len() == 9,
        "DATE"@.len() == 4,
        "GENRE"@.len() == 5 && "GENRE"@[0] == 'G',
        "TITLE"@.len() == 5 && "TITLE"@[0] == 'T',
        "ALBUM"@.len() == 5 && "ALBUM"@[0] == 'A',
        "ENCODER"@.len() == 7 && "ENCODER"@[0] == 'E',
        "TRACKNUMBER"@.len() == 11,
{
    reveal_strlit("ARTIST");
    reveal_strlit("COMMENT");
    reveal_strlit("COPYRIGHT");
    reveal_strlit("DATE");
    reveal_strlit("GENRE");
    reveal_strlit("TITLE");
    reveal_strlit("ALBUM");
    reveal_strlit("ENCODER");
    reveal_strlit("TRACKNUMBER");
}

proof fn lemma_tag_ids()
    ensures
        letters("IART"@) == crate::metadata::IART@,
        letters("ICMT"@) == crate::metadata::ICMT@,
        letters("ICOP"@) == crate::metadata::ICOP@,
        letters("ICRD"@) == crate::metadata::ICRD@,
        letters("IGNR"@) == crate::metadata::IGNR@,
        letters("INAM"@) == crate::metadata::INAM@,
        letters("IPRD"@) == crate::metadata::IPRD@,
        letters("ISFT"@) == crate::metadata::ISFT@,
        letters("ITRK"@) == crate::metadata::ITRK@,
{
    reveal_strlit("IART");
    reveal_strlit("ICMT");
    reveal_strlit("ICOP");
    reveal_strlit("ICRD");
    reveal_strlit("IGNR");
    reveal_strlit("INAM");
    reveal_strlit("IPRD");
    reveal_strlit("ISFT");
    reveal_strlit("ITRK");
    assert(letters("IART"@) == crate::metadata::IART@);
    assert(letters("ICMT"@) == crate::metadata::ICMT@);
    assert(letters("ICOP"@) == crate::metadata::ICOP@);
    assert(letters("ICRD"@) == crate::metadata::ICRD@);
    assert(letters("IGNR"@) == crate::metadata::IGNR@);
    assert(letters("INAM"@) == crate::metadata::INAM@);
    assert(letters("IPRD"@) == crate::metadata::IPRD@);
    assert(letters("ISFT"@) == crate::metadata::ISFT@);
    assert(letters("ITRK"@) == crate::metadata::ITRK@);
}

/// A comment is written to the INFO chunk of its published tag, in any case of its key, and an
/// INFO chunk is read as the comment of its tag, one tag after the other; other comments have
/// no chunk.
pub proof fn law_tags_are_those_of_the_wave_format(key: Seq<char>, tag: int)
    requires
        0 <= tag < 9,
    ensures
        same_name(key, published_tags()[tag].1) ==> info_chunk_id(key) == Some(
            letters(published_tags()[tag].0),
        ),
        info_kind_id(tag) == letters(published_tags()[tag].0),
        info_kind_key(tag) == published_tags()[tag].1,
        info_chunk_id(key) is None <==> forall|i: int|
            0 <= i < 9 ==> !same_name(key, (#[trigger] published_tags()[i]).1),
{
    let tags = published_tags();
    lemma_tag_names();
    lemma_tag_ids();
    assert(tags[0] == ("IART"@, "ARTIST"@) && tags[1] == ("ICMT"@, "COMMENT"@));
    assert(tags[2] == ("ICOP"@, "COPYRIGHT"@) && tags[3] == ("ICRD"@, "DATE"@));
    assert(tags[4] == ("IGNR"@, "GENRE"@) && tags[5] == ("INAM"@, "TITLE"@));
    assert(tags[6] == ("IPRD"@, "ALBUM"@) && tags[7] == ("ISFT"@, "ENCODER"@));
    assert(tags[8] == ("ITRK"@, "TRACKNUMBER"@));
    if same_name(key, "ARTIST"@) {
        lemma_same_start(key, "ARTIST"@);
    }
    if same_name(key, "COMMENT"@) {
        lemma_same_start(key, "COMMENT"@);
    }
    if same_name(key, "COPYRIGHT"@) {
        lemma_same_start(key, "COPYRIGHT"@);
    }
    if same_name(key, "DATE"@) {
        lemma_same_start(key, "DATE"@);
    }
    if same_name(key, "GENRE"@) {
        lemma_same_start(key, "GENRE"@);
    }
    if same_name(key, "TITLE"@) {
        lemma_same_start(key, "TITLE"@);
    }
    if same_name(key, "ALBUM"@) {
        lemma_same_start(key, "ALBUM"@);
    }
    if same_name(key, "ENCODER"@) {
        lemma_same_start(key, "ENCODER"@);
    }
    if same_name(key, "TRACKNUMBER"@) {
        lemma_same_start(key, "TRACKNUMBER"@);
    }
}

/// The keys of a Core Audio file for the published tags, in their order. A date has another key
/// where it is nothing but a year.
pub open spec fn core_audio_keys() -> Seq<Seq<char>> {
    seq![
        "artist"@,
        "comments"@,
        "copyright"@,
        "recorded date"@,
        "genre"@,
        "title"@,
        "album"@,
        "encoding application"@,
        "track number"@,
    ]
}

/// A text is kept in a Core Audio file under the key of its tag.
pub proof fn law_tags_are_kept_in_core_audio_files(tag: int, value: Seq<char>)
    requires
        0 <= tag < 9,
    ensures
        info_key(letters(published_tags()[tag].0), value) == Some(
            if tag == 3 && is_year(value) {
                "year"@
            } else {
                core_audio_keys()[tag]
            },
        ),
{
    let tags = published_tags();
    let keys = core_audio_keys();
    lemma_tag_ids();
    lemma_ids_differ();
    assert(tags[0].0 == "IART"@ && tags[1].0 == "ICMT"@ && tags[2].0 == "ICOP"@);
    assert(tags[3].0 == "ICRD"@ && tags[4].0 == "IGNR"@ && tags[5].0 == "INAM"@);
    assert(tags[6].0 == "IPRD"@ && tags[7].0 == "ISFT"@ && tags[8].0 == "ITRK"@);
    assert(keys[0] == "artist"@ && keys[1] == "comments"@ && keys[2] == "copyright"@);
    assert(keys[3] == "recorded date"@ && keys[4] == "genre"@ && keys[5] == "title"@);
    assert(keys[6] == "album"@ && keys[7] == "encoding application"@ && keys[8] == "track number"@);
}

proof fn lemma_ids_differ()
    ensures
        forall|i: int, j: int|
            0 <= i < j < 9 ==> #[trigger] info_kind_id(i) != #[trigger] info_kind_id(j),
{
    assert forall|i: int, j: int| 0 <= i < j < 9 implies #[trigger] info_kind_id(i)
        != #[trigger] info_kind_id(j) by {
        let first = info_kind_id(i);
        let second = info_kind_id(j);
        assert(first[1] != second[1] || first[2] != second[2] || first[3] != second[3]);
    }
    assert(info_kind_id(0) == crate::metadata::IART@ && info_kind_id(1) == crate::metadata::ICMT@);
    assert(info_kind_id(2) == crate::metadata::ICOP@ && info_kind_id(3) == crate::metadata::ICRD@);
    assert(info_kind_id(4) == crate::metadata::IGNR@ && info_kind_id(5) == crate::metadata::INAM@);
    assert(info_kind_id(6) == crate::metadata::IPRD@ && info_kind_id(7) == crate::metadata::ISFT@);
    assert(info_kind_id(8) == crate::metadata::ITRK@);
}

/// An AIFF file keeps titles as its name, artists as its author, copyrights and comments, and
/// no other tag.
pub proof fn law_tags_are_kept_in_aiff_files(tag: int)
    requires
        0 <= tag < 9,
    ensures
        text_chunk_id(letters(published_tags()[tag].0)) == if tag == 5 {
            Some(letters("NAME"@))
        } else if tag == 0 {
            Some(letters("AUTH"@))
        } else if tag == 2 {
            Some(letters("(c) "@))
        } else if tag == 1 {
            Some(letters("ANNO"@))
        } else {
            None
        },
{
    let tags = published_tags();
    lemma_tag_ids();
    lemma_ids_differ();
    reveal_strlit("NAME");
    reveal_strlit("AUTH");
    reveal_strlit("(c) ");
    reveal_strlit("ANNO");
    assert(letters("NAME"@) == crate::aiff_output::AIFF_NAME_CHUNK_ID@);
    assert(letters("AUTH"@) == crate::aiff_output::AIFF_AUTH_CHUNK_ID@);
    assert(letters("(c) "@) == crate::aiff_output::AIFF_COPYRIGHT_CHUNK_ID@);
    assert(letters("ANNO"@) == crate::aiff_output::AIFF_ANNOTATION_CHUNK_ID@);
    assert(tags[0].0 == "IART"@ && tags[1].0 == "ICMT"@ && tags[2].0 == "ICOP"@);
    assert(tags[3].0 == "ICRD"@ && tags[4].0 == "IGNR"@ && tags[5].0 == "INAM"@);
    assert(tags[6].0 == "IPRD"@ && tags[7].0 == "ISFT"@ && tags[8].0 == "ITRK"@);
    assert(info_kind_id(0) == crate::metadata::IART@ && info_kind_id(1) == crate::metadata::ICMT@);
    assert(info_kind_id(2) == crate::metadata::ICOP@ && info_kind_id(3) == crate::metadata::ICRD@);
    assert(info_kind_id(4) == crate::metadata::IGNR@ && info_kind_id(5) == crate::metadata::INAM@);
    assert(info_kind_id(6) == crate::metadata::IPRD@ && info_kind_id(7) == crate::metadata::ISFT@);
    assert(info_kind_id(8) == crate::metadata::ITRK@);
}

/// The comments that describe the speaker positions are those with these two keys.
pub proof fn law_positions_are_described_by_two_comments(key: Seq<char>)
    ensures
        is_layout_key(key) <==> same_name(key, "WAVEFORMATEXTENSIBLE_CHANNEL_MASK"@) || same_name(
            key,
            "FLACX_CHANNEL_LAYOUT_PROVENANCE"@,
        ),
{
}

/// A stream carries the blocks that were kept as they were read, or a comment block where there
/// are comments or speaker positions to tell, of type 4, and behind it a cue sheet where there
/// are cue points in the stream, of type 5.
pub proof fn law_streams_carry_comments_before_cue_points(
    metadata: MetadataView,
    total_samples: u64,
)
    ensures
        ({
            let blocks = flac_block_views(metadata, total_samples);
            let sheet = cuesheet_for(wide_points(metadata.cue_points), total_samples);
            let tells = metadata.comments is Some || metadata.channel_mask is Some
                || metadata.provenance;
            &&& metadata.preserved.len() > 0 ==> blocks == metadata.preserved
            &&& metadata.preserved.len() == 0 ==> {
                &&& blocks.len() == (if tells {
                    1int
                } else {
                    0
                }) + (if sheet is Some {
                    1int
                } else {
                    0
                })
                &&& tells ==> blocks[0].block_type == 4 && comments_with_layout(metadata) is Some
                    && blocks[0].payload == vorbis_payload(comments_with_layout(metadata)->Some_0)
                &&& sheet matches Some(payload) ==> blocks.last() == (BlockView {
                    block_type: 5,
                    payload,
                })
            }
        }),
{
}

proof fn lemma_le_len(value: nat, count: nat)
    ensures
        le_bytes(value, count).len() == count,
    decreases count,
{
    if count > 0 {
        lemma_le_len(value / 256, (count - 1) as nat);
    }
}

/// A text of a comment block stands behind the number of its bytes in four, the least
/// significant one first.
pub proof fn law_comment_texts_are_counted(text: Seq<char>)
    requires
        encode_utf8(text).len() < 0x1_0000_0000,
    ensures
        ({
            let bytes = counted_text(text);
            let size = encode_utf8(text).len();
            &&& bytes.len() == 4 + size
            &&& le_at(bytes, 0, 4) == size
            &&& bytes.skip(4) == encode_utf8(text)
        }),
{
    lemma_byte_ranges();
    let size = encode_utf8(text).len();
    law_le_bytes_read_back(size, 4);
    let bytes = counted_text(text);
    assert(bytes_at(bytes, 0, 4) == le_bytes(size, 4));
    assert(bytes.skip(4) == encode_utf8(text));
}

/// A chunk of an INFO list is its name, the number of its bytes in four, the least significant
/// one first, the bytes, and a zero byte behind an odd number of them.
pub proof fn law_info_chunks_are_counted_and_padded(id: Seq<u8>, payload: Seq<u8>)
    requires
        id.len() == 4,
        payload.len() < 0x1_0000_0000,
    ensures
        ({
            let chunk = riff_chunk(id, payload);
            &&& chunk.len() == 8 + payload.len() + payload.len() % 2
            &&& chunk.take(4) == id
            &&& le_at(chunk, 4, 4) == payload.len()
            &&& chunk.subrange(8, (8 + payload.len()) as int) == payload
        }),
{
    lemma_byte_ranges();
    law_le_bytes_read_back(payload.len(), 4);
    let chunk = riff_chunk(id, payload);
    assert(chunk.take(4) == id);
    assert(bytes_at(chunk, 4, 4) == le_bytes(payload.len(), 4));
    assert(chunk.subrange(8, (8 + payload.len()) as int) == payload);
}

/// The kept blocks of a wave file stand behind `fxmd`, the version 1, the flags 1 and their
/// number, each as its type, the number of its bytes and the bytes, all numbers with the least
/// significant byte first.
pub proof fn law_kept_blocks_are_counted(count: nat, block: BlockView)
    requires
        count < 0x1_0000_0000,
        block.payload.len() < 0x1_0000_0000,
    ensures
        ({
            let head = fxmd_head(count);
            let bytes = fxmd_block(block);
            &&& head.len() == 12
            &&& head.take(4) == letters("fxmd"@)
            &&& le_at(head, 4, 2) == 1
            &&& le_at(head, 6, 2) == 1
            &&& le_at(head, 8, 4) == count
            &&& bytes.len() == 5 + block.payload.len()
            &&& bytes[0] == block.block_type
            &&& le_at(bytes, 1, 4) == block.payload.len()
            &&& bytes.skip(5) == block.payload
        }),
{
    lemma_byte_ranges();
    reveal_strlit("fxmd");
    law_le_bytes_read_back(1, 2);
    law_le_bytes_read_back(count, 4);
    law_le_bytes_read_back(block.payload.len(), 4);
    let head = fxmd_head(count);
    let bytes = fxmd_block(block);
    assert(head.take(4) == letters("fxmd"@));
    assert(bytes_at(head, 4, 2) == le_bytes(1, 2));
    assert(bytes_at(head, 6, 2) == le_bytes(1, 2));
    assert(bytes_at(head, 8, 4) == le_bytes(count, 4));
    assert(bytes_at(bytes, 1, 4) == le_bytes(block.payload.len(), 4));
    assert(bytes.skip(5) == block.payload);
}

/// A seek point takes 18 bytes: the number of its first sample and the place of its frame in
/// eight each, and the samples of the frame in two, all with the most significant byte first.
pub proof fn law_seek_points_have_the_published_layout(points: Seq<SeekPoint>, index: int)
    requires
        0 <= index < points.len(),
    ensures
        ({
            let bytes = points_bytes(points);
            let start = (18 * index) as nat;
            &&& bytes.len() == 18 * points.len()
            &&& be_at(bytes, start, 8) == points[index].sample_number
            &&& be_at(bytes, start + 8, 8) == points[index].frame_offset
            &&& be_at(bytes, start + 16, 2) == points[index].sample_count
        }),
    decreases points.len(),
{
    let bytes = points_bytes(points);
    let earlier = points.drop_last();
    let last = points.last();
    lemma_byte_ranges();
    law_be_bytes_read_back(last.sample_number as nat, 8);
    law_be_bytes_read_back(last.frame_offset as nat, 8);
    law_be_bytes_read_back(last.sample_count as nat, 2);
    crate::seektable::law_sample_numbers_read_back(earlier);
    let front = points_bytes(earlier);
    let start = (18 * index) as nat;
    assert(bytes == front + point_bytes(last));
    if index < points.len() - 1 {
        law_seek_points_have_the_published_layout(earlier, index);
        assert(bytes_at(bytes, start, 8) == bytes_at(front, start, 8));
        assert(bytes_at(bytes, start + 8, 8) == bytes_at(front, start + 8, 8));
        assert(bytes_at(bytes, start + 16, 2) == bytes_at(front, start + 16, 2));
    } else {
        assert(bytes_at(bytes, start, 8) == be_bytes(last.sample_number as nat, 8));
        assert(bytes_at(bytes, start + 8, 8) == be_bytes(last.frame_offset as nat, 8));
        assert(bytes_at(bytes, start + 16, 2) == be_bytes(last.sample_count as nat, 2));
    }
}

/// The tracks of a cue sheet take 48 bytes each: the place of the track, its number, and one
/// index point at its start with the number 1.
proof fn lemma_tracks(points: Seq<u64>, index: int)
    requires
        0 <= index < points.len(),
        points.len() <= 99,
    ensures
        ({
            let bytes = tracks_bytes(points);
            let start = (48 * index) as nat;
            &&& bytes.len() == 48 * points.len()
            &&& be_at(bytes, start, 8) == points[index]
            &&& bytes[48 * index + 8] == index + 1
            &&& bytes[48 * index + 35] == 1
            &&& be_at(bytes, start + 36, 8) == 0
            &&& bytes[48 * index + 44] == 1
        }),
    decreases points.len(),
{
    let bytes = tracks_bytes(points);
    let earlier = points.drop_last();
    let last = points.last();
    let front = tracks_bytes(earlier);
    let track = track_bytes(last, points.len());
    let start = (48 * index) as nat;
    lemma_byte_ranges();
    law_be_bytes_read_back(last as nat, 8);
    law_be_bytes_read_back(0, 8);
    assert(track.len() == 48);
    assert(bytes_at(track, 0, 8) == be_bytes(last as nat, 8));
    assert(bytes_at(track, 36, 8) == be_bytes(0, 8));
    if earlier.len() > 0 {
        lemma_tracks(earlier, if index < earlier.len() {
            index
        } else {
            0
        });
    }
    assert(bytes == front + track);
    if index < points.len() - 1 {
        assert(bytes_at(bytes, start, 8) == bytes_at(front, start, 8));
        assert(bytes_at(bytes, start + 36, 8) == bytes_at(front, start + 36, 8));
        assert(bytes[48 * index + 8] == front[48 * index + 8]);
        assert(bytes[48 * index + 35] == front[48 * index + 35]);
        assert(bytes[48 * index + 44] == front[48 * index + 44]);
    } else {
        assert(bytes_at(bytes, start, 8) == bytes_at(track, 0, 8));
        assert(bytes_at(bytes, start + 36, 8) == bytes_at(track, 36, 8));
        assert(bytes[48 * index + 8] == track[8]);
        assert(bytes[48 * index + 35] == track[35]);
        assert(bytes[48 * index + 44] == track[44]);
    }
}

/// A cue sheet has a track for each cue point, in their order and numbered from one, and a
/// last one with the number 170 at the end of the stream; the number of tracks stands in front
/// of them, behind 395 bytes that say nothing.
pub proof fn law_cue_sheets_have_the_published_layout(
    points: Seq<u64>,
    lead_out: u64,
    index: int,
)
    requires
        0 <= index < points.len() <= 99,
    ensures
        ({
            let sheet = cuesheet_payload(points, lead_out);
            let start = (396 + 48 * index) as nat;
            let end = 396 + 48 * points.len();
            &&& sheet.len() == end + 36
            &&& forall|i: int| 0 <= i < 395 ==> #[trigger] sheet[i] == 0
            &&& sheet[395] == points.len() + 1
            &&& be_at(sheet, start, 8) == points[index]
            &&& sheet[396 + 48 * index + 8] == index + 1
            &&& sheet[396 + 48 * index + 35] == 1
            &&& be_at(sheet, start + 36, 8) == 0
            &&& sheet[396 + 48 * index + 44] == 1
            &&& be_at(sheet, end, 8) == lead_out
            &&& sheet[(end + 8) as int] == 170
            &&& sheet[(end + 35) as int] == 0
        }),
{
    let sheet = cuesheet_payload(points, lead_out);
    let tracks = tracks_bytes(points);
    let ending = lead_out_bytes(lead_out);
    let start = (396 + 48 * index) as nat;
    let end = 396 + 48 * points.len();
    lemma_byte_ranges();
    law_be_bytes_read_back(lead_out as nat, 8);
    lemma_tracks(points, index);
    lemma_be_bytes_len(0, 8);
    assert(be_bytes(0, 8) == zeros(8)) by {
        reveal_with_fuel(be_bytes, 9);
    }
    let front = zeros(128) + be_bytes(0, 8) + seq![0u8] + zeros(258) + seq![
        (points.len() + 1) as u8,
    ];
    assert(front.len() == 396);
    assert(sheet == front + tracks + ending);
    assert(ending.len() == 36);
    assert(forall|i: int| 0 <= i < 395 ==> #[trigger] front[i] == 0);
    assert forall|i: int| 0 <= i < 395 implies #[trigger] sheet[i] == 0 by {
        assert(sheet[i] == front[i]);
    }
    assert(bytes_at(ending, 0, 8) == be_bytes(lead_out as nat, 8));
    assert(bytes_at(sheet, end, 8) == bytes_at(ending, 0, 8));
    assert(bytes_at(sheet, start, 8) == bytes_at(tracks, (48 * index) as nat, 8));
    assert(bytes_at(sheet, start + 36, 8) == bytes_at(tracks, (48 * index + 36) as nat, 8));
    assert(sheet[396 + 48 * index + 8] == tracks[48 * index + 8]);
    assert(sheet[396 + 48 * index + 35] == tracks[48 * index + 35]);
    assert(sheet[396 + 48 * index + 44] == tracks[48 * index + 44]);
    assert(sheet[(end + 8) as int] == ending[8]);
    assert(sheet[(end + 35) as int] == ending[35]);
}

/// There is a cue sheet exactly if some cue points lie in the stream, and no more than 99: each
/// once, in their order, up to the end of the stream.
pub proof fn law_cue_sheets_hold_the_points_of_the_stream(points: Seq<u64>, total_samples: u64)
    ensures
        ({
            let inside = normalized_points(points, total_samples);
            let sheet = cuesheet_for(points, total_samples);
            &&& sheet is Some <==> 1 <= inside.len() <= 99
            &&& sheet matches Some(payload) ==> payload == cuesheet_payload(inside, total_samples)
        }),
{
}

/// A cue point of a wave file takes 24 bytes: its number from zero on, and in the last four of
/// them its sample in the `data` chunk, with the least significant byte first.
pub proof fn law_cue_points_of_wave_files_have_the_published_layout(points: Seq<u32>, index: int)
    requires
        0 <= index < points.len() < 0x1_0000_0000,
    ensures
        ({
            let bytes = cue_entries(points);
            let start = (24 * index) as nat;
            &&& bytes.len() == 24 * points.len()
            &&& le_at(bytes, start, 4) == index
            &&& bytes_at(bytes, start + 8, 4) == letters("data"@)
            &&& le_at(bytes, start + 20, 4) == points[index]
        }),
    decreases points.len(),
{
    reveal_strlit("data");
    let bytes = cue_entries(points);
    let earlier = points.drop_last();
    let last = points.last();
    let number = (points.len() - 1) as nat;
    let entry = cue_entry(number, last);
    let front = cue_entries(earlier);
    let start = (24 * index) as nat;
    lemma_byte_ranges();
    law_le_bytes_read_back(number, 4);
    law_le_bytes_read_back(last as nat, 4);
    lemma_le_len(0, 4);
    if earlier.len() > 0 {
        law_cue_points_of_wave_files_have_the_published_layout(
            earlier,
            if index < earlier.len() {
                index
            } else {
                0
            },
        );
    }
    assert(entry.len() == 24);
    assert(bytes == front + entry);
    if index < points.len() - 1 {
        assert(bytes_at(bytes, start, 4) == bytes_at(front, start, 4));
        assert(bytes_at(bytes, start + 8, 4) == bytes_at(front, start + 8, 4));
        assert(bytes_at(bytes, start + 20, 4) == bytes_at(front, start + 20, 4));
    } else {
        assert(bytes_at(bytes, start, 4) == le_bytes(number, 4));
        assert(bytes_at(bytes, start + 8, 4) == letters("data"@));
        assert(bytes_at(bytes, start + 20, 4) == le_bytes(last as nat, 4));
    }
}

/// A marker of an AIFF file takes eight bytes: its number from one on, its sample, and an empty
/// name, with the most significant byte first.
pub proof fn law_markers_of_aiff_files_have_the_published_layout(points: Seq<u32>, index: int)
    requires
        0 <= index < points.len() < 0x1_0000,
    ensures
        ({
            let bytes = marks_of(points);
            let start = (8 * index) as nat;
            &&& bytes.len() == 8 * points.len()
            &&& be_at(bytes, start, 2) == index + 1
            &&& be_at(bytes, start + 2, 4) == points[index]
            &&& bytes[8 * index + 6] == 0
        }),
    decreases points.len(),
{
    let bytes = marks_of(points);
    let earlier = points.drop_last();
    let last = points.last();
    let front = marks_of(earlier);
    let start = (8 * index) as nat;
    let mark = be_bytes(points.len(), 2) + be_bytes(last as nat, 4) + pascal(Seq::empty());
    lemma_byte_ranges();
    law_be_bytes_read_back(points.len(), 2);
    law_be_bytes_read_back(last as nat, 4);
    if earlier.len() > 0 {
        law_markers_of_aiff_files_have_the_published_layout(
            earlier,
            if index < earlier.len() {
                index
            } else {
                0
            },
        );
    }
    assert(mark.len() == 8);
    assert(bytes == front + mark);
    if index < points.len() - 1 {
        assert(bytes_at(bytes, start, 2) == bytes_at(front, start, 2));
        assert(bytes_at(bytes, start + 2, 4) == bytes_at(front, start + 2, 4));
        assert(bytes[8 * index + 6] == front[8 * index + 6]);
    } else {
        assert(bytes_at(bytes, start, 2) == be_bytes(points.len(), 2));
        assert(bytes_at(bytes, start + 2, 4) == be_bytes(last as nat, 4));
        assert(bytes[8 * index + 6] == mark[6]);
    }
}

/// A marker of a Core Audio file takes 28 bytes: a type, its sample as a float, its number from
/// one on, and a time that is not given.
pub proof fn law_markers_of_core_audio_files_have_the_published_layout(
    points: Seq<u32>,
    index: int,
)
    requires
        0 <= index < points.len() < 0x1_0000_0000,
    ensures
        ({
            let bytes = markers_of(points);
            let start = (28 * index) as nat;
            &&& bytes.len() == 28 * points.len()
            &&& be_at(bytes, start, 4) == 0
            &&& bytes_at(bytes, start + 4, 8) == be_bytes(double_of(points[index]), 8)
            &&& be_at(bytes, start + 12, 4) == index + 1
            &&& forall|i: int| 16 <= i < 24 ==> #[trigger] bytes_at(bytes, start, 28)[i] == 0xff
        }),
    decreases points.len(),
{
    let bytes = markers_of(points);
    let earlier = points.drop_last();
    let last = points.last();
    let front = markers_of(earlier);
    let start = (28 * index) as nat;
    let mark = marker_bytes(points.len(), last);
    lemma_byte_ranges();
    law_be_bytes_read_back(0, 4);
    law_be_bytes_read_back(points.len(), 4);
    lemma_be_bytes_len(double_of(last), 8);
    if earlier.len() > 0 {
        law_markers_of_core_audio_files_have_the_published_layout(
            earlier,
            if index < earlier.len() {
                index
            } else {
                0
            },
        );
    }
    assert(mark.len() == 28);
    assert(bytes == front + mark);
    if index < points.len() - 1 {
        assert(bytes_at(bytes, start, 4) == bytes_at(front, start, 4));
        assert(bytes_at(bytes, start + 4, 8) == bytes_at(front, start + 4, 8));
        assert(bytes_at(bytes, start + 12, 4) == bytes_at(front, start + 12, 4));
        assert(bytes_at(bytes, start, 28) == bytes_at(front, start, 28));
    } else {
        assert(bytes_at(bytes, start, 4) == be_bytes(0, 4));
        assert(bytes_at(bytes, start + 4, 8) == be_bytes(double_of(last), 8));
        assert(bytes_at(bytes, start + 12, 4) == be_bytes(points.len(), 4));
        assert(bytes_at(bytes, start, 28) == mark);
    }
}

/// Beside its number, its letters and its sample, a cue point of a wave file holds zeros only.
pub proof fn law_cue_points_of_wave_files_hold_zeros(index: nat, offset: u32, place: int)
    requires
        4 <= place < 8 || 12 <= place < 20,
    ensures
        cue_entry(index, offset).len() == 24,
        cue_entry(index, offset)[place] == 0,
{
    lemma_le_len(index, 4);
    lemma_le_len(offset as nat, 4);
    assert(le_bytes(0, 4) == seq![0u8, 0u8, 0u8, 0u8]) by {
        reveal_with_fuel(le_bytes, 5);
    }
}

/// Every container keeps the cue points of a stream where there are any, all of them and in
/// their order, behind their number; an AIFF file keeps them up to 65535.
pub proof fn law_cue_points_are_kept_where_there_are_any(metadata: MetadataView)
    requires
        metadata.cue_points.len() < 0x1_0000_0000,
    ensures
        ({
            let points = metadata.cue_points;
            &&& points.len() == 0 ==> cue_payload(points) is None && metadata_marks(metadata)
                is None && marker_payload(metadata) == Ok::<Option<Seq<u8>>, ErrorView>(None)
            &&& points.len() > 0 ==> {
                &&& cue_payload(points) == Some(le_bytes(points.len(), 4) + cue_entries(points))
                &&& marker_payload(metadata) == Ok::<Option<Seq<u8>>, ErrorView>(
                    Some(be_bytes(points.len(), 4) + markers_of(points)),
                )
                &&& points.len() < 0x1_0000 ==> metadata_marks(metadata) == Some(
                    be_bytes(points.len(), 2) + marks_of(points),
                )
            }
        }),
{
    if metadata.cue_points.len() > 0 {
        law_cue_chunk_reads_back(metadata.cue_points);
    }
}

} // verus!
