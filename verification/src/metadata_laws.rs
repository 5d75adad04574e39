//! What of the metadata of a container reaches a reader of its stream.

use vstd::arithmetic::div_mod::lemma_fundamental_div_mod;
use vstd::prelude::*;
use vstd::utf8::{encode_utf8, is_ascii_chars, is_ascii_chars_encode_utf8};

use crate::cuesheet::{cuesheet_for, is_normalized, law_cue_points_read_back, normalized_points, strictly_ascending};
use crate::decode::mask_is_trusted;
use crate::draft::{draft_entries, entries_with, info_kind_id, info_kind_key, INFO_KINDS};
use crate::error::ErrorView;
use crate::flac_laws::{metadata_is_carried, restored_spec};
use crate::flac_writer::{blocks_fit, MAX_BLOCK_PAYLOAD};
use crate::hex::{digit_value, digits_value, hex_char, hex_digits};
use crate::input::{input_contents, input_kind, InputContents, PcmInputKind};
use crate::metadata::{comment_mask, comments_with_layout, empty_metadata, flac_block_views, layout_after, layout_of_entries, mask_key, mask_text, provenance_key, wide_points, LayoutView, MetadataView};
use crate::names::{lower, same_name};
use crate::pcm::mask_is_supported;
use crate::recompress::FlacReaderOptions;
use crate::recompress_laws::{is_plain_block, taken};
use crate::riff_chunks::{lemma_le_bytes_len, InfoTextView};
use crate::vorbis::{block_is_representable, counted_entries, law_comment_block_reads_back, law_entry_splits_back, raw_entry, vorbis_payload, VorbisView};
use crate::wav_reader::{drafted_places, fxmd_policy, wav_contents, wav_envelope, WavReaderOptions};

verus! {

/// A value that is put into its place.
spec fn inserted(values: Seq<u64>, value: u64) -> Seq<u64>
    decreases values.len(),
{
    if values.len() == 0 {
        seq![value]
    } else if values.last() < value {
        values.push(value)
    } else {
        inserted(values.drop_last(), value).push(values.last())
    }
}

proof fn lemma_inserted(values: Seq<u64>, value: u64)
    requires
        strictly_ascending(values),
        !values.contains(value),
    ensures
        strictly_ascending(inserted(values, value)),
        forall|other: u64| #[trigger]
            inserted(values, value).contains(other) <==> values.contains(other) || other == value,
    decreases values.len(),
{
    let found = inserted(values, value);
    if values.len() == 0 {
        assert(found[0] == value);
        assert forall|other: u64| #[trigger] found.contains(other) implies other == value by {}
    } else if values.last() < value {
        assert(found[values.len() as int] == value);
        assert forall|other: u64| values.contains(other) implies #[trigger] found.contains(
            other,
        ) by {
            assert(found[values.index_of(other)] == other);
        }
        assert forall|i: int, j: int| 0 <= i < j < found.len() implies found[i] < found[j] by {
            if i < values.len() - 1 {
                assert(values[i] < values[values.len() - 1]);
            }
        }
    } else {
        let earlier = values.drop_last();
        let last = values.last();
        assert(values[values.len() - 1] == last);
        assert forall|other: u64| #[trigger] earlier.contains(other) implies values.contains(
            other,
        ) && other < last by {
            let place = earlier.index_of(other);
            assert(values[place] == other);
        }
        lemma_inserted(earlier, value);
        let front = inserted(earlier, value);
        assert(values.contains(last));
        assert forall|i: int, j: int| 0 <= i < j < found.len() implies found[i] < found[j] by {
            if j == found.len() - 1 {
                assert(front.contains(front[i]));
            }
        }
        assert(found[found.len() - 1] == last);
        assert forall|other: u64| #[trigger] found.contains(other) <==> values.contains(other)
            || other == value by {
            if found.contains(other) {
                let place = found.index_of(other);
                if place < front.len() {
                    assert(front[place] == other);
                    assert(front.contains(other));
                }
            }
            if values.contains(other) {
                let place = values.index_of(other);
                if place < earlier.len() {
                    assert(earlier[place] == other);
                    assert(front.contains(other));
                    assert(found[front.index_of(other)] == other);
                }
            }
            if other == value {
                assert(front.contains(other));
                assert(found[front.index_of(other)] == other);
            }
        }
    }
}

proof fn lemma_can_be_normalized(values: Seq<u64>, limit: u64) -> (result: Seq<u64>)
    ensures
        is_normalized(result, values, limit),
    decreases values.len(),
{
    if values.len() == 0 {
        assert(is_normalized(Seq::empty(), values, limit));
        Seq::empty()
    } else {
        let earlier = values.drop_last();
        let value = values.last();
        let before = lemma_can_be_normalized(earlier, limit);
        assert(values == earlier.push(value));
        assert forall|other: u64| #[trigger] values.contains(other) <==> earlier.contains(other)
            || other == value by {
            if earlier.contains(other) {
                assert(values[earlier.index_of(other)] == other);
            }
            if other == value {
                assert(values[values.len() - 1] == other);
            }
            if values.contains(other) && other != value {
                assert(earlier[values.index_of(other)] == other);
            }
        }
        if value < limit && !before.contains(value) {
            lemma_inserted(before, value);
            let result = inserted(before, value);
            assert forall|other: u64| #[trigger] result.contains(other) <==> values.contains(other)
                && other < limit by {
                assert(before.contains(other) <==> earlier.contains(other) && other < limit);
            }
            result
        } else {
            assert forall|other: u64| #[trigger] before.contains(other) <==> values.contains(other)
                && other < limit by {}
            before
        }
    }
}

/// Points are normalized.
proof fn lemma_points_are_normalized(values: Seq<u64>, limit: u64)
    ensures
        is_normalized(normalized_points(values, limit), values, limit),
{
    let result = lemma_can_be_normalized(values, limit);
    assert(is_normalized(result, values, limit));
}

/// Entries take their bytes.
proof fn lemma_entries_are_counted(entries: Seq<Seq<char>>)
    ensures
        4 * entries.len() <= counted_entries(entries).len(),
        forall|i: int|
            0 <= i < entries.len() ==> encode_utf8(#[trigger] entries[i]).len() <= counted_entries(
                entries,
            ).len(),
    decreases entries.len(),
{
    if entries.len() > 0 {
        let earlier = entries.drop_last();
        lemma_entries_are_counted(earlier);
        lemma_le_bytes_len(encode_utf8(entries.last()).len(), 4);
        assert forall|i: int| 0 <= i < entries.len() implies encode_utf8(
            #[trigger] entries[i],
        ).len() <= counted_entries(entries).len() by {
            if i < earlier.len() {
                assert(entries[i] == earlier[i]);
            }
        }
    }
}

/// A comment block that fits in a stream can be read back.
proof fn lemma_block_can_be_read(block: VorbisView)
    requires
        vorbis_payload(block).len() <= MAX_BLOCK_PAYLOAD,
    ensures
        block_is_representable(block),
{
    lemma_entries_are_counted(block.entries);
    lemma_le_bytes_len(encode_utf8(block.vendor).len(), 4);
}

/// The metadata of a container as a reader of its stream takes them: the comments with the
/// channel layout, and the cue points that lie in the stream, unless they are too many for
/// a cue sheet.
pub open spec fn carried_metadata(metadata: MetadataView, total_samples: u64) -> MetadataView {
    MetadataView {
        preserved: flac_block_views(metadata, total_samples),
        comments: comments_with_layout(metadata),
        cue_points: match cuesheet_for(wide_points(metadata.cue_points), total_samples) {
            Some(_) => normalized_points(
                wide_points(metadata.cue_points),
                total_samples,
            ).map_values(|point: u64| point as u32),
            None => Seq::empty(),
        },
        channel_mask: metadata.channel_mask,
        provenance: metadata.provenance,
    }
}

/// The comments say of the channel layout what the metadata do.
pub open spec fn layout_is_named(metadata: MetadataView, channels: u8) -> bool {
    comments_with_layout(metadata) matches Some(block) ==> layout_of_entries(
        LayoutView { channel_mask: None, provenance: false },
        block.entries,
        channels,
    ) == Ok::<LayoutView, ErrorView>(
        LayoutView { channel_mask: metadata.channel_mask, provenance: metadata.provenance },
    )
}

/// Comments and cue points that were not kept as blocks reach a reader of the stream.
pub proof fn law_comments_and_cue_points_are_carried(
    contents: InputContents,
    options: FlacReaderOptions,
)
    requires
        contents.metadata.preserved.len() == 0,
        blocks_fit(flac_block_views(contents.metadata, contents.spec.total_samples)),
        layout_is_named(contents.metadata, contents.spec.channels),
        mask_is_trusted(
            contents.metadata,
            restored_spec(contents.spec, contents.metadata),
            options.strict_channel_mask_provenance,
        ),
    ensures
        metadata_is_carried(
            contents,
            options,
            carried_metadata(contents.metadata, contents.spec.total_samples),
        ),
{
    let metadata = contents.metadata;
    let total = contents.spec.total_samples;
    let channels = contents.spec.channels;
    let strict = options.strict_seektable_validation;
    let blocks = flac_block_views(metadata, total);
    let points = wide_points(metadata.cue_points);
    let normalized = normalized_points(points, total);
    let carried = carried_metadata(metadata, total);
    let comments = comments_with_layout(metadata);
    assert forall|i: int| 0 <= i < blocks.len() implies is_plain_block(#[trigger] blocks[i]) by {
        assert(blocks[i].payload.len() <= MAX_BLOCK_PAYLOAD);
    }
    lemma_points_are_normalized(points, total);
    if cuesheet_for(points, total) is Some {
        assert forall|i: int| 0 <= i < normalized.len() implies #[trigger] normalized[i] < total
            && normalized[i] <= u32::MAX by {
            assert(normalized.contains(normalized[i]));
            let place = points.index_of(normalized[i]);
            assert(points[place] == metadata.cue_points[place] as u64);
        }
        law_cue_points_read_back(normalized, total);
    }
    if let Some(block) = comments {
        assert(blocks[0].payload == vorbis_payload(block));
        lemma_block_can_be_read(block);
        law_comment_block_reads_back(block);
    }
    let none = empty_metadata();
    assert(taken(blocks, 0, total, strict, channels) == Ok::<MetadataView, ErrorView>(none));
    if blocks.len() >= 1 {
        let one = taken(blocks, 1, total, strict, channels);
        assert(one is Ok);
        assert(one->Ok_0.preserved == blocks.take(1));
        if blocks.len() == 2 {
            let two = taken(blocks, 2, total, strict, channels);
            assert(two is Ok);
            assert(two->Ok_0.preserved == blocks);
            assert(two->Ok_0 == carried);
        } else {
            assert(blocks.take(1) == blocks);
            assert(one->Ok_0 == carried);
        }
    } else {
        assert(none == carried);
    }
}

/// A digit stands for its value.
proof fn lemma_digit(value: nat)
    requires
        value < 16,
    ensures
        digit_value(hex_char(value) as u8) == Some(value),
        '+' < hex_char(value) <= '\u{7f}',
        (hex_char(value) as u8) != 0x2b,
{
}

/// Digits stand for their number.
proof fn lemma_digits(value: nat, width: nat, bytes: Seq<u8>)
    requires
        bytes.len() == width,
        forall|i: int| 0 <= i < width ==> bytes[i] == #[trigger] hex_digits(value, width)[i] as u8,
        value < vstd::arithmetic::power2::pow2(4 * width),
    ensures
        digits_value(bytes) == Some(value),
    decreases width,
{
    let digits = hex_digits(value, width);
    if width == 0 {
        vstd::arithmetic::power2::lemma2_to64();
    } else {
        let high = value / 16;
        let front = hex_digits(high, (width - 1) as nat);
        lemma_digits_len(high, (width - 1) as nat);
        vstd::arithmetic::power2::lemma_pow2_adds((4 * (width - 1)) as nat, 4);
        vstd::arithmetic::power2::lemma2_to64();
        assert forall|i: int| 0 <= i < width - 1 implies bytes.drop_last()[i]
            == #[trigger] front[i] as u8 by {
            assert(digits[i] == front[i]);
        }
        lemma_fundamental_div_mod(value as int, 16);
        lemma_digits(high, (width - 1) as nat, bytes.drop_last());
        lemma_digit(value % 16);
        assert(digits[width - 1] == hex_char(value % 16));
    }
}

proof fn lemma_digits_len(value: nat, width: nat)
    ensures
        hex_digits(value, width).len() == width,
        forall|i: int|
            0 <= i < width ==> '+' < #[trigger] hex_digits(value, width)[i] <= '\u{7f}' && (
            hex_digits(value, width)[i] as u8) != 0x2b,
    decreases width,
{
    if width > 0 {
        let front = hex_digits(value / 16, (width - 1) as nat);
        lemma_digits_len(value / 16, (width - 1) as nat);
        lemma_digit(value % 16);
        assert forall|i: int| 0 <= i < width implies '+' < #[trigger] hex_digits(value, width)[i]
            <= '\u{7f}' && (hex_digits(value, width)[i] as u8) != 0x2b by {
            if i < width - 1 {
                assert(hex_digits(value, width)[i] == front[i]);
            }
        }
    }
}

/// A channel mask comes back from its comment.
pub proof fn law_mask_comments_read_back(mask: u32, channels: u8)
    requires
        mask == 0 || mask_is_supported(channels as u16, mask),
    ensures
        comment_mask(mask_text(mask), channels) == Ok::<u32, ErrorView>(mask),
{
    reveal_strlit("0x");
    let text = mask_text(mask);
    let digits = hex_digits(mask as nat, 8);
    lemma_digits_len(mask as nat, 8);
    assert(text[0] == '0' && text[1] == 'x');
    assert(is_ascii_chars(text)) by {
        assert forall|i: int| 0 <= i < text.len() implies '\0' <= #[trigger] text[i] <= '\u{7f}' by {
            if i >= 2 {
                assert(text[i] == digits[i - 2]);
            }
        }
    }
    is_ascii_chars_encode_utf8(text);
    let bytes = encode_utf8(text);
    assert(bytes[0] == 0x30 && bytes[1] == 0x78);
    let rest = bytes.skip(2);
    assert forall|i: int| 0 <= i < 8 implies rest[i] == #[trigger] digits[i] as u8 by {
        assert(text[i + 2] == digits[i]);
    }
    vstd::arithmetic::power2::lemma2_to64();
    lemma_digits(mask as nat, 8, rest);
    assert(rest[0] == digits[0] as u8);
}

/// An entry whose key does not name the channel layout leaves it alone.
proof fn lemma_other_entry(layout: LayoutView, key: Seq<char>, value: Seq<char>, channels: u8)
    requires
        key.len() < 20,
        forall|i: int| 0 <= i < key.len() ==> key[i] != '=',
    ensures
        layout_after(layout, raw_entry(key, value), channels) == Ok::<LayoutView, ErrorView>(
            layout,
        ),
{
    law_entry_splits_back(key, value);
    reveal_strlit("WAVEFORMATEXTENSIBLE_CHANNEL_MASK");
    reveal_strlit("FLACX_CHANNEL_LAYOUT_PROVENANCE");
    assert(lower(key).len() == key.len());
    assert(lower(mask_key()).len() == mask_key().len());
    assert(lower(provenance_key()).len() == provenance_key().len());
    assert(!same_name(key, mask_key()));
    assert(!same_name(key, provenance_key()));
}

/// The keys of INFO chunks are short names.
proof fn lemma_info_keys(kind: int)
    ensures
        info_kind_key(kind).len() < 20,
        forall|i: int| 0 <= i < info_kind_key(kind).len() ==> info_kind_key(kind)[i] != '=',
{
    reveal_strlit("ARTIST");
    reveal_strlit("COMMENT");
    reveal_strlit("COPYRIGHT");
    reveal_strlit("DATE");
    reveal_strlit("GENRE");
    reveal_strlit("TITLE");
    reveal_strlit("ALBUM");
    reveal_strlit("ENCODER");
    reveal_strlit("TRACKNUMBER");
}

/// Every entry leaves the channel layout alone.
spec fn names_no_layout(entries: Seq<Seq<char>>, channels: u8) -> bool {
    forall|i: int, layout: LayoutView|
        0 <= i < entries.len() ==> #[trigger] layout_after(layout, entries[i], channels) == Ok::<
            LayoutView,
            ErrorView,
        >(layout)
}

proof fn lemma_info_entries(texts: Seq<InfoTextView>, kind: int, channels: u8)
    ensures
        names_no_layout(
            entries_with(texts, info_kind_id(kind), info_kind_key(kind)),
            channels,
        ),
    decreases texts.len(),
{
    let id = info_kind_id(kind);
    let key = info_kind_key(kind);
    if texts.len() > 0 {
        lemma_info_entries(texts.drop_last(), kind, channels);
        lemma_info_keys(kind);
        let earlier = entries_with(texts.drop_last(), id, key);
        let entries = entries_with(texts, id, key);
        assert forall|i: int, layout: LayoutView| 0 <= i < entries.len() implies
            #[trigger] layout_after(layout, entries[i], channels) == Ok::<LayoutView, ErrorView>(
            layout,
        ) by {
            if i < earlier.len() {
                assert(entries[i] == earlier[i]);
            } else {
                lemma_other_entry(layout, key, texts.last().value, channels);
            }
        }
    }
}

proof fn lemma_draft_entries(texts: Seq<InfoTextView>, kinds: nat, channels: u8)
    ensures
        names_no_layout(draft_entries(texts, kinds), channels),
    decreases kinds,
{
    if kinds > 0 {
        let kind = kinds - 1;
        lemma_draft_entries(texts, (kinds - 1) as nat, channels);
        lemma_info_entries(texts, kind, channels);
        let earlier = draft_entries(texts, (kinds - 1) as nat);
        let more = entries_with(texts, info_kind_id(kind), info_kind_key(kind));
        let entries = draft_entries(texts, kinds);
        assert forall|i: int, layout: LayoutView| 0 <= i < entries.len() implies
            #[trigger] layout_after(layout, entries[i], channels) == Ok::<LayoutView, ErrorView>(
            layout,
        ) by {
            if i < earlier.len() {
                assert(entries[i] == earlier[i]);
            } else {
                assert(entries[i] == more[i - earlier.len()]);
            }
        }
    }
}

proof fn lemma_entries_leave_layout(layout: LayoutView, entries: Seq<Seq<char>>, channels: u8)
    requires
        names_no_layout(entries, channels),
    ensures
        layout_of_entries(layout, entries, channels) == Ok::<LayoutView, ErrorView>(layout),
    decreases entries.len(),
{
    if entries.len() > 0 {
        let earlier = entries.drop_last();
        assert forall|i: int, other: LayoutView| 0 <= i < earlier.len() implies
            #[trigger] layout_after(other, earlier[i], channels) == Ok::<LayoutView, ErrorView>(
            other,
        ) by {
            assert(earlier[i] == entries[i]);
        }
        lemma_entries_leave_layout(layout, earlier, channels);
        assert(entries.last() == entries[entries.len() - 1]);
    }
}

/// The entries that record a channel layout are read back.
proof fn lemma_layout_entries(mask: u32, channels: u8, entries: Seq<Seq<char>>)
    requires
        mask == 0 || mask_is_supported(channels as u16, mask),
        names_no_layout(entries, channels),
    ensures
        layout_of_entries(
            LayoutView { channel_mask: None, provenance: false },
            entries.push(raw_entry(mask_key(), mask_text(mask))).push(
                raw_entry(provenance_key(), "1"@),
            ),
            channels,
        ) == Ok::<LayoutView, ErrorView>(
            LayoutView { channel_mask: Some(mask), provenance: true },
        ),
{
    let none = LayoutView { channel_mask: None, provenance: false };
    let masked = entries.push(raw_entry(mask_key(), mask_text(mask)));
    let marked = masked.push(raw_entry(provenance_key(), "1"@));
    reveal_strlit("WAVEFORMATEXTENSIBLE_CHANNEL_MASK");
    reveal_strlit("FLACX_CHANNEL_LAYOUT_PROVENANCE");
    law_entry_splits_back(mask_key(), mask_text(mask));
    law_entry_splits_back(provenance_key(), "1"@);
    law_mask_comments_read_back(mask, channels);
    lemma_entries_leave_layout(none, entries, channels);
    assert(masked.drop_last() == entries);
    assert(marked.drop_last() == masked);
    assert(lower(mask_key()).len() == mask_key().len());
    assert(lower(provenance_key()).len() == provenance_key().len());
    assert(!same_name(provenance_key(), mask_key()));
    assert(layout_of_entries(none, masked, channels) == Ok::<LayoutView, ErrorView>(
        LayoutView { channel_mask: Some(mask), provenance: false },
    ));
}

/// The comments, the cue points and the speaker positions of a RIFF/WAVE file reach a reader
/// of its stream, if the file does not keep whole blocks instead.
pub proof fn law_wav_metadata_are_carried(
    bytes: Seq<u8>,
    contents: InputContents,
    capture: WavReaderOptions,
    options: FlacReaderOptions,
)
    requires
        input_contents(bytes, 0, capture) == Ok::<InputContents, ErrorView>(contents),
        input_kind(bytes, 0) == PcmInputKind::RiffLike,
        contents.metadata.preserved.len() == 0,
        blocks_fit(flac_block_views(contents.metadata, contents.spec.total_samples)),
    ensures
        metadata_is_carried(
            contents,
            options,
            carried_metadata(contents.metadata, contents.spec.total_samples),
        ),
{
    let metadata = contents.metadata;
    let channels = contents.spec.channels;
    let layout = wav_contents(bytes, 0, capture)->Ok_0.0;
    let envelope = wav_envelope(layout);
    let draft = drafted_places(bytes, layout.places, fxmd_policy(capture))->Ok_0;
    let entries = draft_entries(draft.texts, INFO_KINDS as nat);
    let none = LayoutView { channel_mask: None, provenance: false };
    lemma_draft_entries(draft.texts, INFO_KINDS as nat, channels);
    lemma_entries_leave_layout(none, entries, channels);
    if metadata.channel_mask is Some {
        let mask = envelope.channel_mask;
        lemma_layout_entries(mask, channels, entries);
        let first = raw_entry(mask_key(), mask_text(mask));
        if entries.len() == 0 {
            assert(entries.push(first) == seq![first]);
        }
    }
    law_comments_and_cue_points_are_carried(contents, options);
}

} // verus!
