//! Semantic metadata: comments, cue points and channel layout.

use vstd::prelude::*;
use vstd::slice::slice_to_vec;
use vstd::string::*;
use vstd::utf8::encode_utf8;

use crate::bytes::{append_bytes, le_bytes, push_le_bytes};
use crate::cuesheet::{build_cuesheet, cue_points_from_cuesheet_payload, cue_points_of, cuesheet_for};
use crate::error::{Error, ErrorView, Result};
use crate::fxmd::{fxmd_payload, fxmd_payload_of};
use crate::fourcc::FourCc;
use crate::hex::{append_hex, hex_digits, hex_value, parse_hex};
use crate::names::same_name;
use crate::pcm::{is_supported_channel_mask, mask_is_supported, ordinary_channel_mask, ordinary_mask};
use crate::vorbis::{entry_parts, raw_entry, raw_vorbis_comment_entry, split_vorbis_comment_entry, texts, vorbis_block, vorbis_payload, VorbisCommentBlock, VorbisView};

verus! {

pub const APPLICATION_BLOCK_TYPE: u8 = 2;

pub const PADDING_BLOCK_TYPE: u8 = 1;

pub const VORBIS_COMMENT_BLOCK_TYPE: u8 = 4;

pub const CUESHEET_BLOCK_TYPE: u8 = 5;

pub const PICTURE_BLOCK_TYPE: u8 = 6;

/// The largest mask of known speaker positions.
pub const MAX_CHANNEL_MASK: u32 = 0x0003_ffff;

/// `IART`
pub const IART: FourCc = [0x49, 0x41, 0x52, 0x54];

/// `ICMT`
pub const ICMT: FourCc = [0x49, 0x43, 0x4d, 0x54];

/// `ICOP`
pub const ICOP: FourCc = [0x49, 0x43, 0x4f, 0x50];

/// `ICRD`
pub const ICRD: FourCc = [0x49, 0x43, 0x52, 0x44];

/// `IGNR`
pub const IGNR: FourCc = [0x49, 0x47, 0x4e, 0x52];

/// `INAM`
pub const INAM: FourCc = [0x49, 0x4e, 0x41, 0x4d];

/// `IPRD`
pub const IPRD: FourCc = [0x49, 0x50, 0x52, 0x44];

/// `ISFT`
pub const ISFT: FourCc = [0x49, 0x53, 0x46, 0x54];

/// `ITRK`
pub const ITRK: FourCc = [0x49, 0x54, 0x52, 0x4b];

/// `INFO`
pub const INFO_LIST_TYPE: FourCc = [0x49, 0x4e, 0x46, 0x4f];

/// `data`
pub const DATA_ID: FourCc = [0x64, 0x61, 0x74, 0x61];

/// The comment key of a channel mask.
pub open spec fn mask_key() -> Seq<char> {
    "WAVEFORMATEXTENSIBLE_CHANNEL_MASK"@
}

/// The comment key that marks a channel mask as written by this library.
pub open spec fn provenance_key() -> Seq<char> {
    "FLACX_CHANNEL_LAYOUT_PROVENANCE"@
}

/// The vendor text of comment blocks that this library makes.
pub open spec fn vendor_text() -> Seq<char> {
    "flacx 0.9.0"@
}

/// A metadata block of a FLAC stream.
#[derive(Debug, Clone, PartialEq, Eq)]
pub enum FlacMetadataBlock {
    VorbisComment(VorbisCommentBlock),
    CueSheet(Vec<u8>),
    Raw { block_type: u8, payload: Vec<u8> },
}

/// A metadata block as its type and payload.
pub struct BlockView {
    pub block_type: u8,
    pub payload: Seq<u8>,
}

impl View for FlacMetadataBlock {
    type V = BlockView;

    open spec fn view(&self) -> BlockView {
        match self {
            FlacMetadataBlock::VorbisComment(block) => BlockView {
                block_type: VORBIS_COMMENT_BLOCK_TYPE,
                payload: vorbis_payload(block@),
            },
            FlacMetadataBlock::CueSheet(payload) => BlockView {
                block_type: CUESHEET_BLOCK_TYPE,
                payload: payload@,
            },
            FlacMetadataBlock::Raw { block_type, payload } => BlockView {
                block_type: *block_type,
                payload: payload@,
            },
        }
    }
}

impl FlacMetadataBlock {
    /// The type of the block.
    pub fn block_type(&self) -> (block_type: u8)
        ensures
            block_type == self@.block_type,
    {
        match self {
            FlacMetadataBlock::VorbisComment(_) => VORBIS_COMMENT_BLOCK_TYPE,
            FlacMetadataBlock::CueSheet(_) => CUESHEET_BLOCK_TYPE,
            FlacMetadataBlock::Raw { block_type, .. } => *block_type,
        }
    }

    /// The payload of the block.
    pub fn payload(&self) -> (payload: Vec<u8>)
        ensures
            payload@ == self@.payload,
    {
        match self {
            FlacMetadataBlock::VorbisComment(block) => block.payload(),
            FlacMetadataBlock::CueSheet(payload) => slice_to_vec(payload.as_slice()),
            FlacMetadataBlock::Raw { payload, .. } => slice_to_vec(payload.as_slice()),
        }
    }
}

/// The views of blocks.
pub open spec fn block_views(blocks: Seq<FlacMetadataBlock>) -> Seq<BlockView> {
    blocks.map_values(|block: FlacMetadataBlock| block@)
}

/// A block that is kept as it was read.
#[derive(Debug, Clone, PartialEq, Eq)]
pub struct PreservedBlock {
    pub block_type: u8,
    pub payload: Vec<u8>,
}

/// The blocks that are kept as they were read.
pub open spec fn preserved_views(blocks: Seq<PreservedBlock>) -> Seq<BlockView> {
    blocks.map_values(
        |block: PreservedBlock| BlockView {
            block_type: block.block_type,
            payload: block.payload@,
        },
    )
}

/// Semantic metadata captured from container inputs or staged for output.
///
/// `Metadata` is the type to reach for when you want to inspect or edit comment
/// fields, cue points, or channel-layout preservation information before an
/// encode or decode operation.
#[derive(Debug, Clone, PartialEq, Eq)]
pub struct Metadata {
    preserved: Vec<PreservedBlock>,
    vorbis_comment: Option<VorbisCommentBlock>,
    cue_points: Vec<u32>,
    channel_mask: Option<u32>,
    channel_layout_provenance: bool,
}

/// What metadata holds.
pub struct MetadataView {
    /// The blocks that are kept as they were read.
    pub preserved: Seq<BlockView>,
    /// The comment block, if there is one.
    pub comments: Option<VorbisView>,
    /// The cue points, as samples from the start.
    pub cue_points: Seq<u32>,
    /// The explicit channel mask, if there is one.
    pub channel_mask: Option<u32>,
    /// Whether the channel layout is marked as written by this library.
    pub provenance: bool,
}

impl View for Metadata {
    type V = MetadataView;

    closed spec fn view(&self) -> MetadataView {
        MetadataView {
            preserved: preserved_views(self.preserved@),
            comments: match self.vorbis_comment {
                Some(block) => Some(block@),
                None => None,
            },
            cue_points: self.cue_points@,
            channel_mask: self.channel_mask,
            provenance: self.channel_layout_provenance,
        }
    }
}

/// Metadata that holds nothing.
pub open spec fn empty_metadata() -> MetadataView {
    MetadataView {
        preserved: Seq::empty(),
        comments: None,
        cue_points: Seq::empty(),
        channel_mask: None,
        provenance: false,
    }
}

/// What of metadata is written to a file: the blocks that were kept as read only where they
/// are asked for.
pub open spec fn emitted(metadata: MetadataView, kept: bool) -> MetadataView {
    if kept {
        metadata
    } else {
        editable(metadata)
    }
}

/// Metadata once it is edited: blocks that were kept as read are let go.
pub open spec fn editable(metadata: MetadataView) -> MetadataView {
    MetadataView { preserved: Seq::empty(), ..metadata }
}

/// A key that describes the channel layout and no comment.
pub open spec fn is_layout_key(key: Seq<char>) -> bool {
    same_name(key, mask_key()) || same_name(key, provenance_key())
}

/// The keys and values of the entries that are comments.
pub open spec fn comment_pairs(entries: Seq<Seq<char>>) -> Seq<(Seq<char>, Seq<char>)>
    decreases entries.len(),
{
    if entries.len() == 0 {
        Seq::empty()
    } else {
        let earlier = comment_pairs(entries.drop_last());
        match entry_parts(entries.last()) {
            Some((key, value)) => if is_layout_key(key) {
                earlier
            } else {
                earlier.push((key, value))
            },
            None => earlier,
        }
    }
}

/// The comments of metadata.
pub open spec fn comments_of(metadata: MetadataView) -> Seq<(Seq<char>, Seq<char>)> {
    match metadata.comments {
        Some(block) => comment_pairs(block.entries),
        None => Seq::empty(),
    }
}

/// The entries for the pairs whose key is another one.
pub open spec fn other_entries(pairs: Seq<(Seq<char>, Seq<char>)>, key: Seq<char>) -> Seq<Seq<char>>
    decreases pairs.len(),
{
    if pairs.len() == 0 {
        Seq::empty()
    } else {
        let earlier = other_entries(pairs.drop_last(), key);
        if same_name(pairs.last().0, key) {
            earlier
        } else {
            earlier.push(raw_entry(pairs.last().0, pairs.last().1))
        }
    }
}

/// The number of pairs with a key.
pub open spec fn count_key(pairs: Seq<(Seq<char>, Seq<char>)>, key: Seq<char>) -> nat
    decreases pairs.len(),
{
    if pairs.len() == 0 {
        0
    } else {
        count_key(pairs.drop_last(), key) + if same_name(pairs.last().0, key) {
            1nat
        } else {
            0nat
        }
    }
}

/// A block of entries that this library makes; no entries make no block.
pub open spec fn made_block(entries: Seq<Seq<char>>) -> Option<VorbisView> {
    if entries.len() == 0 {
        None
    } else {
        Some(VorbisView { vendor: vendor_text(), entries })
    }
}

/// The comment block once the values of a key are replaced.
pub open spec fn replaced_comments(
    metadata: MetadataView,
    key: Seq<char>,
    values: Seq<Seq<char>>,
) -> Option<VorbisView> {
    made_block(
        other_entries(comments_of(metadata), key) + values.map_values(
            |value: Seq<char>| raw_entry(key, value),
        ),
    )
}

/// The views of string slices.
pub open spec fn slice_texts(values: Seq<&str>) -> Seq<Seq<char>> {
    values.map_values(|value: &str| value@)
}

/// The views of pairs of string slices.
pub open spec fn pair_texts(pairs: Seq<(&str, &str)>) -> Seq<(Seq<char>, Seq<char>)> {
    pairs.map_values(|pair: (&str, &str)| (pair.0@, pair.1@))
}

fn vendor() -> (text: String)
    ensures
        text@ == vendor_text(),
{
    "flacx 0.9.0".to_owned()
}

impl Metadata {
    /// Metadata of kept blocks, comments and cue points.
    pub(crate) fn from_parts(
        preserved: Vec<PreservedBlock>,
        entries: Vec<String>,
        cue_points: Vec<u32>,
    ) -> (metadata: Self)
        ensures
            metadata@ == (MetadataView {
                preserved: preserved_views(preserved@),
                comments: made_block(texts(entries@)),
                cue_points: cue_points@,
                channel_mask: None,
                provenance: false,
            }),
    {
        let vorbis_comment = if entries.len() == 0 {
            None
        } else {
            Some(VorbisCommentBlock::new(vendor(), entries))
        };
        Metadata {
            preserved,
            vorbis_comment,
            cue_points,
            channel_mask: None,
            channel_layout_provenance: false,
        }
    }

    /// Lets go of the blocks that were kept as read.
    pub(crate) fn without_kept_blocks(self) -> (metadata: Self)
        ensures
            metadata@ == editable(self@),
    {
        let metadata = Metadata { preserved: Vec::new(), ..self };
        assert(preserved_views(metadata.preserved@) == Seq::<BlockView>::empty());
        metadata
    }

    /// The payload of the `fxmd` chunk, if there is one.
    pub fn unified_chunk_payload(&self) -> (payload: Option<Vec<u8>>)
        ensures
            match payload {
                Some(bytes) => fxmd_payload(self@.preserved) == Some(bytes@),
                None => fxmd_payload(self@.preserved) is None,
            },
    {
        fxmd_payload_of(&self.preserved)
    }
}

impl Default for Metadata {
    fn default() -> (metadata: Self)
        ensures
            metadata@ == empty_metadata(),
    {
        Metadata::new()
    }
}

impl Metadata {
    /// Create an empty semantic metadata value for direct source construction.
    #[must_use]
    pub fn new() -> (metadata: Self)
        ensures
            metadata@ == empty_metadata(),
    {
        let metadata = Metadata {
            preserved: Vec::new(),
            vorbis_comment: None,
            cue_points: Vec::new(),
            channel_mask: None,
            channel_layout_provenance: false,
        };
        assert(metadata@.preserved == Seq::<BlockView>::empty());
        metadata
    }

    /// Return the normalized comment entries currently stored on this metadata.
    #[must_use]
    pub fn comments<'a>(&'a self) -> (pairs: Vec<(&'a str, &'a str)>)
        ensures
            pair_texts(pairs@) == comments_of(self@),
    {
        let mut pairs: Vec<(&'a str, &'a str)> = Vec::new();
        match &self.vorbis_comment {
            Some(block) => {
                let entries = block.entries();
                let ghost views = texts(entries@);
                let mut index: usize = 0;
                while index < entries.len()
                    invariant
                        index <= entries@.len(),
                        views == texts(entries@),
                        pair_texts(pairs@) == comment_pairs(views.take(index as int)),
                    decreases entries.len() - index,
                {
                    proof {
                        assert(views.take(index + 1).drop_last() == views.take(index as int));
                        assert(views[index as int] == entries@[index as int]@);
                    }
                    match split_vorbis_comment_entry(entries[index].as_str()) {
                        Some((key, value)) => {
                            if !key.eq_ignore_ascii_case("WAVEFORMATEXTENSIBLE_CHANNEL_MASK")
                                && !key.eq_ignore_ascii_case("FLACX_CHANNEL_LAYOUT_PROVENANCE") {
                                let ghost before = pairs@;
                                pairs.push((key, value));
                                assert(pair_texts(pairs@) == pair_texts(before).push(
                                    (key@, value@),
                                ));
                            }
                        },
                        None => {},
                    }
                    index = index + 1;
                }
                assert(views.take(index as int) == views);
            },
            None => {
                assert(pair_texts(pairs@) == Seq::<(Seq<char>, Seq<char>)>::empty());
            },
        }
        pairs
    }

    /// Append one semantic comment entry.
    pub fn add_comment(&mut self, key: &str, value: &str)
        ensures
            final(self)@ == (MetadataView {
                comments: Some(
                    VorbisView {
                        vendor: match old(self)@.comments {
                            Some(block) => block.vendor,
                            None => vendor_text(),
                        },
                        entries: match old(self)@.comments {
                            Some(block) => block.entries,
                            None => Seq::empty(),
                        }.push(raw_entry(key@, value@)),
                    },
                ),
                ..editable(old(self)@)
            }),
    {
        self.ensure_semantic_editable();
        let entry = raw_vorbis_comment_entry(key, value);
        match &mut self.vorbis_comment {
            Some(block) => {
                block.push_entry(entry);
            },
            None => {
                let mut entries: Vec<String> = Vec::new();
                entries.push(entry);
                assert(texts(entries@) == Seq::<Seq<char>>::empty().push(raw_entry(key@, value@)));
                self.vorbis_comment = Some(VorbisCommentBlock::new(vendor(), entries));
            },
        }
    }

    /// Replace all comment values for one key.
    pub fn set_comments(&mut self, key: &str, values: &[&str])
        ensures
            final(self)@ == (MetadataView {
                comments: replaced_comments(old(self)@, key@, slice_texts(values@)),
                ..editable(old(self)@)
            }),
    {
        self.ensure_semantic_editable();
        let mut entries: Vec<String> = Vec::new();
        let ghost pairs_view = comments_of(old(self)@);
        {
            let pairs = self.comments();
            let mut index: usize = 0;
            while index < pairs.len()
                invariant
                    index <= pairs@.len(),
                    pair_texts(pairs@) == pairs_view,
                    texts(entries@) == other_entries(pairs_view.take(index as int), key@),
                decreases pairs.len() - index,
            {
                proof {
                    assert(pairs_view.take(index + 1).drop_last() == pairs_view.take(
                        index as int,
                    ));
                    assert(pairs_view[index as int] == (
                        pairs@[index as int].0@,
                        pairs@[index as int].1@,
                    ));
                }
                let (existing_key, value) = pairs[index];
                if !existing_key.eq_ignore_ascii_case(key) {
                    let ghost before = entries@;
                    entries.push(raw_vorbis_comment_entry(existing_key, value));
                    assert(texts(entries@) == texts(before).push(
                        raw_entry(existing_key@, value@),
                    ));
                }
                index = index + 1;
            }
            assert(pairs_view.take(index as int) == pairs_view);
        }
        let ghost kept = texts(entries@);
        let ghost added = slice_texts(values@).map_values(
            |value: Seq<char>| raw_entry(key@, value),
        );
        let mut index: usize = 0;
        assert(kept + added.take(0) == kept);
        while index < values.len()
            invariant
                index <= values@.len(),
                added == slice_texts(values@).map_values(
                    |value: Seq<char>| raw_entry(key@, value),
                ),
                texts(entries@) == kept + added.take(index as int),
            decreases values.len() - index,
        {
            let ghost before = entries@;
            entries.push(raw_vorbis_comment_entry(key, values[index]));
            proof {
                assert(added[index as int] == raw_entry(key@, values@[index as int]@));
                assert(texts(entries@) == texts(before).push(added[index as int]));
                assert(kept + added.take(index + 1) == (kept + added.take(index as int)).push(
                    added[index as int],
                ));
            }
            index = index + 1;
        }
        assert(added.take(index as int) == added);
        assert(texts(entries@).len() == entries@.len());
        self.vorbis_comment = if entries.len() == 0 {
            None
        } else {
            Some(VorbisCommentBlock::new(vendor(), entries))
        };
    }

    /// Remove all comment values for one key and return the number removed.
    pub fn remove_comments(&mut self, key: &str) -> (removed: usize)
        ensures
            removed == count_key(comments_of(old(self)@), key@),
            removed == 0 ==> final(self)@ == old(self)@,
            removed > 0 ==> final(self)@ == (MetadataView {
                comments: replaced_comments(old(self)@, key@, Seq::empty()),
                ..editable(old(self)@)
            }),
    {
        let mut removed: usize = 0;
        {
            let pairs = self.comments();
            let ghost pairs_view = comments_of(self@);
            let mut index: usize = 0;
            while index < pairs.len()
                invariant
                    index <= pairs@.len(),
                    removed <= index,
                    pair_texts(pairs@) == pairs_view,
                    removed == count_key(pairs_view.take(index as int), key@),
                decreases pairs.len() - index,
            {
                proof {
                    assert(pairs_view.take(index + 1).drop_last() == pairs_view.take(
                        index as int,
                    ));
                    assert(pairs_view[index as int].0 == pairs@[index as int].0@);
                }
                let (existing_key, _) = pairs[index];
                if existing_key.eq_ignore_ascii_case(key) {
                    removed = removed + 1;
                }
                index = index + 1;
            }
            assert(pairs_view.take(index as int) == pairs_view);
        }
        if removed == 0 {
            return 0;
        }
        let none: Vec<&str> = Vec::new();
        assert(slice_texts(none@) == Seq::<Seq<char>>::empty());
        self.set_comments(key, none.as_slice());
        removed
    }

    /// Return the representable cue-point view currently stored on this metadata.
    #[must_use]
    pub fn cue_points(&self) -> (points: &[u32])
        ensures
            points@ == self@.cue_points,
    {
        self.cue_points.as_slice()
    }

    /// Replace the semantic cue-point list.
    pub fn set_cue_points(&mut self, cue_points: Vec<u32>)
        ensures
            final(self)@ == (MetadataView {
                cue_points: cue_points@,
                ..editable(old(self)@)
            }),
    {
        self.ensure_semantic_editable();
        self.cue_points = cue_points;
    }

    /// Clear the semantic cue-point list.
    pub fn clear_cue_points(&mut self)
        ensures
            final(self)@ == (MetadataView {
                cue_points: Seq::empty(),
                ..editable(old(self)@)
            }),
    {
        self.ensure_semantic_editable();
        self.cue_points = Vec::new();
    }

    /// Return the explicit semantic channel mask when present.
    #[must_use]
    pub fn channel_mask(&self) -> (mask: Option<u32>)
        ensures
            mask == self@.channel_mask,
    {
        self.channel_mask
    }

    /// Set an explicit semantic channel mask.
    pub fn set_channel_mask(&mut self, mask: u32)
        ensures
            final(self)@ == (MetadataView {
                channel_mask: Some(mask),
                provenance: true,
                ..editable(old(self)@)
            }),
    {
        self.ensure_semantic_editable();
        self.channel_mask = Some(mask);
        self.channel_layout_provenance = true;
    }

    /// Clear any explicit semantic channel mask.
    pub fn clear_channel_mask(&mut self)
        ensures
            final(self)@ == (MetadataView { channel_mask: None, ..editable(old(self)@) }),
    {
        self.ensure_semantic_editable();
        self.channel_mask = None;
    }

    /// Return whether the metadata records explicit channel-layout provenance.
    #[must_use]
    pub fn has_channel_layout_provenance(&self) -> (provenance: bool)
        ensures
            provenance == self@.provenance,
    {
        self.channel_layout_provenance
    }

    /// Control the semantic channel-layout provenance flag.
    pub fn set_channel_layout_provenance(&mut self, value: bool)
        ensures
            final(self)@ == (MetadataView { provenance: value, ..editable(old(self)@) }),
    {
        self.ensure_semantic_editable();
        self.channel_layout_provenance = value;
    }

    /// Whether blocks are kept as they were read.
    pub fn has_preserved_bundle(&self) -> (preserved: bool)
        ensures
            preserved == (self@.preserved.len() > 0),
    {
        self.preserved.len() > 0
    }

    /// Whether there are neither blocks nor comments nor cue points.
    pub fn is_empty(&self) -> (empty: bool)
        ensures
            empty == (self@.preserved.len() == 0 && self@.comments is None
                && self@.cue_points.len() == 0),
    {
        self.preserved.len() == 0 && self.vorbis_comment.is_none() && self.cue_points.len() == 0
    }

    /// Lets go of the blocks that were kept as read.
    fn ensure_semantic_editable(&mut self)
        ensures
            final(self)@ == editable(old(self)@),
    {
        if self.preserved.len() > 0 {
            self.preserved = Vec::new();
        }
        assert(self@.preserved == Seq::<BlockView>::empty());
    }

    /// Records the channel mask of a stream, unless blocks are kept as they were
    /// read or the mask is the ordinary one for the channel count.
    pub fn set_channel_mask_for_channels(&mut self, channels: u16, mask: u32)
        ensures
            final(self)@ == if old(self)@.preserved.len() > 0 || ordinary_mask(channels) == Some(
                mask,
            ) {
                old(self)@
            } else {
                MetadataView { channel_mask: Some(mask), provenance: true, ..old(self)@ }
            },
    {
        if self.has_preserved_bundle() {
            return;
        }
        match ordinary_channel_mask(channels) {
            Some(ordinary) => {
                if ordinary == mask {
                    return;
                }
            },
            None => {},
        }
        self.channel_mask = Some(mask);
        self.channel_layout_provenance = true;
    }
}

/// Removing the comments of a key leaves none of that key and keeps every other
/// comment in order, with its key and value.
pub proof fn law_removed_comments_are_gone(metadata: MetadataView, key: Seq<char>)
    ensures
        ({
            let after = MetadataView {
                comments: replaced_comments(metadata, key, Seq::empty()),
                ..editable(metadata)
            };
            &&& count_key(comments_of(after), key) == 0
            &&& comments_of(after) == comments_of(metadata).filter(
                |pair: (Seq<char>, Seq<char>)| !same_name(pair.0, key),
            )
        }),
{
    let pairs = comments_of(metadata);
    let kept = pairs.filter(|pair: (Seq<char>, Seq<char>)| !same_name(pair.0, key));
    let entries = other_entries(pairs, key);
    if let Some(block) = metadata.comments {
        lemma_comment_keys(block.entries);
    }
    lemma_other_entries_split(pairs, key);
    assert(entries + Seq::<Seq<char>>::empty().map_values(
        |value: Seq<char>| raw_entry(key, value),
    ) == entries);
    assert(comment_pairs(entries) == kept);
    lemma_no_key_left(pairs, key);
}

proof fn lemma_comment_keys(entries: Seq<Seq<char>>)
    ensures
        forall|i: int|
            0 <= i < comment_pairs(entries).len() ==> !(#[trigger] comment_pairs(
                entries,
            )[i]).0.contains('=') && !is_layout_key(comment_pairs(entries)[i].0),
    decreases entries.len(),
{
    if entries.len() > 0 {
        lemma_comment_keys(entries.drop_last());
        crate::vorbis::lemma_key_has_no_equals(entries.last());
        let earlier = comment_pairs(entries.drop_last());
        let pairs = comment_pairs(entries);
        assert forall|i: int| 0 <= i < pairs.len() implies !(#[trigger] pairs[i]).0.contains('=')
            && !is_layout_key(pairs[i].0) by {
            if i < earlier.len() {
                assert(pairs[i] == earlier[i]);
            }
        }
    }
}

proof fn lemma_other_entries_split(pairs: Seq<(Seq<char>, Seq<char>)>, key: Seq<char>)
    requires
        forall|i: int| 0 <= i < pairs.len() ==> !(#[trigger] pairs[i]).0.contains('='),
        forall|i: int| 0 <= i < pairs.len() ==> !is_layout_key((#[trigger] pairs[i]).0),
    ensures
        comment_pairs(other_entries(pairs, key)) == pairs.filter(
            |pair: (Seq<char>, Seq<char>)| !same_name(pair.0, key),
        ),
    decreases pairs.len(),
{
    reveal(Seq::filter);
    let keep = |pair: (Seq<char>, Seq<char>)| !same_name(pair.0, key);
    if pairs.len() > 0 {
        let earlier = pairs.drop_last();
        assert forall|i: int| 0 <= i < earlier.len() implies !(#[trigger] earlier[i]).0.contains(
            '=',
        ) && !is_layout_key(earlier[i].0) by {
            assert(earlier[i] == pairs[i]);
        }
        lemma_other_entries_split(earlier, key);
        let last = pairs[pairs.len() - 1];
        if keep(last) {
            assert forall|i: int| 0 <= i < last.0.len() implies last.0[i] != '=' by {
                if last.0[i] == '=' {
                    assert(last.0.contains('='));
                }
            }
            crate::vorbis::law_entry_splits_back(last.0, last.1);
            let entries = other_entries(pairs, key);
            assert(entries.drop_last() == other_entries(earlier, key));
            assert(entries.last() == raw_entry(last.0, last.1));
            assert((last.0, last.1) == last);
        }
    }
}

proof fn lemma_no_key_left(pairs: Seq<(Seq<char>, Seq<char>)>, key: Seq<char>)
    ensures
        count_key(
            pairs.filter(|pair: (Seq<char>, Seq<char>)| !same_name(pair.0, key)),
            key,
        ) == 0,
    decreases pairs.len(),
{
    reveal(Seq::filter);
    let keep = |pair: (Seq<char>, Seq<char>)| !same_name(pair.0, key);
    if pairs.len() > 0 {
        lemma_no_key_left(pairs.drop_last(), key);
        let kept = pairs.filter(keep);
        if keep(pairs.last()) {
            assert(kept.drop_last() == pairs.drop_last().filter(keep));
        }
    }
}

proof fn lemma_pairs_concat(left: Seq<Seq<char>>, right: Seq<Seq<char>>)
    ensures
        comment_pairs(left + right) == comment_pairs(left) + comment_pairs(right),
    decreases right.len(),
{
    let whole = left + right;
    if right.len() == 0 {
        assert(whole == left);
    } else {
        lemma_pairs_concat(left, right.drop_last());
        assert(whole.drop_last() == left + right.drop_last());
        assert(whole.last() == right.last());
        assert(comment_pairs(whole) == comment_pairs(left) + comment_pairs(right));
    }
}

proof fn lemma_value_pairs(key: Seq<char>, values: Seq<Seq<char>>)
    requires
        !key.contains('='),
        !is_layout_key(key),
    ensures
        comment_pairs(values.map_values(|value: Seq<char>| raw_entry(key, value)))
            == values.map_values(|value: Seq<char>| (key, value)),
    decreases values.len(),
{
    let entries = values.map_values(|value: Seq<char>| raw_entry(key, value));
    if values.len() > 0 {
        let earlier = values.drop_last();
        lemma_value_pairs(key, earlier);
        assert(entries.drop_last() == earlier.map_values(
            |value: Seq<char>| raw_entry(key, value),
        ));
        assert(entries.last() == raw_entry(key, values.last()));
        assert forall|i: int| 0 <= i < key.len() implies key[i] != '=' by {
            if key[i] == '=' {
                assert(key.contains('='));
            }
        }
        crate::vorbis::law_entry_splits_back(key, values.last());
        assert(comment_pairs(entries) == values.map_values(|value: Seq<char>| (key, value)));
    } else {
        assert(comment_pairs(entries) == values.map_values(|value: Seq<char>| (key, value)));
    }
}

/// Setting the comments of a key replaces the comments of that key by the new
/// values and keeps every other comment in order.
pub proof fn law_set_comments_are_read_back(
    metadata: MetadataView,
    key: Seq<char>,
    values: Seq<Seq<char>>,
)
    requires
        !key.contains('='),
        !is_layout_key(key),
    ensures
        ({
            let after = MetadataView {
                comments: replaced_comments(metadata, key, values),
                ..editable(metadata)
            };
            comments_of(after) == comments_of(metadata).filter(
                |pair: (Seq<char>, Seq<char>)| !same_name(pair.0, key),
            ) + values.map_values(|value: Seq<char>| (key, value))
        }),
{
    let pairs = comments_of(metadata);
    let kept = other_entries(pairs, key);
    let added = values.map_values(|value: Seq<char>| raw_entry(key, value));
    if let Some(block) = metadata.comments {
        lemma_comment_keys(block.entries);
    }
    lemma_other_entries_split(pairs, key);
    lemma_pairs_concat(kept, added);
    lemma_value_pairs(key, values);
    if (kept + added).len() == 0 {
        assert(comment_pairs(kept) == Seq::<(Seq<char>, Seq<char>)>::empty());
        assert(comment_pairs(added) == Seq::<(Seq<char>, Seq<char>)>::empty());
    }
}

/// A comment block with one more entry; without a block one is made.
pub open spec fn with_entry(block: Option<VorbisView>, entry: Seq<char>) -> Option<VorbisView> {
    match block {
        Some(found) => Some(
            VorbisView { vendor: found.vendor, entries: found.entries.push(entry) },
        ),
        None => Some(VorbisView { vendor: vendor_text(), entries: seq![entry] }),
    }
}

/// The value of a channel mask comment.
pub open spec fn mask_text(mask: u32) -> Seq<char> {
    "0x"@ + hex_digits(mask as nat, 8)
}

/// The comment block with the channel layout recorded in it.
pub open spec fn comments_with_layout(metadata: MetadataView) -> Option<VorbisView> {
    let masked = match metadata.channel_mask {
        Some(mask) => with_entry(metadata.comments, raw_entry(mask_key(), mask_text(mask))),
        None => metadata.comments,
    };
    if metadata.provenance {
        with_entry(masked, raw_entry(provenance_key(), "1"@))
    } else {
        masked
    }
}

/// Cue points as 64-bit numbers.
pub open spec fn wide_points(points: Seq<u32>) -> Seq<u64> {
    points.map_values(|point: u32| point as u64)
}

/// The metadata blocks of a FLAC stream: the blocks that were kept as read, or else
/// the comments with the channel layout and the cue points.
pub open spec fn flac_block_views(metadata: MetadataView, total_samples: u64) -> Seq<BlockView> {
    if metadata.preserved.len() > 0 {
        metadata.preserved
    } else {
        let comments = match comments_with_layout(metadata) {
            Some(block) => seq![
                BlockView {
                    block_type: VORBIS_COMMENT_BLOCK_TYPE,
                    payload: vorbis_payload(block),
                },
            ],
            None => Seq::empty(),
        };
        let cues = match cuesheet_for(wide_points(metadata.cue_points), total_samples) {
            Some(payload) => seq![BlockView { block_type: CUESHEET_BLOCK_TYPE, payload }],
            None => Seq::empty(),
        };
        comments + cues
    }
}

/// A copy of a comment block.
fn copy_block(block: &VorbisCommentBlock) -> (copy: VorbisCommentBlock)
    ensures
        copy@ == block@,
{
    let mut entries: Vec<String> = Vec::new();
    let mut index: usize = 0;
    while index < block.entries.len()
        invariant
            index <= block.entries@.len(),
            entries@.len() == index,
            forall|i: int| 0 <= i < index ==> #[trigger] entries@[i]@ == block.entries@[i]@,
        decreases block.entries.len() - index,
    {
        entries.push(block.entries[index].clone());
        index = index + 1;
    }
    let copy = VorbisCommentBlock { vendor: block.vendor.clone(), entries };
    assert(copy@.entries == block@.entries);
    copy
}

/// A comment block with one more entry.
fn add_entry(block: Option<VorbisCommentBlock>, entry: String) -> (result: Option<
    VorbisCommentBlock,
>)
    ensures
        result matches Some(found) && Some(found@) == with_entry(
            match block {
                Some(given) => Some(given@),
                None => None,
            },
            entry@,
        ),
{
    match block {
        Some(mut found) => {
            found.push_entry(entry);
            Some(found)
        },
        None => {
            let mut entries: Vec<String> = Vec::new();
            entries.push(entry);
            assert(texts(entries@) == seq![entry@]);
            Some(VorbisCommentBlock::new(vendor(), entries))
        },
    }
}

/// The value of a channel mask comment.
pub fn format_channel_mask(mask: u32) -> (text: String)
    ensures
        text@ == mask_text(mask),
{
    let mut text = "0x".to_owned();
    append_hex(&mut text, mask, 8);
    text
}

/// The mask that the value of a channel mask comment stands for: hexadecimal
/// digits after `0x`, with known speaker positions only.
pub open spec fn comment_mask(value: Seq<char>, channels: u8) -> std::result::Result<u32, ErrorView> {
    let bytes = encode_utf8(value);
    if bytes.len() < 2 || bytes[0] != 0x30 || (bytes[1] != 0x78 && bytes[1] != 0x58) {
        Err(
            ErrorView::InvalidFlac(
                "WAVEFORMATEXTENSIBLE_CHANNEL_MASK is not a hexadecimal number"@,
            ),
        )
    } else {
        match hex_value(bytes.skip(2)) {
            None => Err(
                ErrorView::InvalidFlac(
                    "WAVEFORMATEXTENSIBLE_CHANNEL_MASK is not a hexadecimal number"@,
                ),
            ),
            Some(mask) => if mask > MAX_CHANNEL_MASK {
                Err(
                    ErrorView::InvalidFlac(
                        "WAVEFORMATEXTENSIBLE_CHANNEL_MASK holds unsupported speaker bits"@,
                    ),
                )
            } else if mask != 0 && !mask_is_supported(channels as u16, mask) {
                Err(
                    ErrorView::InvalidFlac(
                        "WAVEFORMATEXTENSIBLE_CHANNEL_MASK does not match the channel count"@,
                    ),
                )
            } else {
                Ok(mask)
            },
        }
    }
}

/// Reads the value of a channel mask comment: known speaker positions, one for each channel
/// or none at all.
pub fn parse_channel_mask_comment(value: &str, channels: u8) -> (mask: Result<u32>)
    ensures
        match comment_mask(value@, channels) {
            Ok(expected) => mask == Ok::<u32, Error>(expected),
            Err(expected) => mask matches Err(error) && error@ == expected,
        },
{
    let bytes = value.as_bytes();
    if bytes.len() < 2 || bytes[0] != 0x30 || (bytes[1] != 0x78 && bytes[1] != 0x58) {
        return Err(
            Error::InvalidFlac("WAVEFORMATEXTENSIBLE_CHANNEL_MASK is not a hexadecimal number"),
        );
    }
    let digits = vstd::slice::slice_subrange(bytes, 2, bytes.len());
    assert(digits@ == bytes@.skip(2));
    match parse_hex(digits) {
        None => Err(
            Error::InvalidFlac("WAVEFORMATEXTENSIBLE_CHANNEL_MASK is not a hexadecimal number"),
        ),
        Some(mask) => {
            if mask > MAX_CHANNEL_MASK {
                Err(
                    Error::InvalidFlac(
                        "WAVEFORMATEXTENSIBLE_CHANNEL_MASK holds unsupported speaker bits",
                    ),
                )
            } else if mask != 0 && !is_supported_channel_mask(channels as u16, mask) {
                Err(
                    Error::InvalidFlac(
                        "WAVEFORMATEXTENSIBLE_CHANNEL_MASK does not match the channel count",
                    ),
                )
            } else {
                Ok(mask)
            }
        },
    }
}

/// What the entries of a comment block say of the channel layout.
pub struct LayoutView {
    pub channel_mask: Option<u32>,
    pub provenance: bool,
}

/// The channel layout once an entry has been read, or why it cannot be read.
pub open spec fn layout_after(layout: LayoutView, entry: Seq<char>, channels: u8) -> std::result::Result<
    LayoutView,
    ErrorView,
> {
    match entry_parts(entry) {
        None => Ok(layout),
        Some((key, value)) => if same_name(key, mask_key()) {
            match comment_mask(value, channels) {
                Ok(mask) => Ok(
                    LayoutView { channel_mask: Some(mask), provenance: layout.provenance },
                ),
                Err(error) => Err(error),
            }
        } else if same_name(key, provenance_key()) {
            if value == "1"@ {
                Ok(LayoutView { channel_mask: layout.channel_mask, provenance: true })
            } else {
                Err(
                    ErrorView::InvalidFlac(
                        "FLACX_CHANNEL_LAYOUT_PROVENANCE holds an unsupported value"@,
                    ),
                )
            }
        } else {
            Ok(layout)
        },
    }
}

/// The channel layout once entries have been read, or why it cannot be read.
pub open spec fn layout_of_entries(layout: LayoutView, entries: Seq<Seq<char>>, channels: u8)
    -> std::result::Result<LayoutView, ErrorView>
    decreases entries.len(),
{
    if entries.len() == 0 {
        Ok(layout)
    } else {
        match layout_of_entries(layout, entries.drop_last(), channels) {
            Err(error) => Err(error),
            Ok(earlier) => layout_after(earlier, entries.last(), channels),
        }
    }
}

proof fn lemma_layout_fails(layout: LayoutView, entries: Seq<Seq<char>>, count: int, channels: u8)
    requires
        0 <= count <= entries.len(),
        layout_of_entries(layout, entries.take(count), channels) is Err,
    ensures
        layout_of_entries(layout, entries, channels) == layout_of_entries(layout, entries.take(count), channels),
    decreases entries.len(),
{
    if count < entries.len() {
        assert(entries.drop_last().take(count) == entries.take(count));
        lemma_layout_fails(layout, entries.drop_last(), count, channels);
    } else {
        assert(entries.take(count) == entries);
    }
}

/// Metadata once a block of a FLAC stream has been read, or why the block cannot
/// be read. The block is kept as it is; comments and cue points are read from it.
pub open spec fn with_flac_block(
    metadata: MetadataView,
    block_type: u8,
    payload: Seq<u8>,
    total_samples: u64,
    channels: u8,
) -> std::result::Result<MetadataView, ErrorView> {
    let kept = MetadataView {
        preserved: metadata.preserved.push(BlockView { block_type, payload }),
        ..metadata
    };
    if block_type == VORBIS_COMMENT_BLOCK_TYPE {
        match vorbis_block(payload) {
            None => Ok(kept),
            Some(block) => match layout_of_entries(
                LayoutView { channel_mask: kept.channel_mask, provenance: kept.provenance },
                block.entries,
                channels,
            ) {
                Err(error) => Err(error),
                Ok(layout) => Ok(
                    MetadataView {
                        comments: Some(block),
                        channel_mask: layout.channel_mask,
                        provenance: layout.provenance,
                        ..kept
                    },
                ),
            },
        }
    } else if block_type == CUESHEET_BLOCK_TYPE {
        Ok(MetadataView { cue_points: cue_points_of(payload, total_samples), ..kept })
    } else {
        Ok(kept)
    }
}

/// Whether a comment value is the digit one.
fn is_one(value: &str) -> (one: bool)
    ensures
        one == (value@ == "1"@),
{
    proof {
        reveal_strlit("1");
    }
    let one = value.unicode_len() == 1 && value.get_char(0) == '1';
    assert(one ==> value@ == "1"@);
    one
}

impl Metadata {
    /// The metadata blocks of a FLAC stream.
    pub fn flac_blocks(&self, total_samples: u64) -> (blocks: Vec<FlacMetadataBlock>)
        ensures
            block_views(blocks@) == flac_block_views(self@, total_samples),
    {
        let mut blocks: Vec<FlacMetadataBlock> = Vec::new();
        if self.preserved.len() > 0 {
            let mut index: usize = 0;
            while index < self.preserved.len()
                invariant
                    index <= self.preserved@.len(),
                    block_views(blocks@) == self@.preserved.take(index as int),
                decreases self.preserved.len() - index,
            {
                let ghost before = blocks@;
                let block = FlacMetadataBlock::Raw {
                    block_type: self.preserved[index].block_type,
                    payload: slice_to_vec(self.preserved[index].payload.as_slice()),
                };
                blocks.push(block);
                proof {
                    assert(self@.preserved[index as int] == block@);
                    assert(block_views(blocks@) == block_views(before).push(block@));
                    assert(self@.preserved.take(index + 1) == self@.preserved.take(
                        index as int,
                    ).push(block@));
                }
                index = index + 1;
            }
            assert(self@.preserved.take(index as int) == self@.preserved);
            return blocks;
        }
        let mut comments: Option<VorbisCommentBlock> = match &self.vorbis_comment {
            Some(block) => Some(copy_block(block)),
            None => None,
        };
        match self.channel_mask {
            Some(mask) => {
                comments = add_entry(
                    comments,
                    raw_vorbis_comment_entry(
                        "WAVEFORMATEXTENSIBLE_CHANNEL_MASK",
                        format_channel_mask(mask).as_str(),
                    ),
                );
            },
            None => {},
        }
        if self.channel_layout_provenance {
            comments = add_entry(
                comments,
                raw_vorbis_comment_entry("FLACX_CHANNEL_LAYOUT_PROVENANCE", "1"),
            );
        }
        match comments {
            Some(block) => {
                blocks.push(FlacMetadataBlock::VorbisComment(block));
            },
            None => {},
        }
        let ghost first = block_views(blocks@);
        let mut points: Vec<u64> = Vec::new();
        let mut index: usize = 0;
        while index < self.cue_points.len()
            invariant
                index <= self.cue_points@.len(),
                points@.len() == index,
                forall|i: int| 0 <= i < index ==> #[trigger] points@[i] == self.cue_points@[i],
            decreases self.cue_points.len() - index,
        {
            points.push(self.cue_points[index] as u64);
            index = index + 1;
        }
        assert(points@ == wide_points(self@.cue_points));
        match build_cuesheet(points.as_slice(), total_samples) {
            Some(payload) => {
                blocks.push(FlacMetadataBlock::CueSheet(payload));
            },
            None => {},
        }
        assert(block_views(blocks@) == flac_block_views(self@, total_samples));
        blocks
    }

    /// Reads a metadata block of a FLAC stream. What the metadata holds after a
    /// failure is left open.
    pub fn ingest_flac_metadata_block(
        &mut self,
        block_type: u8,
        payload: &[u8],
        total_samples: u64,
        channels: u8,
    ) -> (result: Result<()>)
        ensures
            match with_flac_block(old(self)@, block_type, payload@, total_samples, channels) {
                Ok(expected) => result is Ok && final(self)@ == expected,
                Err(expected) => result matches Err(error) && error@ == expected,
            },
    {
        let ghost before = self.preserved@;
        self.preserved.push(PreservedBlock { block_type, payload: slice_to_vec(payload) });
        assert(preserved_views(self.preserved@) == preserved_views(before).push(
            BlockView { block_type, payload: payload@ },
        ));
        if block_type == VORBIS_COMMENT_BLOCK_TYPE {
            return self.ingest_vorbis_comment_payload(payload, channels);
        }
        if block_type == CUESHEET_BLOCK_TYPE {
            self.cue_points = cue_points_from_cuesheet_payload(payload, total_samples);
        }
        Ok(())
    }

    /// Reads a comment block and what it says of the channel layout.
    fn ingest_vorbis_comment_payload(&mut self, payload: &[u8], channels: u8) -> (result: Result<()>)
        ensures
            match vorbis_block(payload@) {
                None => result is Ok && final(self)@ == old(self)@,
                Some(block) => match layout_of_entries(
                    LayoutView {
                        channel_mask: old(self)@.channel_mask,
                        provenance: old(self)@.provenance,
                    },
                    block.entries,
                    channels,
                ) {
                    Err(expected) => result matches Err(error) && error@ == expected,
                    Ok(layout) => result is Ok && final(self)@ == (MetadataView {
                        comments: Some(block),
                        channel_mask: layout.channel_mask,
                        provenance: layout.provenance,
                        ..old(self)@
                    }),
                },
            },
    {
        let block = match VorbisCommentBlock::from_flac_payload(payload) {
            Some(block) => block,
            None => return Ok(()),
        };
        let ghost start = LayoutView {
            channel_mask: self@.channel_mask,
            provenance: self@.provenance,
        };
        let ghost entries = block@.entries;
        let mut mask: Option<u32> = self.channel_mask;
        let mut provenance: bool = self.channel_layout_provenance;
        let mut index: usize = 0;
        while index < block.entries.len()
            invariant
                index <= block.entries@.len(),
                entries == block@.entries,
                vorbis_block(payload@) == Some(block@),
                start == (LayoutView {
                    channel_mask: old(self)@.channel_mask,
                    provenance: old(self)@.provenance,
                }),
                self@ == old(self)@,
                layout_of_entries(start, entries.take(index as int), channels) == Ok::<
                    LayoutView,
                    ErrorView,
                >(LayoutView { channel_mask: mask, provenance }),
            decreases block.entries.len() - index,
        {
            let ghost next = entries.take(index + 1);
            proof {
                assert(next.drop_last() == entries.take(index as int));
                assert(next.last() == block.entries@[index as int]@);
                if layout_of_entries(start, next, channels) is Err {
                    lemma_layout_fails(start, entries, index + 1, channels);
                }
            }
            match split_vorbis_comment_entry(block.entries[index].as_str()) {
                Some((key, value)) => {
                    if key.eq_ignore_ascii_case("WAVEFORMATEXTENSIBLE_CHANNEL_MASK") {
                        match parse_channel_mask_comment(value, channels) {
                            Ok(found) => {
                                mask = Some(found);
                            },
                            Err(error) => return Err(error),
                        }
                    } else if key.eq_ignore_ascii_case("FLACX_CHANNEL_LAYOUT_PROVENANCE") {
                        if is_one(value) {
                            provenance = true;
                        } else {
                            return Err(
                                Error::InvalidFlac(
                                    "FLACX_CHANNEL_LAYOUT_PROVENANCE holds an unsupported value",
                                ),
                            );
                        }
                    }
                },
                None => {},
            }
            index = index + 1;
        }
        assert(entries.take(index as int) == entries);
        self.vorbis_comment = Some(block);
        self.channel_mask = mask;
        self.channel_layout_provenance = provenance;
        Ok(())
    }
}

/// The INFO chunk that carries a comment key.
pub open spec fn info_chunk_id(key: Seq<char>) -> Option<Seq<u8>> {
    if same_name(key, "ARTIST"@) {
        Some(IART@)
    } else if same_name(key, "COMMENT"@) {
        Some(ICMT@)
    } else if same_name(key, "COPYRIGHT"@) {
        Some(ICOP@)
    } else if same_name(key, "DATE"@) {
        Some(ICRD@)
    } else if same_name(key, "GENRE"@) {
        Some(IGNR@)
    } else if same_name(key, "TITLE"@) {
        Some(INAM@)
    } else if same_name(key, "ALBUM"@) {
        Some(IPRD@)
    } else if same_name(key, "ENCODER"@) {
        Some(ISFT@)
    } else if same_name(key, "TRACKNUMBER"@) {
        Some(ITRK@)
    } else {
        None
    }
}

/// The INFO chunk that carries a comment key.
pub fn wav_info_chunk_id_for_vorbis_key(key: &str) -> (id: Option<FourCc>)
    ensures
        match id {
            Some(found) => info_chunk_id(key@) == Some(found@),
            None => info_chunk_id(key@) is None,
        },
{
    if key.eq_ignore_ascii_case("ARTIST") {
        Some(IART)
    } else if key.eq_ignore_ascii_case("COMMENT") {
        Some(ICMT)
    } else if key.eq_ignore_ascii_case("COPYRIGHT") {
        Some(ICOP)
    } else if key.eq_ignore_ascii_case("DATE") {
        Some(ICRD)
    } else if key.eq_ignore_ascii_case("GENRE") {
        Some(IGNR)
    } else if key.eq_ignore_ascii_case("TITLE") {
        Some(INAM)
    } else if key.eq_ignore_ascii_case("ALBUM") {
        Some(IPRD)
    } else if key.eq_ignore_ascii_case("ENCODER") {
        Some(ISFT)
    } else if key.eq_ignore_ascii_case("TRACKNUMBER") {
        Some(ITRK)
    } else {
        None
    }
}

/// A RIFF chunk: identifier, little-endian length and payload, padded to an even
/// size.
pub open spec fn riff_chunk(id: Seq<u8>, payload: Seq<u8>) -> Seq<u8> {
    id + le_bytes(payload.len(), 4) + payload + if payload.len() % 2 == 0 {
        Seq::empty()
    } else {
        seq![0u8]
    }
}

/// Appends a RIFF chunk.
pub fn append_chunk_payload(payload: &mut Vec<u8>, id: &FourCc, value: &[u8])
    ensures
        final(payload)@ == old(payload)@ + riff_chunk(id@, value@),
{
    append_bytes(payload, id.as_slice());
    push_le_bytes(payload, value.len() as u64, 4);
    append_bytes(payload, value);
    if value.len() % 2 != 0 {
        payload.push(0);
    }
    assert(payload@ == old(payload)@ + riff_chunk(id@, value@));
}

/// The INFO chunk of an entry: none without a known key or with an empty value.
pub open spec fn entry_chunk(entry: Seq<char>) -> Option<Seq<u8>> {
    match entry_parts(entry) {
        None => None,
        Some((key, value)) => match info_chunk_id(key) {
            None => None,
            Some(id) => if value.len() == 0 {
                None
            } else {
                Some(riff_chunk(id, encode_utf8(value)))
            },
        },
    }
}

/// The INFO chunks of entries, one after the other, and their number.
pub open spec fn entry_chunks(entries: Seq<Seq<char>>) -> (Seq<u8>, nat)
    decreases entries.len(),
{
    if entries.len() == 0 {
        (Seq::empty(), 0)
    } else {
        let earlier = entry_chunks(entries.drop_last());
        match entry_chunk(entries.last()) {
            Some(chunk) => (earlier.0 + chunk, earlier.1 + 1),
            None => earlier,
        }
    }
}

/// The payload of a LIST chunk with the comments of metadata, if it would hold any.
pub open spec fn list_info_payload(metadata: MetadataView) -> Option<Seq<u8>> {
    match metadata.comments {
        None => None,
        Some(block) => {
            let chunks = entry_chunks(block.entries);
            if chunks.1 == 0 {
                None
            } else {
                Some(INFO_LIST_TYPE@ + chunks.0)
            }
        },
    }
}

/// A cue point in a cue chunk.
pub open spec fn cue_entry(index: nat, offset: u32) -> Seq<u8> {
    le_bytes(index, 4) + le_bytes(0, 4) + DATA_ID@ + le_bytes(0, 4) + le_bytes(0, 4) + le_bytes(
        offset as nat,
        4,
    )
}

/// The cue points of a cue chunk, one after the other.
pub open spec fn cue_entries(points: Seq<u32>) -> Seq<u8>
    decreases points.len(),
{
    if points.len() == 0 {
        Seq::empty()
    } else {
        cue_entries(points.drop_last()) + cue_entry((points.len() - 1) as nat, points.last())
    }
}

/// The payload of a cue chunk, if there are cue points.
pub open spec fn cue_payload(points: Seq<u32>) -> Option<Seq<u8>> {
    if points.len() == 0 {
        None
    } else {
        Some(le_bytes(points.len(), 4) + cue_entries(points))
    }
}

impl Metadata {
    /// The payload of a LIST chunk with the comments, if it would hold any.
    pub fn list_info_chunk_payload(&self) -> (payload: Option<Vec<u8>>)
        ensures
            match payload {
                Some(bytes) => list_info_payload(self@) == Some(bytes@),
                None => list_info_payload(self@) is None,
            },
    {
        let block = match &self.vorbis_comment {
            Some(block) => block,
            None => return None,
        };
        let ghost entries = block@.entries;
        let mut payload: Vec<u8> = Vec::new();
        append_bytes(&mut payload, INFO_LIST_TYPE.as_slice());
        let mut found = false;
        let mut index: usize = 0;
        assert(payload@ == INFO_LIST_TYPE@ + entry_chunks(entries.take(0)).0);
        while index < block.entries.len()
            invariant
                index <= block.entries@.len(),
                entries == block@.entries,
                payload@ == INFO_LIST_TYPE@ + entry_chunks(entries.take(index as int)).0,
                found == (entry_chunks(entries.take(index as int)).1 > 0),
            decreases block.entries.len() - index,
        {
            let ghost next = entries.take(index + 1);
            let ghost before = payload@;
            proof {
                assert(next.drop_last() == entries.take(index as int));
                assert(next.last() == block.entries@[index as int]@);
            }
            match split_vorbis_comment_entry(block.entries[index].as_str()) {
                Some((key, value)) => {
                    match wav_info_chunk_id_for_vorbis_key(key) {
                        Some(id) => {
                            if !value.is_empty() {
                                append_chunk_payload(&mut payload, &id, value.as_bytes());
                                found = true;
                                assert(before + riff_chunk(id@, encode_utf8(value@))
                                    == INFO_LIST_TYPE@ + (entry_chunks(next.drop_last()).0
                                    + riff_chunk(id@, encode_utf8(value@))));
                            }
                        },
                        None => {},
                    }
                },
                None => {},
            }
            index = index + 1;
        }
        assert(entries.take(index as int) == entries);
        if found {
            Some(payload)
        } else {
            None
        }
    }

    /// The payload of a cue chunk, if there are cue points.
    pub fn cue_chunk_payload(&self) -> (payload: Option<Vec<u8>>)
        ensures
            match payload {
                Some(bytes) => cue_payload(self@.cue_points) == Some(bytes@),
                None => cue_payload(self@.cue_points) is None,
            },
    {
        if self.cue_points.len() == 0 {
            return None;
        }
        let ghost points = self@.cue_points;
        let mut payload: Vec<u8> = Vec::new();
        push_le_bytes(&mut payload, self.cue_points.len() as u64, 4);
        let ghost head = le_bytes(points.len(), 4);
        let mut index: usize = 0;
        assert(payload@ == head + cue_entries(points.take(0)));
        while index < self.cue_points.len()
            invariant
                index <= self.cue_points@.len(),
                points == self.cue_points@,
                payload@ == head + cue_entries(points.take(index as int)),
            decreases self.cue_points.len() - index,
        {
            let ghost before = payload@;
            push_le_bytes(&mut payload, index as u64, 4);
            push_le_bytes(&mut payload, 0, 4);
            append_bytes(&mut payload, DATA_ID.as_slice());
            push_le_bytes(&mut payload, 0, 4);
            push_le_bytes(&mut payload, 0, 4);
            push_le_bytes(&mut payload, self.cue_points[index] as u64, 4);
            proof {
                let next = points.take(index + 1);
                assert(next.drop_last() == points.take(index as int));
                assert(payload@ == before + cue_entry(index as nat, points[index as int]));
                assert(payload@ == head + cue_entries(next));
            }
            index = index + 1;
        }
        assert(points.take(index as int) == points);
        Some(payload)
    }
}

} // verus!
