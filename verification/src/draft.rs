//! Gathering metadata from the chunks of a RIFF/WAVE file.

use vstd::prelude::*;
use vstd::slice::{slice_subrange, slice_to_vec};
use vstd::utf8::{decode_utf8, valid_utf8};

use crate::error::{ErrorView, Result};
use crate::fourcc::{is_id, FourCc};
use crate::fxmd::{blocks_of_fxmd, carried_blocks};
use crate::metadata::{made_block, preserved_views, BlockView, Metadata, MetadataView, PreservedBlock, IART, ICMT, ICOP, ICRD, IGNR, INAM, IPRD, ISFT, ITRK};
use crate::riff_chunks::{chunk_views, cue_points_in, info_chunks, parse_wav_cue_chunk_payload, parse_wav_info_chunk_payload, text_views, ChunkView, InfoText, InfoTextView};
use crate::vorbis::{raw_entry, raw_vorbis_comment_entry, texts, utf8_string};
use crate::wav::{CUE_ID, FXMD_ID, LIST_ID};

verus! {

/// How the `fxmd` chunk is treated: whether it is read, and whether one that cannot be
/// read is an error.
#[derive(Debug, Clone, Copy, PartialEq, Eq, Structural)]
pub struct FxmdChunkPolicy {
    pub capture: bool,
    pub strict: bool,
}

/// The number of INFO chunks that stand for comments.
pub const INFO_KINDS: usize = 9;

/// The INFO chunks that stand for comments, in the order in which comments are made of them.
pub open spec fn info_kind_id(kind: int) -> Seq<u8> {
    if kind == 0 {
        IART@
    } else if kind == 1 {
        ICMT@
    } else if kind == 2 {
        ICOP@
    } else if kind == 3 {
        ICRD@
    } else if kind == 4 {
        IGNR@
    } else if kind == 5 {
        INAM@
    } else if kind == 6 {
        IPRD@
    } else if kind == 7 {
        ISFT@
    } else {
        ITRK@
    }
}

/// The comment keys of INFO chunks.
pub open spec fn info_kind_key(kind: int) -> Seq<char> {
    if kind == 0 {
        "ARTIST"@
    } else if kind == 1 {
        "COMMENT"@
    } else if kind == 2 {
        "COPYRIGHT"@
    } else if kind == 3 {
        "DATE"@
    } else if kind == 4 {
        "GENRE"@
    } else if kind == 5 {
        "TITLE"@
    } else if kind == 6 {
        "ALBUM"@
    } else if kind == 7 {
        "ENCODER"@
    } else {
        "TRACKNUMBER"@
    }
}

fn kind_id(kind: usize) -> (id: FourCc)
    ensures
        id@ == info_kind_id(kind as int),
{
    if kind == 0 {
        IART
    } else if kind == 1 {
        ICMT
    } else if kind == 2 {
        ICOP
    } else if kind == 3 {
        ICRD
    } else if kind == 4 {
        IGNR
    } else if kind == 5 {
        INAM
    } else if kind == 6 {
        IPRD
    } else if kind == 7 {
        ISFT
    } else {
        ITRK
    }
}

fn kind_key(kind: usize) -> (key: &'static str)
    ensures
        key@ == info_kind_key(kind as int),
{
    if kind == 0 {
        "ARTIST"
    } else if kind == 1 {
        "COMMENT"
    } else if kind == 2 {
        "COPYRIGHT"
    } else if kind == 3 {
        "DATE"
    } else if kind == 4 {
        "GENRE"
    } else if kind == 5 {
        "TITLE"
    } else if kind == 6 {
        "ALBUM"
    } else if kind == 7 {
        "ENCODER"
    } else {
        "TRACKNUMBER"
    }
}

/// Bytes without the zeros at their end.
pub open spec fn unterminated(bytes: Seq<u8>) -> Seq<u8>
    decreases bytes.len(),
{
    if bytes.len() > 0 && bytes.last() == 0 {
        unterminated(bytes.drop_last())
    } else {
        bytes
    }
}

/// The text of an INFO chunk, if it holds one.
pub open spec fn chunk_text(chunk: ChunkView) -> Option<InfoTextView> {
    let bytes = unterminated(chunk.payload);
    if bytes.len() > 0 && valid_utf8(bytes) {
        Some(InfoTextView { id: chunk.id, value: decode_utf8(bytes) })
    } else {
        None
    }
}

/// The texts of INFO chunks.
pub open spec fn chunk_texts(chunks: Seq<ChunkView>) -> Seq<InfoTextView>
    decreases chunks.len(),
{
    if chunks.len() == 0 {
        Seq::empty()
    } else {
        match chunk_text(chunks.last()) {
            Some(text) => chunk_texts(chunks.drop_last()).push(text),
            None => chunk_texts(chunks.drop_last()),
        }
    }
}

/// What has been gathered so far.
pub struct DraftView {
    pub texts: Seq<InfoTextView>,
    pub cue_points: Seq<u32>,
    pub preserved: Seq<BlockView>,
}

/// What has been gathered once a chunk has been read, or why it cannot be read.
pub open spec fn drafted(
    draft: DraftView,
    id: Seq<u8>,
    payload: Seq<u8>,
    policy: FxmdChunkPolicy,
) -> std::result::Result<DraftView, ErrorView> {
    if id == LIST_ID@ {
        match info_chunks(payload) {
            None => Ok(draft),
            Some(chunks) => Ok(
                DraftView { texts: draft.texts + chunk_texts(chunks), ..draft },
            ),
        }
    } else if id == CUE_ID@ {
        match cue_points_in(payload) {
            None => Ok(draft),
            Some(points) => Ok(DraftView { cue_points: draft.cue_points + points, ..draft }),
        }
    } else if id == FXMD_ID@ && policy.capture {
        match carried_blocks(payload) {
            Ok(blocks) => Ok(DraftView { preserved: blocks, ..draft }),
            Err(error) => if policy.strict {
                Err(error)
            } else {
                Ok(draft)
            },
        }
    } else {
        Ok(draft)
    }
}

/// The comments of texts with an identifier.
pub open spec fn entries_with(texts: Seq<InfoTextView>, id: Seq<u8>, key: Seq<char>) -> Seq<
    Seq<char>,
>
    decreases texts.len(),
{
    if texts.len() == 0 {
        Seq::empty()
    } else if texts.last().id == id {
        entries_with(texts.drop_last(), id, key).push(raw_entry(key, texts.last().value))
    } else {
        entries_with(texts.drop_last(), id, key)
    }
}

/// The comments of texts, one kind of INFO chunk after the other.
pub open spec fn draft_entries(texts: Seq<InfoTextView>, kinds: nat) -> Seq<Seq<char>>
    decreases kinds,
{
    if kinds == 0 {
        Seq::empty()
    } else {
        draft_entries(texts, (kinds - 1) as nat) + entries_with(
            texts,
            info_kind_id(kinds - 1),
            info_kind_key(kinds - 1),
        )
    }
}

/// The metadata that has been gathered.
pub open spec fn finished(draft: DraftView) -> MetadataView {
    MetadataView {
        preserved: draft.preserved,
        comments: made_block(draft_entries(draft.texts, INFO_KINDS as nat)),
        cue_points: draft.cue_points,
        channel_mask: None,
        provenance: false,
    }
}

/// Nothing has been gathered yet.
pub open spec fn empty_draft() -> DraftView {
    DraftView { texts: Seq::empty(), cue_points: Seq::empty(), preserved: Seq::empty() }
}

/// Metadata that is gathered chunk by chunk.
#[derive(Debug, Clone)]
pub struct MetadataDraft {
    texts: Vec<InfoText>,
    cue_points: Vec<u32>,
    preserved: Vec<PreservedBlock>,
}

impl View for MetadataDraft {
    type V = DraftView;

    closed spec fn view(&self) -> DraftView {
        DraftView {
            texts: text_views(self.texts@),
            cue_points: self.cue_points@,
            preserved: preserved_views(self.preserved@),
        }
    }
}

impl Default for MetadataDraft {
    fn default() -> (draft: Self)
        ensures
            draft@ == empty_draft(),
    {
        let draft = MetadataDraft {
            texts: Vec::new(),
            cue_points: Vec::new(),
            preserved: Vec::new(),
        };
        assert(text_views(draft.texts@) == Seq::<InfoTextView>::empty());
        assert(preserved_views(draft.preserved@) == Seq::<BlockView>::empty());
        draft
    }
}

/// Bytes without the zeros at their end.
fn trim_zeros(bytes: &[u8]) -> (trimmed: Vec<u8>)
    ensures
        trimmed@ == unterminated(bytes@),
{
    let mut end: usize = bytes.len();
    assert(bytes@.take(end as int) == bytes@);
    while end > 0 && bytes[end - 1] == 0
        invariant
            end <= bytes@.len(),
            unterminated(bytes@.take(end as int)) == unterminated(bytes@),
        decreases end,
    {
        assert(bytes@.take(end as int).drop_last() == bytes@.take(end - 1));
        end = end - 1;
    }
    let part = slice_subrange(bytes, 0, end);
    assert(part@ == bytes@.take(end as int));
    slice_to_vec(part)
}

impl MetadataDraft {
    /// Takes in the texts of an INFO list.
    fn ingest_info(&mut self, payload: &[u8])
        ensures
            final(self)@ == match info_chunks(payload@) {
                None => old(self)@,
                Some(chunks) => DraftView {
                    texts: old(self)@.texts + chunk_texts(chunks),
                    ..old(self)@
                },
            },
    {
        let chunks = match parse_wav_info_chunk_payload(payload) {
            Some(chunks) => chunks,
            None => return,
        };
        let ghost views = chunk_views(chunks@);
        let ghost start = text_views(self.texts@);
        let ghost points = self.cue_points@;
        let ghost kept = self.preserved@;
        let mut index: usize = 0;
        assert(views.take(0) == Seq::<ChunkView>::empty());
        assert(start + Seq::<InfoTextView>::empty() == start);
        while index < chunks.len()
            invariant
                index <= chunks@.len(),
                views == chunk_views(chunks@),
                text_views(self.texts@) == start + chunk_texts(views.take(index as int)),
                self.cue_points@ == points,
                self.preserved@ == kept,
            decreases chunks.len() - index,
        {
            let chunk = &chunks[index];
            let ghost before = self.texts@;
            proof {
                assert(views.take(index + 1).drop_last() == views.take(index as int));
                assert(views.take(index + 1).last() == chunk@);
            }
            let bytes = trim_zeros(chunk.payload.as_slice());
            if bytes.len() > 0 {
                match utf8_string(bytes) {
                    Ok(value) => {
                        let text = InfoText { id: chunk.id, value };
                        let ghost view = text@;
                        self.texts.push(text);
                        proof {
                            assert(text_views(self.texts@) == text_views(before).push(view));
                            assert(start + chunk_texts(views.take(index as int)).push(view)
                                == text_views(self.texts@));
                        }
                    },
                    Err(_) => {},
                }
            }
            index = index + 1;
        }
        assert(views.take(index as int) == views);
    }

    /// Takes in a chunk.
    pub fn ingest_chunk(&mut self, id: FourCc, payload: &[u8], policy: FxmdChunkPolicy) -> (result:
        Result<()>)
        ensures
            match drafted(old(self)@, id@, payload@, policy) {
                Ok(expected) => result is Ok && final(self)@ == expected,
                Err(expected) => {
                    &&& result matches Err(error) && error@ == expected
                    &&& final(self)@ == old(self)@
                },
            },
    {
        proof {
            assert(LIST_ID@[0] == 0x4c && CUE_ID@[0] == 0x63 && FXMD_ID@[0] == 0x66);
        }
        if is_id(id.as_slice(), &LIST_ID) {
            self.ingest_info(payload);
        } else if is_id(id.as_slice(), &CUE_ID) {
            match parse_wav_cue_chunk_payload(payload) {
                Some(points) => {
                    let mut points = points;
                    self.cue_points.append(&mut points);
                },
                None => {},
            }
        } else if is_id(id.as_slice(), &FXMD_ID) && policy.capture {
            match blocks_of_fxmd(payload) {
                Ok(blocks) => {
                    self.preserved = blocks;
                },
                Err(error) => {
                    if policy.strict {
                        return Err(error);
                    }
                },
            }
        }
        Ok(())
    }

    /// The metadata that has been gathered, for a stream of a number of samples. Cue points
    /// that the stream cannot hold are left out where a cue sheet is made of them.
    pub fn finish(self, _total_samples: u64) -> (metadata: Metadata)
        ensures
            metadata@ == finished(self@),
    {
        let mut entries: Vec<String> = Vec::new();
        let ghost views = text_views(self.texts@);
        let mut kind: usize = 0;
        assert(texts(entries@) == Seq::<Seq<char>>::empty());
        while kind < INFO_KINDS
            invariant
                kind <= INFO_KINDS,
                views == text_views(self.texts@),
                texts(entries@) == draft_entries(views, kind as nat),
            decreases INFO_KINDS - kind,
        {
            let id = kind_id(kind);
            let key = kind_key(kind);
            let ghost earlier = texts(entries@);
            let mut index: usize = 0;
            assert(views.take(0) == Seq::<InfoTextView>::empty());
            assert(earlier + Seq::<Seq<char>>::empty() == earlier);
            while index < self.texts.len()
                invariant
                    index <= self.texts@.len(),
                    views == text_views(self.texts@),
                    texts(entries@) == earlier + entries_with(views.take(index as int), id@, key@),
                decreases self.texts.len() - index,
            {
                let text = &self.texts[index];
                let ghost before = entries@;
                proof {
                    assert(views.take(index + 1).drop_last() == views.take(index as int));
                    assert(views.take(index + 1).last() == text@);
                }
                if is_id(text.id.as_slice(), &id) {
                    let entry = raw_vorbis_comment_entry(key, text.value.as_str());
                    let ghost view = entry@;
                    entries.push(entry);
                    proof {
                        assert(texts(entries@) == texts(before).push(view));
                        assert(earlier + entries_with(views.take(index as int), id@, key@).push(view)
                            == texts(entries@));
                    }
                }
                index = index + 1;
            }
            assert(views.take(index as int) == views);
            kind = kind + 1;
        }
        Metadata::from_parts(self.preserved, entries, self.cue_points)
    }
}

} // verus!
