//! The payloads of RIFF INFO lists and cue chunks.

use vstd::prelude::*;
use vstd::slice::{slice_subrange, slice_to_vec};
use vstd::utf8::{decode_utf8, encode_utf8, encode_utf8_decode_utf8, encode_utf8_valid_utf8, valid_utf8};

use crate::byte_reader::{available, bytes_at};
use crate::bytes::{law_le_bytes_read_back, le_bytes, le_value, lemma_byte_ranges, read_le};
use crate::error::{Error, ErrorView, Result};
use crate::fourcc::{is_id, FourCc};
use crate::metadata::{cue_entries, cue_entry, cue_payload, entry_chunk, entry_chunks, info_chunk_id, list_info_payload, riff_chunk, MetadataView, DATA_ID, INFO_LIST_TYPE};
use crate::vorbis::{entry_parts, utf8_string};

verus! {

/// An identifier with the bytes that belong to it.
#[derive(Debug, Clone)]
pub struct Chunk {
    pub id: FourCc,
    pub payload: Vec<u8>,
}

/// The contents of a [`Chunk`].
pub struct ChunkView {
    pub id: Seq<u8>,
    pub payload: Seq<u8>,
}

impl View for Chunk {
    type V = ChunkView;

    open spec fn view(&self) -> ChunkView {
        ChunkView { id: self.id@, payload: self.payload@ }
    }
}

/// The contents of chunks.
pub open spec fn chunk_views(chunks: Seq<Chunk>) -> Seq<ChunkView> {
    chunks.map_values(|chunk: Chunk| chunk@)
}

/// The chunk of an INFO list at a position.
pub open spec fn info_at(payload: Seq<u8>, position: nat) -> ChunkView {
    ChunkView {
        id: bytes_at(payload, position, 4),
        payload: bytes_at(payload, position + 8, info_len(payload, position)),
    }
}

/// The length of the chunk of an INFO list at a position.
pub open spec fn info_len(payload: Seq<u8>, position: nat) -> nat {
    le_value(bytes_at(payload, position + 4, 4))
}

/// The chunks of an INFO list from a position on, or nothing if one is cut off.
pub open spec fn info_from(payload: Seq<u8>, position: nat) -> Option<Seq<ChunkView>>
    decreases payload.len() + 1 - position,
    when position <= payload.len() + 1
{
    if !available(payload, position, 8) {
        Some(Seq::empty())
    } else {
        let length = info_len(payload, position);
        if !available(payload, position + 8, length) {
            None
        } else {
            match info_from(payload, position + 8 + length + length % 2) {
                None => None,
                Some(rest) => Some(seq![info_at(payload, position)] + rest),
            }
        }
    }
}

/// The chunks of an INFO list, or nothing if it is none.
pub open spec fn info_chunks(payload: Seq<u8>) -> Option<Seq<ChunkView>> {
    if payload.len() < 4 || bytes_at(payload, 0, 4) != INFO_LIST_TYPE@ {
        None
    } else {
        info_from(payload, 4)
    }
}

/// Reads the identifier at a position.
fn id_at(payload: &[u8], position: usize) -> (id: FourCc)
    requires
        position + 4 <= payload@.len(),
    ensures
        id@ == bytes_at(payload@, position as nat, 4),
{
    let id: FourCc = [
        payload[position],
        payload[position + 1],
        payload[position + 2],
        payload[position + 3],
    ];
    assert(id@ == bytes_at(payload@, position as nat, 4));
    id
}

/// The chunks of an INFO list, or nothing if it is none.
pub fn parse_wav_info_chunk_payload(payload: &[u8]) -> (entries: Option<Vec<Chunk>>)
    ensures
        match entries {
            Some(found) => info_chunks(payload@) == Some(chunk_views(found@)),
            None => info_chunks(payload@) is None,
        },
{
    if payload.len() < 4 {
        return None;
    }
    let list_type = id_at(payload, 0);
    if !is_id(list_type.as_slice(), &INFO_LIST_TYPE) {
        return None;
    }
    let ghost whole = info_from(payload@, 4);
    let mut entries: Vec<Chunk> = Vec::new();
    let mut cursor: usize = 4;
    assert(payload.len() == payload@.len());
    proof {
        assert(chunk_views(entries@) == Seq::<ChunkView>::empty());
        if let Some(rest) = whole {
            assert(chunk_views(entries@) + rest == rest);
        }
    }
    while payload.len() - cursor >= 8
        invariant
            cursor <= payload@.len(),
            payload@.len() <= usize::MAX,
            payload.len() == payload@.len(),
            match info_from(payload@, cursor as nat) {
                None => whole is None,
                Some(rest) => whole == Some(chunk_views(entries@) + rest),
            },
            whole == info_from(payload@, 4),
            info_chunks(payload@) == whole,
        decreases payload.len() - cursor,
    {
        let id = id_at(payload, cursor);
        let length: usize = read_le(payload, cursor + 4, 4) as usize;
        assert(length == info_len(payload@, cursor as nat)) by {
            lemma_byte_ranges();
        }
        let ghost position = cursor as nat;
        let ghost earlier = chunk_views(entries@);
        cursor = cursor + 8;
        if length > payload.len() - cursor {
            return None;
        }
        let end: usize = cursor + length;
        let value = slice_to_vec(slice_subrange(payload, cursor, end));
        entries.push(Chunk { id, payload: value });
        cursor = end;
        if length % 2 != 0 && cursor < payload.len() {
            cursor = cursor + 1;
        }
        proof {
            let chunk = info_at(payload@, position);
            assert(entries@.last()@ == chunk);
            assert(chunk_views(entries@) == earlier.push(chunk));
            let next = position + 8 + length as nat + length as nat % 2;
            assert(info_from(payload@, cursor as nat) == info_from(payload@, next));
            if let Some(rest) = info_from(payload@, next) {
                assert(earlier + (seq![chunk] + rest) == chunk_views(entries@) + rest);
            }
        }
    }
    assert(chunk_views(entries@) + Seq::<ChunkView>::empty() == chunk_views(entries@));
    Some(entries)
}

/// A cue point at a position names the data chunk.
pub open spec fn cue_is_in_data(payload: Seq<u8>, position: nat) -> bool {
    bytes_at(payload, position + 8, 4) == DATA_ID@
}

/// The sample offset of the cue point at a position.
pub open spec fn cue_offset(payload: Seq<u8>, position: nat) -> u32 {
    le_value(bytes_at(payload, position + 20, 4)) as u32
}

/// Why the cue points from a position on cannot be read.
pub enum CueFault {
    Truncated,
    OtherChunk,
}

/// `count` cue points from a position on, or why they cannot be read.
pub open spec fn cues_from(payload: Seq<u8>, position: nat, count: nat) -> std::result::Result<
    Seq<u32>,
    CueFault,
>
    decreases count,
{
    if count == 0 {
        Ok(Seq::empty())
    } else if !available(payload, position, 24) {
        Err(CueFault::Truncated)
    } else if !cue_is_in_data(payload, position) {
        Err(CueFault::OtherChunk)
    } else {
        match cues_from(payload, position + 24, (count - 1) as nat) {
            Err(fault) => Err(fault),
            Ok(rest) => Ok(seq![cue_offset(payload, position)] + rest),
        }
    }
}

/// The number of cue points that a cue chunk announces.
pub open spec fn cue_count(payload: Seq<u8>) -> nat {
    le_value(bytes_at(payload, 0, 4))
}

/// The cue points of a cue chunk, or nothing if it is none.
pub open spec fn cue_points_in(payload: Seq<u8>) -> Option<Seq<u32>> {
    if payload.len() < 4 {
        None
    } else {
        match cues_from(payload, 4, cue_count(payload)) {
            Ok(points) => Some(points),
            Err(_) => None,
        }
    }
}

/// Where reading cue points has stopped.
#[derive(Debug, Clone)]
pub enum CueWalk {
    /// All points, and the position behind the last.
    Done(Vec<u32>, usize),
    Truncated,
    OtherChunk,
}

/// Reads the announced cue points.
fn walk_cues(payload: &[u8]) -> (walk: CueWalk)
    requires
        payload@.len() >= 4,
    ensures
        match walk {
            CueWalk::Done(points, end) => {
                &&& cues_from(payload@, 4, cue_count(payload@)) == Ok::<Seq<u32>, CueFault>(points@)
                &&& end == 4 + 24 * cue_count(payload@)
                &&& end <= payload@.len()
            },
            CueWalk::Truncated => cues_from(payload@, 4, cue_count(payload@)) == Err::<
                Seq<u32>,
                CueFault,
            >(CueFault::Truncated),
            CueWalk::OtherChunk => cues_from(payload@, 4, cue_count(payload@)) == Err::<
                Seq<u32>,
                CueFault,
            >(CueFault::OtherChunk),
        },
{
    let count: u64 = read_le(payload, 0, 4);
    let ghost whole = cues_from(payload@, 4, count as nat);
    let mut points: Vec<u32> = Vec::new();
    let mut cursor: usize = 4;
    let mut left: u64 = count;
    assert(payload.len() == payload@.len());
    proof {
        if let Ok(rest) = whole {
            assert(points@ + rest == rest);
        }
    }
    while left > 0
        invariant
            left <= count,
            4 <= cursor <= payload@.len(),
            cursor == 4 + 24 * (count - left),
            payload.len() == payload@.len(),
            payload@.len() <= usize::MAX,
            count == cue_count(payload@),
            whole == cues_from(payload@, 4, count as nat),
            match cues_from(payload@, cursor as nat, left as nat) {
                Err(fault) => whole == Err::<Seq<u32>, CueFault>(fault),
                Ok(rest) => whole == Ok::<Seq<u32>, CueFault>(points@ + rest),
            },
        decreases left,
    {
        if payload.len() - cursor < 24 {
            return CueWalk::Truncated;
        }
        let chunk_id = id_at(payload, cursor + 8);
        if !is_id(chunk_id.as_slice(), &DATA_ID) {
            return CueWalk::OtherChunk;
        }
        let ghost earlier = points@;
        let offset: u32 = read_le(payload, cursor + 20, 4) as u32;
        points.push(offset);
        proof {
            lemma_byte_ranges();
            let next = cues_from(payload@, (cursor + 24) as nat, (left - 1) as nat);
            if let Ok(rest) = next {
                assert(earlier + (seq![offset] + rest) == points@ + rest);
            }
        }
        cursor = cursor + 24;
        left = left - 1;
    }
    assert(points@ + Seq::<u32>::empty() == points@);
    CueWalk::Done(points, cursor)
}

/// The cue points of a cue chunk, or nothing if it is none.
pub fn parse_wav_cue_chunk_payload(payload: &[u8]) -> (points: Option<Vec<u32>>)
    ensures
        match points {
            Some(found) => cue_points_in(payload@) == Some(found@),
            None => cue_points_in(payload@) is None,
        },
{
    if payload.len() < 4 {
        return None;
    }
    match walk_cues(payload) {
        CueWalk::Done(points, _) => Some(points),
        _ => None,
    }
}

/// The cue points of a cue chunk without trailing bytes, or why there are none.
pub open spec fn exact_cue_points(payload: Seq<u8>) -> std::result::Result<Seq<u32>, ErrorView> {
    if payload.len() < 4 {
        Err(ErrorView::InvalidPcmContainer("RIFF cue payload is too short"@))
    } else {
        match cues_from(payload, 4, cue_count(payload)) {
            Err(CueFault::Truncated) => Err(
                ErrorView::InvalidPcmContainer("RIFF cue payload is truncated"@),
            ),
            Err(CueFault::OtherChunk) => Err(
                ErrorView::InvalidPcmContainer(
                    "RIFF cue payload references an unsupported chunk"@,
                ),
            ),
            Ok(points) => if payload.len() != 4 + 24 * cue_count(payload) {
                Err(ErrorView::InvalidPcmContainer("RIFF cue payload has trailing bytes"@))
            } else {
                Ok(points)
            },
        }
    }
}

/// The cue points of a cue chunk without trailing bytes, or why there are none.
pub fn parse_riff_cue_payload(payload: &[u8]) -> (points: Result<Vec<u32>>)
    ensures
        match exact_cue_points(payload@) {
            Ok(expected) => points matches Ok(found) && found@ == expected,
            Err(expected) => points matches Err(error) && error@ == expected,
        },
{
    if payload.len() < 4 {
        return Err(Error::InvalidPcmContainer("RIFF cue payload is too short"));
    }
    match walk_cues(payload) {
        CueWalk::Truncated => Err(Error::InvalidPcmContainer("RIFF cue payload is truncated")),
        CueWalk::OtherChunk => {
            Err(Error::InvalidPcmContainer("RIFF cue payload references an unsupported chunk"))
        },
        CueWalk::Done(points, end) => {
            if end != payload.len() {
                return Err(Error::InvalidPcmContainer("RIFF cue payload has trailing bytes"));
            }
            Ok(points)
        },
    }
}

/// A text with the identifier of its chunk.
#[derive(Debug, Clone)]
pub struct InfoText {
    pub id: FourCc,
    pub value: String,
}

/// The contents of an [`InfoText`].
pub struct InfoTextView {
    pub id: Seq<u8>,
    pub value: Seq<char>,
}

impl View for InfoText {
    type V = InfoTextView;

    open spec fn view(&self) -> InfoTextView {
        InfoTextView { id: self.id@, value: self.value@ }
    }
}

/// The contents of texts.
pub open spec fn text_views(texts: Seq<InfoText>) -> Seq<InfoTextView> {
    texts.map_values(|text: InfoText| text@)
}

/// The text of the chunk of an INFO list at a position.
pub open spec fn text_at(payload: Seq<u8>, position: nat) -> InfoTextView {
    let chunk = info_at(payload, position);
    InfoTextView { id: chunk.id, value: decode_utf8(chunk.payload) }
}

/// The texts of an INFO list from a position on, or why there are none.
pub open spec fn texts_from(payload: Seq<u8>, position: nat) -> std::result::Result<
    Seq<InfoTextView>,
    ErrorView,
>
    decreases payload.len() - position,
    when position <= payload.len()
{
    if !available(payload, position, 8) {
        if position == payload.len() {
            Ok(Seq::empty())
        } else {
            Err(ErrorView::InvalidPcmContainer("RIFF INFO payload has trailing bytes"@))
        }
    } else {
        let length = info_len(payload, position);
        if !available(payload, position + 8, length) {
            Err(ErrorView::InvalidPcmContainer("RIFF INFO payload is truncated"@))
        } else if !valid_utf8(info_at(payload, position).payload) {
            Err(ErrorView::InvalidPcmContainer("RIFF INFO payload contains invalid UTF-8"@))
        } else if length % 2 != 0 && position + 8 + length >= payload.len() {
            Err(ErrorView::InvalidPcmContainer("RIFF INFO payload is truncated"@))
        } else {
            match texts_from(payload, position + 8 + length + length % 2) {
                Err(error) => Err(error),
                Ok(rest) => Ok(seq![text_at(payload, position)] + rest),
            }
        }
    }
}

/// The texts of an INFO list, or why there are none.
pub open spec fn info_texts(payload: Seq<u8>) -> std::result::Result<Seq<InfoTextView>, ErrorView> {
    if payload.len() < 4 || bytes_at(payload, 0, 4) != INFO_LIST_TYPE@ {
        Err(ErrorView::InvalidPcmContainer("RIFF INFO payload is invalid"@))
    } else {
        texts_from(payload, 4)
    }
}

/// The texts of an INFO list, or why there are none.
pub fn parse_riff_info_payload(payload: &[u8]) -> (entries: Result<Vec<InfoText>>)
    ensures
        match info_texts(payload@) {
            Ok(expected) => entries matches Ok(found) && text_views(found@) == expected,
            Err(expected) => entries matches Err(error) && error@ == expected,
        },
{
    if payload.len() < 4 {
        return Err(Error::InvalidPcmContainer("RIFF INFO payload is invalid"));
    }
    let list_type = id_at(payload, 0);
    if !is_id(list_type.as_slice(), &INFO_LIST_TYPE) {
        return Err(Error::InvalidPcmContainer("RIFF INFO payload is invalid"));
    }
    let ghost whole = texts_from(payload@, 4);
    let mut entries: Vec<InfoText> = Vec::new();
    let mut cursor: usize = 4;
    assert(payload.len() == payload@.len());
    proof {
        assert(text_views(entries@) == Seq::<InfoTextView>::empty());
        if let Ok(rest) = whole {
            assert(text_views(entries@) + rest == rest);
        }
    }
    while payload.len() - cursor >= 8
        invariant
            cursor <= payload@.len(),
            payload@.len() <= usize::MAX,
            payload.len() == payload@.len(),
            match texts_from(payload@, cursor as nat) {
                Err(error) => whole == Err::<Seq<InfoTextView>, ErrorView>(error),
                Ok(rest) => whole == Ok::<Seq<InfoTextView>, ErrorView>(
                    text_views(entries@) + rest,
                ),
            },
            whole == texts_from(payload@, 4),
            info_texts(payload@) == whole,
        decreases payload.len() - cursor,
    {
        let id = id_at(payload, cursor);
        let length: usize = read_le(payload, cursor + 4, 4) as usize;
        assert(length == info_len(payload@, cursor as nat)) by {
            lemma_byte_ranges();
        }
        let ghost position = cursor as nat;
        let ghost earlier = text_views(entries@);
        cursor = cursor + 8;
        if length > payload.len() - cursor {
            return Err(Error::InvalidPcmContainer("RIFF INFO payload is truncated"));
        }
        let end: usize = cursor + length;
        let bytes = slice_to_vec(slice_subrange(payload, cursor, end));
        assert(bytes@ == info_at(payload@, position).payload);
        let value = match utf8_string(bytes) {
            Ok(value) => value,
            Err(_) => {
                return Err(Error::InvalidPcmContainer("RIFF INFO payload contains invalid UTF-8"));
            },
        };
        cursor = end;
        if length % 2 != 0 {
            if cursor >= payload.len() {
                return Err(Error::InvalidPcmContainer("RIFF INFO payload is truncated"));
            }
            cursor = cursor + 1;
        }
        entries.push(InfoText { id, value });
        proof {
            let text = text_at(payload@, position);
            assert(entries@.last()@ == text);
            assert(text_views(entries@) == earlier.push(text));
            if let Ok(rest) = texts_from(payload@, cursor as nat) {
                assert(earlier + (seq![text] + rest) == text_views(entries@) + rest);
            }
        }
    }
    if cursor != payload.len() {
        return Err(Error::InvalidPcmContainer("RIFF INFO payload has trailing bytes"));
    }
    assert(text_views(entries@) + Seq::<InfoTextView>::empty() == text_views(entries@));
    Ok(entries)
}

/// The texts that entries of a comment block have in an INFO list.
pub open spec fn entry_texts(entries: Seq<Seq<char>>) -> Seq<InfoTextView>
    decreases entries.len(),
{
    if entries.len() == 0 {
        Seq::empty()
    } else {
        let earlier = entry_texts(entries.drop_last());
        match entry_parts(entries.last()) {
            None => earlier,
            Some((key, value)) => match info_chunk_id(key) {
                None => earlier,
                Some(id) => if value.len() == 0 {
                    earlier
                } else {
                    earlier.push(InfoTextView { id, value })
                },
            },
        }
    }
}

/// A text has a chunk that can hold it.
pub open spec fn text_fits(text: InfoTextView) -> bool {
    text.id.len() == 4 && encode_utf8(text.value).len() < 0x1_0000_0000
}

/// The chunks of texts, one after the other.
spec fn joined_texts(texts: Seq<InfoTextView>) -> Seq<u8>
    decreases texts.len(),
{
    if texts.len() == 0 {
        Seq::empty()
    } else {
        riff_chunk(texts[0].id, encode_utf8(texts[0].value)) + joined_texts(texts.drop_first())
    }
}

proof fn lemma_joined_push(texts: Seq<InfoTextView>, last: InfoTextView)
    ensures
        joined_texts(texts.push(last)) == joined_texts(texts) + riff_chunk(
            last.id,
            encode_utf8(last.value),
        ),
    decreases texts.len(),
{
    let longer = texts.push(last);
    if texts.len() == 0 {
        assert(longer.drop_first() == Seq::<InfoTextView>::empty());
        assert(joined_texts(longer.drop_first()) == Seq::<u8>::empty());
    } else {
        assert(longer.drop_first() == texts.drop_first().push(last));
        lemma_joined_push(texts.drop_first(), last);
    }
    assert(joined_texts(longer) == joined_texts(texts) + riff_chunk(
        last.id,
        encode_utf8(last.value),
    ));
}

proof fn lemma_entry_chunks(entries: Seq<Seq<char>>)
    ensures
        entry_chunks(entries).0 == joined_texts(entry_texts(entries)),
        entry_chunks(entries).1 == entry_texts(entries).len(),
    decreases entries.len(),
{
    if entries.len() > 0 {
        lemma_entry_chunks(entries.drop_last());
        if entry_chunk(entries.last()) is Some {
            let parts = entry_parts(entries.last()).unwrap();
            lemma_joined_push(
                entry_texts(entries.drop_last()),
                InfoTextView { id: info_chunk_id(parts.0).unwrap(), value: parts.1 },
            );
        }
    }
}

/// The first chunk behind a prefix is read as it was written.
proof fn lemma_text_reads_back(prefix: Seq<u8>, text: InfoTextView, rest: Seq<u8>)
    requires
        text_fits(text),
    ensures
        ({
            let value = encode_utf8(text.value);
            let payload = prefix + (riff_chunk(text.id, value) + rest);
            let position = prefix.len();
            &&& available(payload, position, 8)
            &&& info_len(payload, position) == value.len()
            &&& available(payload, position + 8, value.len() + value.len() % 2)
            &&& info_at(payload, position) == (ChunkView { id: text.id, payload: value })
            &&& position + 8 + value.len() + value.len() % 2 == (prefix + riff_chunk(
                text.id,
                value,
            )).len()
            &&& valid_utf8(value)
            &&& text_at(payload, position) == text
        }),
{
    let value = encode_utf8(text.value);
    let length = le_bytes(value.len(), 4);
    let padding: Seq<u8> = if value.len() % 2 == 0 {
        Seq::empty()
    } else {
        seq![0u8]
    };
    let payload = prefix + (riff_chunk(text.id, value) + rest);
    let position = prefix.len();
    lemma_byte_ranges();
    law_le_bytes_read_back(value.len(), 4);
    assert(payload == prefix + text.id + length + value + padding + rest);
    assert(bytes_at(payload, position, 4) == text.id);
    assert(bytes_at(payload, position + 4, 4) == length);
    assert(bytes_at(payload, position + 8, value.len()) == value);
    encode_utf8_valid_utf8(text.value);
    encode_utf8_decode_utf8(text.value);
}

proof fn lemma_texts_read_back(prefix: Seq<u8>, texts: Seq<InfoTextView>)
    requires
        forall|i: int| 0 <= i < texts.len() ==> text_fits(#[trigger] texts[i]),
    ensures
        texts_from(prefix + joined_texts(texts), prefix.len()) == Ok::<
            Seq<InfoTextView>,
            ErrorView,
        >(texts),
        info_from(prefix + joined_texts(texts), prefix.len()) == Some(chunks_of(texts)),
    decreases texts.len(),
{
    let payload = prefix + joined_texts(texts);
    if texts.len() == 0 {
        assert(payload == prefix);
        assert(texts == Seq::<InfoTextView>::empty());
        assert(chunks_of(texts) == Seq::<ChunkView>::empty());
    } else {
        let text = texts[0];
        let chunk = riff_chunk(text.id, encode_utf8(text.value));
        let rest = texts.drop_first();
        lemma_text_reads_back(prefix, text, joined_texts(rest));
        assert forall|i: int| 0 <= i < rest.len() implies text_fits(#[trigger] rest[i]) by {
            assert(rest[i] == texts[i + 1]);
        }
        lemma_texts_read_back(prefix + chunk, rest);
        assert(payload == (prefix + chunk) + joined_texts(rest));
        assert(seq![text] + rest == texts);
        assert(seq![info_at(payload, prefix.len())] + chunks_of(rest) == chunks_of(texts));
    }
}

/// The chunks of texts.
pub open spec fn chunks_of(texts: Seq<InfoTextView>) -> Seq<ChunkView> {
    texts.map_values(
        |text: InfoTextView| ChunkView { id: text.id, payload: encode_utf8(text.value) },
    )
}

/// The INFO list of a comment block holds its known entries and nothing else.
pub proof fn law_info_list_reads_back(metadata: MetadataView)
    requires
        metadata.comments matches Some(block) ==> forall|i: int|
            0 <= i < entry_texts(block.entries).len() ==> text_fits(
                #[trigger] entry_texts(block.entries)[i],
            ),
    ensures
        list_info_payload(metadata) matches Some(payload) ==> {
            let texts = entry_texts(metadata.comments.unwrap().entries);
            &&& info_texts(payload) == Ok::<Seq<InfoTextView>, ErrorView>(texts)
            &&& info_chunks(payload) == Some(chunks_of(texts))
        },
{
    if list_info_payload(metadata) is Some {
        let entries = metadata.comments.unwrap().entries;
        let payload = list_info_payload(metadata).unwrap();
        lemma_entry_chunks(entries);
        lemma_texts_read_back(INFO_LIST_TYPE@, entry_texts(entries));
        assert(bytes_at(payload, 0, 4) == INFO_LIST_TYPE@);
    }
}

proof fn lemma_cue_entry_len(index: nat, offset: u32)
    ensures
        cue_entry(index, offset).len() == 24,
        bytes_at(cue_entry(index, offset), 8, 4) == DATA_ID@,
        le_value(bytes_at(cue_entry(index, offset), 20, 4)) == offset,
{
    lemma_byte_ranges();
    lemma_le_bytes_len(index, 4);
    lemma_le_bytes_len(0, 4);
    law_le_bytes_read_back(offset as nat, 4);
    assert(bytes_at(cue_entry(index, offset), 8, 4) == DATA_ID@);
    assert(bytes_at(cue_entry(index, offset), 20, 4) == le_bytes(offset as nat, 4));
}

/// Little-endian numbers take the bytes that they are given.
pub proof fn lemma_le_bytes_len(value: nat, count: nat)
    ensures
        le_bytes(value, count).len() == count,
    decreases count,
{
    if count > 0 {
        lemma_le_bytes_len(value / 256, (count - 1) as nat);
    }
}

proof fn lemma_cue_entry_at(points: Seq<u32>, index: int)
    requires
        0 <= index < points.len(),
    ensures
        cue_entries(points).len() == 24 * points.len(),
        cue_entries(points).subrange(24 * index, 24 * index + 24) == cue_entry(
            index as nat,
            points[index],
        ),
    decreases points.len(),
{
    let earlier = points.drop_last();
    lemma_cue_entry_len((points.len() - 1) as nat, points.last());
    if points.len() > 1 {
        lemma_cue_entry_at(
            earlier,
            if index < earlier.len() {
                index
            } else {
                0
            },
        );
    } else {
        assert(cue_entries(earlier) == Seq::<u8>::empty());
    }
    if index < earlier.len() {
        assert(cue_entries(points).subrange(24 * index, 24 * index + 24) == cue_entries(
            earlier,
        ).subrange(24 * index, 24 * index + 24));
    } else {
        assert(cue_entries(points).subrange(24 * index, 24 * index + 24) == cue_entry(
            index as nat,
            points[index],
        ));
    }
}

/// A payload holds the cue point with an index.
#[verifier::opaque]
spec fn holds_cue(payload: Seq<u8>, points: Seq<u32>, index: int) -> bool {
    let position = (4 + 24 * index) as nat;
    &&& available(payload, position, 24)
    &&& cue_is_in_data(payload, position)
    &&& cue_offset(payload, position) == points[index]
}

proof fn lemma_holds_cue(head: Seq<u8>, points: Seq<u32>, index: int)
    requires
        head.len() == 4,
        0 <= index < points.len(),
    ensures
        holds_cue(head + cue_entries(points), points, index),
{
    reveal(holds_cue);
    let entries = cue_entries(points);
    let payload = head + entries;
    let position = (4 + 24 * index) as nat;
    lemma_cue_entry_at(points, index);
    let entry = cue_entry(index as nat, points[index]);
    lemma_cue_entry_len(index as nat, points[index]);
    assert(payload.subrange(4 + 24 * index, 4 + 24 * index + 24) == entries.subrange(
        24 * index,
        24 * index + 24,
    ));
    assert(bytes_at(payload, position + 8, 4) == bytes_at(entry, 8, 4));
    assert(bytes_at(payload, position + 20, 4) == bytes_at(entry, 20, 4));
}

proof fn lemma_cues_read_back(payload: Seq<u8>, points: Seq<u32>, read: nat)
    requires
        forall|i: int| 0 <= i < points.len() ==> #[trigger] holds_cue(payload, points, i),
        read <= points.len(),
    ensures
        cues_from(payload, 4 + 24 * read, (points.len() - read) as nat) == Ok::<
            Seq<u32>,
            CueFault,
        >(points.skip(read as int)),
    decreases points.len() - read,
{
    if read == points.len() {
        assert(points.skip(read as int) == Seq::<u32>::empty());
    } else {
        lemma_cues_read_back(payload, points, read + 1);
        assert(holds_cue(payload, points, read as int));
        reveal(holds_cue);
        assert(seq![points[read as int]] + points.skip(read as int + 1) == points.skip(
            read as int,
        ));
    }
}

proof fn lemma_cue_payload(points: Seq<u32>)
    requires
        0 < points.len() < 0x1_0000_0000,
    ensures
        ({
            let payload = le_bytes(points.len(), 4) + cue_entries(points);
            &&& payload.len() == 4 + 24 * points.len()
            &&& cue_count(payload) == points.len()
            &&& forall|i: int| 0 <= i < points.len() ==> #[trigger] holds_cue(payload, points, i)
        }),
{
    let head = le_bytes(points.len(), 4);
    let entries = cue_entries(points);
    let payload = head + entries;
    lemma_byte_ranges();
    law_le_bytes_read_back(points.len(), 4);
    lemma_cue_entry_at(points, 0);
    assert(bytes_at(payload, 0, 4) == head);
    assert forall|i: int| 0 <= i < points.len() implies #[trigger] holds_cue(
        payload,
        points,
        i,
    ) by {
        lemma_holds_cue(head, points, i);
    }
}

proof fn lemma_exact_cues(payload: Seq<u8>, points: Seq<u32>)
    requires
        payload.len() == 4 + 24 * points.len(),
        cue_count(payload) == points.len(),
        cues_from(payload, 4, points.len()) == Ok::<Seq<u32>, CueFault>(points),
    ensures
        exact_cue_points(payload) == Ok::<Seq<u32>, ErrorView>(points),
        cue_points_in(payload) == Some(points),
{
}

proof fn lemma_all_cues(payload: Seq<u8>, points: Seq<u32>)
    requires
        forall|i: int| 0 <= i < points.len() ==> #[trigger] holds_cue(payload, points, i),
    ensures
        cues_from(payload, 4, points.len()) == Ok::<Seq<u32>, CueFault>(points),
{
    lemma_cues_read_back(payload, points, 0);
    assert(points.skip(0) == points);
}

/// A cue chunk holds the cue points that it was made of.
pub proof fn law_cue_chunk_reads_back(points: Seq<u32>)
    requires
        0 < points.len() < 0x1_0000_0000,
    ensures
        cue_payload(points) matches Some(payload) && exact_cue_points(payload) == Ok::<
            Seq<u32>,
            ErrorView,
        >(points) && cue_points_in(payload) == Some(points),
{
    let payload = le_bytes(points.len(), 4) + cue_entries(points);
    lemma_cue_payload(points);
    lemma_all_cues(payload, points);
    lemma_exact_cues(payload, points);
}

} // verus!
