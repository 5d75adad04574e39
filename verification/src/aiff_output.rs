//! Writing AIFF and AIFC files.

use vstd::arithmetic::power2::{lemma2_to64, lemma2_to64_rest, pow2};
use vstd::prelude::*;
use vstd::string::*;

use crate::aiff::{unsupported, unsupported_error, AIFC_FORM_TYPE, AIFF_FORM_TYPE, COMM_CHUNK_ID, FORM_ID, SSND_CHUNK_ID};
use crate::bits::power_of_two;
use crate::bytes::{append_bytes, be_bytes, push_be_bytes};
use crate::error::{Error, ErrorView, Result};
use crate::float::{highest_bit, lemma_scaled, top_bit};
use crate::fourcc::{is_id, FourCc};
use crate::hex::{append_hex, hex_digits};
use crate::md5::{digest_envelope, streaminfo_digest, streaminfo_md5};
use crate::metadata::{cue_payload, list_info_payload, Metadata, MetadataView, IART, ICMT, ICOP, INAM};
use crate::pcm::{append_ordered_samples, container_bits, container_bits_from_valid_bits, encoded_samples, ordinary_channel_mask, ordinary_mask, stored_front, ByteOrder, PcmEnvelope, PcmSpec};
use crate::riff_chunks::{chunk_views, cue_points_in, info_chunks, parse_wav_cue_chunk_payload, parse_wav_info_chunk_payload, Chunk, ChunkView};
use crate::sample_source::{frame_size, is_storable};
use crate::text::{append_decimal, decimal, labelled, numbered};

verus! {

/// `FVER`
pub const FVER_CHUNK_ID: FourCc = [0x46, 0x56, 0x45, 0x52];

/// `MARK`
pub const MARK_CHUNK_ID: FourCc = [0x4d, 0x41, 0x52, 0x4b];

/// `NAME`
pub const AIFF_NAME_CHUNK_ID: FourCc = [0x4e, 0x41, 0x4d, 0x45];

/// `AUTH`
pub const AIFF_AUTH_CHUNK_ID: FourCc = [0x41, 0x55, 0x54, 0x48];

/// `(c) `
pub const AIFF_COPYRIGHT_CHUNK_ID: FourCc = [0x28, 0x63, 0x29, 0x20];

/// `ANNO`
pub const AIFF_ANNOTATION_CHUNK_ID: FourCc = [0x41, 0x4e, 0x4e, 0x4f];

/// `NONE`
pub const AIFC_NONE_COMPRESSION_TYPE: FourCc = [0x4e, 0x4f, 0x4e, 0x45];

/// `not compressed`
pub const AIFC_NONE_COMPRESSION_NAME: [u8; 14] = [
    0x6e,
    0x6f,
    0x74,
    0x20,
    0x63,
    0x6f,
    0x6d,
    0x70,
    0x72,
    0x65,
    0x73,
    0x73,
    0x65,
    0x64,
];

/// The version of the AIFC format.
pub const AIFC_FVER_VERSION: u32 = 0xa280_5140;

/// Canonical AIFF/AIFC output families.
#[derive(Debug, Clone, Copy, PartialEq, Eq, Structural)]
pub enum AiffContainer {
    Auto,
    Aiff,
    AifcNone,
}

impl Default for AiffContainer {
    fn default() -> (container: Self)
        ensures
            container == AiffContainer::Auto,
    {
        AiffContainer::Auto
    }
}

/// The family that is written.
pub open spec fn resolved(container: AiffContainer) -> AiffContainer {
    match container {
        AiffContainer::Auto => AiffContainer::Aiff,
        other => other,
    }
}

/// The family that is written.
pub fn resolve_container(container: AiffContainer) -> (family: AiffContainer)
    ensures
        family == resolved(container),
{
    match container {
        AiffContainer::Auto => AiffContainer::Aiff,
        other => other,
    }
}

/// How the samples of an output are stored, or why it is not supported.
pub open spec fn output_envelope(spec: PcmSpec) -> std::result::Result<PcmEnvelope, ErrorView> {
    let channels = decimal(spec.channels as nat);
    let valid = decimal(spec.bits_per_sample as nat);
    if !(1 <= spec.channels <= 8) {
        unsupported(
            "AIFF/AIFC output only supports ordinary 1..8 channel PCM, found "@ + channels
                + " channels"@,
        )
    } else if ordinary_mask(spec.channels as u16) != Some(spec.channel_mask) {
        unsupported(
            "AIFF/AIFC output cannot preserve non-ordinary channel mask 0x"@ + hex_digits(
                spec.channel_mask as nat,
                8,
            ) + " for "@ + channels + " channels"@,
        )
    } else if !(4 <= spec.bits_per_sample <= 32) {
        unsupported("only FLAC-native 4..32 valid bits/sample are supported, found "@ + valid)
    } else if spec.bytes_per_sample * 8 != container_bits(spec.bits_per_sample as u16) {
        unsupported(
            "bytes/sample does not match the chosen container width for "@ + valid
                + " valid bits/sample"@,
        )
    } else if spec.total_samples > u32::MAX {
        unsupported("AIFF/AIFC output only supports up to 4,294,967,295 sample frames"@)
    } else {
        Ok(
            PcmEnvelope {
                channels: spec.channels as u16,
                valid_bits_per_sample: spec.bits_per_sample as u16,
                container_bits_per_sample: container_bits(spec.bits_per_sample as u16),
                channel_mask: spec.channel_mask,
            },
        )
    }
}

/// A text on a channel mask.
pub(crate) fn mask_text(before: &str, mask: u32, between: &str, channels: u8, after: &str) -> (text:
    String)
    ensures
        text@ == before@ + hex_digits(mask as nat, 8) + between@ + decimal(channels as nat)
            + after@,
{
    let mut text = before.to_owned();
    append_hex(&mut text, mask, 8);
    text.append(between);
    append_decimal(&mut text, channels as u64);
    text.append(after);
    text
}

/// How the samples of an output are stored, or why it is not supported.
pub fn validate_aiff_output_spec(spec: PcmSpec) -> (envelope: Result<PcmEnvelope>)
    ensures
        match output_envelope(spec) {
            Ok(expected) => envelope == Ok::<PcmEnvelope, Error>(expected) && is_storable(expected),
            Err(expected) => envelope matches Err(error) && error@ == expected,
        },
{
    if !(1 <= spec.channels && spec.channels <= 8) {
        return Err(
            Error::UnsupportedPcmContainer(
                numbered(
                    "AIFF/AIFC output only supports ordinary 1..8 channel PCM, found ",
                    spec.channels as u64,
                    " channels",
                ),
            ),
        );
    }
    let mask: u32 = match ordinary_channel_mask(spec.channels as u16) {
        Some(mask) => mask,
        None => 0,
    };
    if spec.channel_mask != mask {
        return Err(
            Error::UnsupportedPcmContainer(
                mask_text(
                    "AIFF/AIFC output cannot preserve non-ordinary channel mask 0x",
                    spec.channel_mask,
                    " for ",
                    spec.channels,
                    " channels",
                ),
            ),
        );
    }
    if !(4 <= spec.bits_per_sample && spec.bits_per_sample <= 32) {
        return Err(
            Error::UnsupportedPcmContainer(
                labelled(
                    "only FLAC-native 4..32 valid bits/sample are supported, found ",
                    spec.bits_per_sample as u64,
                ),
            ),
        );
    }
    let container_bits_per_sample: u16 = container_bits_from_valid_bits(
        spec.bits_per_sample as u16,
    );
    if spec.bytes_per_sample as u32 * 8 != container_bits_per_sample as u32 {
        return Err(
            Error::UnsupportedPcmContainer(
                numbered(
                    "bytes/sample does not match the chosen container width for ",
                    spec.bits_per_sample as u64,
                    " valid bits/sample",
                ),
            ),
        );
    }
    if spec.total_samples > 0xffff_ffff {
        return Err(
            unsupported_error("AIFF/AIFC output only supports up to 4,294,967,295 sample frames"),
        );
    }
    Ok(
        PcmEnvelope {
            channels: spec.channels as u16,
            valid_bits_per_sample: spec.bits_per_sample as u16,
            container_bits_per_sample,
            channel_mask: spec.channel_mask,
        },
    )
}

/// How the given samples of an output are stored, or why they cannot be.
pub open spec fn output_shape(spec: PcmSpec, samples: nat) -> std::result::Result<
    PcmEnvelope,
    ErrorView,
> {
    match output_envelope(spec) {
        Err(error) => Err(error),
        Ok(envelope) => if samples % (spec.channels as nat) != 0 {
            Err(ErrorView::Decode("decoded samples are not aligned to the channel count"@))
        } else if samples / (spec.channels as nat) != spec.total_samples {
            Err(
                ErrorView::Decode(
                    "decoded samples do not match the declared total sample count"@,
                ),
            )
        } else {
            Ok(envelope)
        },
    }
}

/// How the given samples of an output are stored, or why they cannot be.
pub fn validate_aiff_output_shape(spec: PcmSpec, samples: &[i32]) -> (envelope: Result<PcmEnvelope>)
    ensures
        match output_shape(spec, samples@.len()) {
            Ok(expected) => envelope == Ok::<PcmEnvelope, Error>(expected) && is_storable(expected),
            Err(expected) => envelope matches Err(error) && error@ == expected,
        },
{
    let envelope = match validate_aiff_output_spec(spec) {
        Ok(envelope) => envelope,
        Err(error) => return Err(error),
    };
    if samples.len() % spec.channels as usize != 0 {
        return Err(
            Error::Decode("decoded samples are not aligned to the channel count".to_owned()),
        );
    }
    if (samples.len() / spec.channels as usize) as u64 != spec.total_samples {
        return Err(
            Error::Decode(
                "decoded samples do not match the declared total sample count".to_owned(),
            ),
        );
    }
    Ok(envelope)
}

/// A whole number as an 80-bit extended float.
pub open spec fn extended_float(value: u32) -> Seq<u8> {
    if value == 0 {
        be_bytes(0, 2) + be_bytes(0, 8)
    } else {
        let place = top_bit(value as nat);
        be_bytes(16_383 + place, 2) + be_bytes((value * pow2((63 - place) as nat)) as nat, 8)
    }
}

/// A whole number as an 80-bit extended float.
pub fn extended_float_bytes(sample_rate: u32) -> (bytes: Vec<u8>)
    ensures
        bytes@ == extended_float(sample_rate),
{
    let mut bytes: Vec<u8> = Vec::new();
    if sample_rate == 0 {
        push_be_bytes(&mut bytes, 0, 2);
        push_be_bytes(&mut bytes, 0, 8);
        return bytes;
    }
    let place: u8 = highest_bit(sample_rate);
    let factor: u64 = power_of_two(63 - place);
    proof {
        lemma_scaled(sample_rate, place as nat, 63);
        lemma2_to64();
        lemma2_to64_rest();
    }
    push_be_bytes(&mut bytes, 16_383 + place as u64, 2);
    push_be_bytes(&mut bytes, sample_rate as u64 * factor, 8);
    bytes
}

/// A text behind its length, padded to an even size.
pub open spec fn pascal(bytes: Seq<u8>) -> Seq<u8> {
    seq![(bytes.len() % 256) as u8] + bytes + if bytes.len() % 2 == 0 {
        seq![0u8]
    } else {
        Seq::empty()
    }
}

/// A text behind its length, padded to an even size.
pub fn pascal_string(bytes: &[u8]) -> (payload: Vec<u8>)
    ensures
        payload@ == pascal(bytes@),
        payload@.len() % 2 == 0,
{
    let mut payload: Vec<u8> = Vec::new();
    payload.push((bytes.len() % 256) as u8);
    append_bytes(&mut payload, bytes);
    if bytes.len() % 2 == 0 {
        payload.push(0);
    }
    assert(payload@ == pascal(bytes@));
    payload
}

/// The payload of a COMM chunk.
pub open spec fn comm_payload(spec: PcmSpec, envelope: PcmEnvelope, container: AiffContainer) -> Seq<
    u8,
> {
    be_bytes(spec.channels as nat, 2) + be_bytes(spec.total_samples as nat, 4) + be_bytes(
        envelope.valid_bits_per_sample as nat,
        2,
    ) + extended_float(spec.sample_rate) + if container == AiffContainer::AifcNone {
        AIFC_NONE_COMPRESSION_TYPE@ + pascal(AIFC_NONE_COMPRESSION_NAME@)
    } else {
        Seq::empty()
    }
}

/// The payload of a COMM chunk.
pub fn comm_chunk_payload(spec: PcmSpec, envelope: PcmEnvelope, container: AiffContainer)
    -> (payload: Vec<u8>)
    requires
        spec.total_samples <= u32::MAX,
    ensures
        payload@ == comm_payload(spec, envelope, container),
{
    let mut payload: Vec<u8> = Vec::new();
    push_be_bytes(&mut payload, spec.channels as u64, 2);
    push_be_bytes(&mut payload, spec.total_samples, 4);
    push_be_bytes(&mut payload, envelope.valid_bits_per_sample as u64, 2);
    let rate = extended_float_bytes(spec.sample_rate);
    append_bytes(&mut payload, rate.as_slice());
    if container == AiffContainer::AifcNone {
        append_bytes(&mut payload, AIFC_NONE_COMPRESSION_TYPE.as_slice());
        let name = pascal_string(AIFC_NONE_COMPRESSION_NAME.as_slice());
        append_bytes(&mut payload, name.as_slice());
    }
    assert(payload@ == comm_payload(spec, envelope, container));
    payload
}

/// The text chunk that carries an INFO chunk.
pub open spec fn text_chunk_id(id: Seq<u8>) -> Option<Seq<u8>> {
    if id == INAM@ {
        Some(AIFF_NAME_CHUNK_ID@)
    } else if id == IART@ {
        Some(AIFF_AUTH_CHUNK_ID@)
    } else if id == ICOP@ {
        Some(AIFF_COPYRIGHT_CHUNK_ID@)
    } else if id == ICMT@ {
        Some(AIFF_ANNOTATION_CHUNK_ID@)
    } else {
        None
    }
}

/// The text chunk that carries an INFO chunk.
pub fn aiff_text_chunk_id_for_wav_info_chunk(chunk_id: FourCc) -> (id: Option<FourCc>)
    ensures
        match id {
            Some(found) => text_chunk_id(chunk_id@) == Some(found@),
            None => text_chunk_id(chunk_id@) is None,
        },
{
    if is_id(chunk_id.as_slice(), &INAM) {
        Some(AIFF_NAME_CHUNK_ID)
    } else if is_id(chunk_id.as_slice(), &IART) {
        Some(AIFF_AUTH_CHUNK_ID)
    } else if is_id(chunk_id.as_slice(), &ICOP) {
        Some(AIFF_COPYRIGHT_CHUNK_ID)
    } else if is_id(chunk_id.as_slice(), &ICMT) {
        Some(AIFF_ANNOTATION_CHUNK_ID)
    } else {
        None
    }
}

/// The first payload with an identifier.
pub open spec fn first_payload(entries: Seq<ChunkView>, id: Seq<u8>) -> Option<Seq<u8>>
    decreases entries.len(),
{
    if entries.len() == 0 {
        None
    } else {
        match first_payload(entries.drop_last(), id) {
            Some(found) => Some(found),
            None => if entries.last().id == id {
                Some(entries.last().payload)
            } else {
                None
            },
        }
    }
}

/// All payloads with an identifier.
pub open spec fn all_payloads(entries: Seq<ChunkView>, id: Seq<u8>) -> Seq<Seq<u8>>
    decreases entries.len(),
{
    if entries.len() == 0 {
        Seq::empty()
    } else if entries.last().id == id {
        all_payloads(entries.drop_last(), id).push(entries.last().payload)
    } else {
        all_payloads(entries.drop_last(), id)
    }
}

/// The texts that AIFF files can carry.
#[derive(Debug, Clone)]
pub struct AiffTextProjection {
    name: Option<Vec<u8>>,
    author: Option<Vec<u8>>,
    copyright: Option<Vec<u8>>,
    annotations: Vec<Vec<u8>>,
}

/// The contents of an optional payload.
pub open spec fn payload_view(payload: Option<Vec<u8>>) -> Option<Seq<u8>> {
    match payload {
        Some(bytes) => Some(bytes@),
        None => None,
    }
}

/// No chunk, or one with an identifier.
pub open spec fn optional_chunk(id: Seq<u8>, payload: Option<Seq<u8>>) -> Seq<ChunkView> {
    match payload {
        Some(payload) => seq![ChunkView { id, payload }],
        None => Seq::empty(),
    }
}

/// One chunk for each payload.
pub open spec fn chunks_with_id(id: Seq<u8>, payloads: Seq<Seq<u8>>) -> Seq<ChunkView> {
    Seq::new(payloads.len(), |i: int| ChunkView { id, payload: payloads[i] })
}

/// The text chunks for the chunks of an INFO list: the first name, author and
/// copyright, and all comments.
pub open spec fn text_chunks(entries: Seq<ChunkView>) -> Seq<ChunkView> {
    optional_chunk(AIFF_NAME_CHUNK_ID@, first_payload(entries, INAM@)) + optional_chunk(
        AIFF_AUTH_CHUNK_ID@,
        first_payload(entries, IART@),
    ) + optional_chunk(AIFF_COPYRIGHT_CHUNK_ID@, first_payload(entries, ICOP@)) + chunks_with_id(
        AIFF_ANNOTATION_CHUNK_ID@,
        all_payloads(entries, ICMT@),
    )
}

proof fn lemma_text_ids_differ()
    ensures
        INAM@ != IART@,
        INAM@ != ICOP@,
        INAM@ != ICMT@,
        IART@ != ICOP@,
        IART@ != ICMT@,
        ICOP@ != ICMT@,
{
    assert(INAM@[1] == 0x4e && IART@[1] == 0x41 && ICOP@[1] == 0x43 && ICMT@[1] == 0x43);
    assert(ICOP@[2] == 0x4f && ICMT@[2] == 0x4d);
}

/// Keeps a payload unless there is one already.
fn keep_first(kept: &mut Option<Vec<u8>>, payload: Vec<u8>)
    ensures
        payload_view(*final(kept)) == match payload_view(*old(kept)) {
            Some(found) => Some(found),
            None => Some(payload@),
        },
{
    if kept.is_none() {
        *kept = Some(payload);
    }
}

impl AiffTextProjection {
    /// It holds the texts of the given chunks.
    pub closed spec fn holds(&self, entries: Seq<ChunkView>) -> bool {
        &&& payload_view(self.name) == first_payload(entries, INAM@)
        &&& payload_view(self.author) == first_payload(entries, IART@)
        &&& payload_view(self.copyright) == first_payload(entries, ICOP@)
        &&& self.annotations@.map_values(|payload: Vec<u8>| payload@) == all_payloads(
            entries,
            ICMT@,
        )
    }

    /// No texts.
    pub fn new() -> (projection: Self)
        ensures
            projection.holds(Seq::empty()),
    {
        let projection = AiffTextProjection {
            name: None,
            author: None,
            copyright: None,
            annotations: Vec::new(),
        };
        assert(projection.annotations@.map_values(|payload: Vec<u8>| payload@) == Seq::<
            Seq<u8>,
        >::empty());
        projection
    }

    /// Takes in the next chunk of an INFO list.
    pub fn ingest(&mut self, entry: Chunk)
        ensures
            forall|entries: Seq<ChunkView>|
                old(self).holds(entries) ==> #[trigger] final(self).holds(entries.push(entry@)),
    {
        proof {
            lemma_text_ids_differ();
            assert forall|entries: Seq<ChunkView>| #[trigger]
                entries.push(entry@).drop_last() == entries by {}
        }
        let ghost before = *self;
        if is_id(entry.id.as_slice(), &INAM) {
            keep_first(&mut self.name, entry.payload);
        } else if is_id(entry.id.as_slice(), &IART) {
            keep_first(&mut self.author, entry.payload);
        } else if is_id(entry.id.as_slice(), &ICOP) {
            keep_first(&mut self.copyright, entry.payload);
        } else if is_id(entry.id.as_slice(), &ICMT) {
            self.annotations.push(entry.payload);
            assert(self.annotations@.map_values(|payload: Vec<u8>| payload@)
                == before.annotations@.map_values(|payload: Vec<u8>| payload@).push(
                entry.payload@,
            ));
        }
        proof {
            assert forall|entries: Seq<ChunkView>|
                old(self).holds(entries) implies #[trigger] self.holds(entries.push(entry@)) by {
                let longer = entries.push(entry@);
                assert(longer.drop_last() == entries);
                assert(longer.last() == entry@);
            }
        }
    }

    /// Appends the text chunks.
    pub fn into_chunks(self, chunks: &mut Vec<Chunk>)
        ensures
            forall|entries: Seq<ChunkView>| #[trigger]
                self.holds(entries) ==> chunk_views(final(chunks)@) == chunk_views(old(chunks)@)
                    + text_chunks(entries),
    {
        let ghost start = chunk_views(chunks@);
        let ghost name = payload_view(self.name);
        let ghost author = payload_view(self.author);
        let ghost copyright = payload_view(self.copyright);
        let ghost comments = self.annotations@.map_values(|payload: Vec<u8>| payload@);
        push_optional(chunks, AIFF_NAME_CHUNK_ID, self.name);
        push_optional(chunks, AIFF_AUTH_CHUNK_ID, self.author);
        push_optional(chunks, AIFF_COPYRIGHT_CHUNK_ID, self.copyright);
        let ghost texts = chunk_views(chunks@);
        push_all(chunks, AIFF_ANNOTATION_CHUNK_ID, self.annotations);
        proof {
            assert forall|entries: Seq<ChunkView>| #[trigger]
                self.holds(entries) implies chunk_views(chunks@) == start + text_chunks(
                entries,
            ) by {
                assert(chunk_views(chunks@) == start + text_chunks(entries));
            }
        }
    }
}

/// Appends a chunk if there is a payload.
pub(crate) fn push_optional(chunks: &mut Vec<Chunk>, id: FourCc, payload: Option<Vec<u8>>)
    ensures
        chunk_views(final(chunks)@) == chunk_views(old(chunks)@) + optional_chunk(
            id@,
            payload_view(payload),
        ),
{
    match payload {
        Some(payload) => {
            let chunk = Chunk { id, payload };
            chunks.push(chunk);
        },
        None => {},
    }
    assert(chunk_views(chunks@) == chunk_views(old(chunks)@) + optional_chunk(
        id@,
        payload_view(payload),
    ));
}

/// Appends a chunk for each payload.
fn push_all(chunks: &mut Vec<Chunk>, id: FourCc, payloads: Vec<Vec<u8>>)
    ensures
        chunk_views(final(chunks)@) == chunk_views(old(chunks)@) + chunks_with_id(
            id@,
            payloads@.map_values(|payload: Vec<u8>| payload@),
        ),
{
    let ghost start = chunk_views(chunks@);
    let ghost views = payloads@.map_values(|payload: Vec<u8>| payload@);
    let mut index: usize = 0;
    assert(chunk_views(chunks@) == start + chunks_with_id(id@, views.take(0)));
    while index < payloads.len()
        invariant
            index <= payloads@.len(),
            views == payloads@.map_values(|payload: Vec<u8>| payload@),
            chunk_views(chunks@) == start + chunks_with_id(id@, views.take(index as int)),
        decreases payloads.len() - index,
    {
        let ghost before = chunks@;
        let mut payload: Vec<u8> = Vec::new();
        append_bytes(&mut payload, payloads[index].as_slice());
        chunks.push(Chunk { id, payload });
        index = index + 1;
        proof {
            assert(chunk_views(chunks@) == chunk_views(before).push(
                ChunkView { id: id@, payload: views[index - 1] },
            ));
            assert(chunks_with_id(id@, views.take(index as int)) == chunks_with_id(
                id@,
                views.take(index - 1),
            ).push(ChunkView { id: id@, payload: views[index - 1] }));
            assert(chunk_views(chunks@) == start + chunks_with_id(id@, views.take(index as int)));
        }
    }
    assert(views.take(index as int) == views);
}

/// The text chunks of metadata.
pub open spec fn metadata_chunks(metadata: MetadataView) -> Seq<ChunkView> {
    match list_info_payload(metadata) {
        None => Seq::empty(),
        Some(payload) => match info_chunks(payload) {
            None => Seq::empty(),
            Some(entries) => text_chunks(entries),
        },
    }
}

/// The text chunks of metadata.
pub fn aiff_metadata_chunks(metadata: &Metadata) -> (chunks: Vec<Chunk>)
    ensures
        chunk_views(chunks@) == metadata_chunks(metadata@),
{
    let mut chunks: Vec<Chunk> = Vec::new();
    assert(chunk_views(chunks@) == Seq::<ChunkView>::empty());
    let payload = match metadata.list_info_chunk_payload() {
        Some(payload) => payload,
        None => return chunks,
    };
    let mut projection = AiffTextProjection::new();
    let ghost mut entries_seen: Seq<ChunkView> = Seq::empty();
    match parse_wav_info_chunk_payload(payload.as_slice()) {
        Some(entries) => {
            let ghost views = chunk_views(entries@);
            let mut index: usize = 0;
            assert(views.take(0) == Seq::<ChunkView>::empty());
            while index < entries.len()
                invariant
                    index <= entries@.len(),
                    views == chunk_views(entries@),
                    projection.holds(views.take(index as int)),
                decreases entries.len() - index,
            {
                let mut value: Vec<u8> = Vec::new();
                append_bytes(&mut value, entries[index].payload.as_slice());
                let entry = Chunk { id: entries[index].id, payload: value };
                let ghost view = entry@;
                projection.ingest(entry);
                proof {
                    assert(view == views[index as int]);
                    assert(views.take(index + 1) == views.take(index as int).push(view));
                }
                index = index + 1;
            }
            proof {
                assert(views.take(index as int) == views);
                entries_seen = views;
            }
        },
        None => {},
    }
    projection.into_chunks(&mut chunks);
    proof {
        assert(chunk_views(chunks@) == Seq::<ChunkView>::empty() + text_chunks(entries_seen));
        if info_chunks(payload@) is None {
            assert(text_chunks(entries_seen) == Seq::<ChunkView>::empty());
        }
        assert(Seq::<ChunkView>::empty() + text_chunks(entries_seen) == text_chunks(entries_seen));
    }
    chunks
}

/// The markers of a MARK chunk, one after the other.
pub open spec fn marks_of(points: Seq<u32>) -> Seq<u8>
    decreases points.len(),
{
    if points.len() == 0 {
        Seq::empty()
    } else {
        marks_of(points.drop_last()) + be_bytes(points.len(), 2) + be_bytes(
            points.last() as nat,
            4,
        ) + pascal(Seq::empty())
    }
}

/// The payload of a MARK chunk for points, if it can hold them.
pub open spec fn mark_payload(points: Seq<u32>) -> Option<Seq<u8>> {
    if points.len() > u16::MAX {
        None
    } else {
        Some(be_bytes(points.len(), 2) + marks_of(points))
    }
}

/// The payload of the MARK chunk of metadata, if there is one.
pub open spec fn metadata_marks(metadata: MetadataView) -> Option<Seq<u8>> {
    match cue_payload(metadata.cue_points) {
        None => None,
        Some(payload) => match cue_points_in(payload) {
            None => None,
            Some(points) => mark_payload(points),
        },
    }
}

/// The payload of the MARK chunk of metadata, if there is one.
pub fn mark_chunk_payload(metadata: &Metadata) -> (payload: Option<Vec<u8>>)
    ensures
        payload_view(payload) == metadata_marks(metadata@),
{
    let payload = match metadata.cue_chunk_payload() {
        Some(payload) => payload,
        None => return None,
    };
    let cue_points = match parse_wav_cue_chunk_payload(payload.as_slice()) {
        Some(points) => points,
        None => return None,
    };
    if cue_points.len() > 65_535 {
        return None;
    }
    let mut mark: Vec<u8> = Vec::new();
    push_be_bytes(&mut mark, cue_points.len() as u64, 2);
    let ghost points = cue_points@;
    let ghost head = mark@;
    let mut index: usize = 0;
    assert(mark@ == head + marks_of(points.take(0)));
    while index < cue_points.len()
        invariant
            index <= cue_points@.len(),
            cue_points@.len() <= 65_535,
            points == cue_points@,
            mark@ == head + marks_of(points.take(index as int)),
        decreases cue_points.len() - index,
    {
        let ghost before = mark@;
        push_be_bytes(&mut mark, index as u64 + 1, 2);
        push_be_bytes(&mut mark, cue_points[index] as u64, 4);
        let empty: [u8; 0] = [];
        let name = pascal_string(empty.as_slice());
        append_bytes(&mut mark, name.as_slice());
        index = index + 1;
        proof {
            assert(empty@ == Seq::<u8>::empty());
            let next = points.take(index as int);
            assert(next.drop_last() == points.take(index - 1));
            assert(mark@ == head + marks_of(next));
        }
    }
    assert(points.take(index as int) == points);
    Some(mark)
}

/// The bytes that a chunk takes with its header and padding.
pub open spec fn serialized_size(payload: nat) -> nat {
    8 + payload + payload % 2
}

/// The bytes that chunks take.
pub open spec fn chunks_size(chunks: Seq<ChunkView>) -> nat
    decreases chunks.len(),
{
    if chunks.len() == 0 {
        0
    } else {
        chunks_size(chunks.drop_last()) + serialized_size(chunks.last().payload.len())
    }
}

/// The size of a FORM with the given chunks and SSND payload, or why it has none.
pub open spec fn form_size(chunks: Seq<ChunkView>, ssnd_payload: nat) -> std::result::Result<
    nat,
    ErrorView,
> {
    let total = 4 + chunks_size(chunks) + serialized_size(ssnd_payload);
    if total > u64::MAX {
        unsupported("AIFF output size exceeds supported range"@)
    } else if total > u32::MAX {
        unsupported("AIFF output exceeds 4 GiB"@)
    } else {
        Ok(total)
    }
}

/// Adds the bytes that a chunk takes, if 64 bits can hold the sum.
fn checked_size(total: u64, payload: u64) -> (sum: Option<u64>)
    ensures
        match sum {
            Some(found) => found == total + serialized_size(payload as nat),
            None => total + serialized_size(payload as nat) > u64::MAX,
        },
{
    let padded: u64 = match payload.checked_add(payload % 2) {
        Some(padded) => padded,
        None => return None,
    };
    match padded.checked_add(8) {
        Some(size) => total.checked_add(size),
        None => None,
    }
}

proof fn lemma_sizes_grow(chunks: Seq<ChunkView>, count: int)
    requires
        0 <= count <= chunks.len(),
    ensures
        chunks_size(chunks.take(count)) <= chunks_size(chunks),
    decreases chunks.len(),
{
    if count < chunks.len() {
        lemma_sizes_grow(chunks.drop_last(), count);
        assert(chunks.drop_last().take(count) == chunks.take(count));
    } else {
        assert(chunks.take(count) == chunks);
    }
}

/// The size of a FORM with the given chunks and SSND payload, or why it has none.
pub fn aiff_form_size(chunks: &[Chunk], ssnd_payload_len: u64) -> (size: Result<u32>)
    ensures
        match form_size(chunk_views(chunks@), ssnd_payload_len as nat) {
            Ok(expected) => size matches Ok(found) && found == expected,
            Err(expected) => size matches Err(error) && error@ == expected,
        },
{
    let ghost views = chunk_views(chunks@);
    let mut total: u64 = 4;
    let mut index: usize = 0;
    assert(chunks_size(views.take(0)) == 0);
    while index < chunks.len()
        invariant
            index <= chunks@.len(),
            views == chunk_views(chunks@),
            total == 4 + chunks_size(views.take(index as int)),
        decreases chunks.len() - index,
    {
        proof {
            let next = views.take(index + 1);
            assert(next.drop_last() == views.take(index as int));
            assert(next.last() == chunks@[index as int]@);
            lemma_sizes_grow(views, index + 1);
        }
        total = match checked_size(total, chunks[index].payload.len() as u64) {
            Some(total) => total,
            None => return Err(unsupported_error("AIFF output size exceeds supported range")),
        };
        index = index + 1;
    }
    assert(views.take(index as int) == views);
    total = match checked_size(total, ssnd_payload_len) {
        Some(total) => total,
        None => return Err(unsupported_error("AIFF output size exceeds supported range")),
    };
    if total > 0xffff_ffff {
        return Err(unsupported_error("AIFF output exceeds 4 GiB"));
    }
    Ok(total as u32)
}

/// A chunk with its header and padding.
pub open spec fn chunk_bytes(chunk: ChunkView) -> Seq<u8> {
    chunk.id + be_bytes(chunk.payload.len(), 4) + chunk.payload + if chunk.payload.len() % 2 == 0 {
        Seq::empty()
    } else {
        seq![0u8]
    }
}

/// Chunks with their headers and padding, one after the other.
pub open spec fn joined_chunks(chunks: Seq<ChunkView>) -> Seq<u8>
    decreases chunks.len(),
{
    if chunks.len() == 0 {
        Seq::empty()
    } else {
        joined_chunks(chunks.drop_last()) + chunk_bytes(chunks.last())
    }
}

/// Appends a chunk with its header and padding.
pub fn write_aiff_chunk(output: &mut Vec<u8>, chunk_id: &FourCc, payload: &[u8])
    ensures
        final(output)@ == old(output)@ + chunk_bytes(
            ChunkView { id: chunk_id@, payload: payload@ },
        ),
{
    append_bytes(output, chunk_id.as_slice());
    push_be_bytes(output, payload.len() as u64, 4);
    append_bytes(output, payload);
    if payload.len() % 2 != 0 {
        output.push(0);
    }
    assert(output@ == old(output)@ + chunk_bytes(
        ChunkView { id: chunk_id@, payload: payload@ },
    ));
}

/// The chunks in front of the audio data.
#[verifier::opaque]
pub open spec fn leading_chunks(
    spec: PcmSpec,
    envelope: PcmEnvelope,
    metadata: MetadataView,
    container: AiffContainer,
) -> Seq<ChunkView> {
    (if container == AiffContainer::AifcNone {
        seq![ChunkView { id: FVER_CHUNK_ID@, payload: be_bytes(AIFC_FVER_VERSION as nat, 4) }]
    } else {
        Seq::empty()
    }) + seq![
        ChunkView { id: COMM_CHUNK_ID@, payload: comm_payload(spec, envelope, container) },
    ] + metadata_chunks(metadata) + optional_chunk(MARK_CHUNK_ID@, metadata_marks(metadata))
}

/// The chunks in front of the audio data.
fn chunks_before_data(
    spec: PcmSpec,
    envelope: PcmEnvelope,
    metadata: &Metadata,
    container: AiffContainer,
) -> (chunks: Vec<Chunk>)
    requires
        spec.total_samples <= u32::MAX,
    ensures
        chunk_views(chunks@) == leading_chunks(spec, envelope, metadata@, container),
{
    reveal(leading_chunks);
    let mut chunks: Vec<Chunk> = Vec::new();
    if container == AiffContainer::AifcNone {
        let mut version: Vec<u8> = Vec::new();
        push_be_bytes(&mut version, AIFC_FVER_VERSION as u64, 4);
        assert(version@ == be_bytes(AIFC_FVER_VERSION as nat, 4));
        chunks.push(Chunk { id: FVER_CHUNK_ID, payload: version });
    }
    chunks.push(
        Chunk { id: COMM_CHUNK_ID, payload: comm_chunk_payload(spec, envelope, container) },
    );
    let ghost described = chunk_views(chunks@);
    let mut texts = aiff_metadata_chunks(metadata);
    let ghost text_views = chunk_views(texts@);
    chunks.append(&mut texts);
    assert(chunk_views(chunks@) == described + text_views);
    push_optional(&mut chunks, MARK_CHUNK_ID, mark_chunk_payload(metadata));
    assert(chunk_views(chunks@) == leading_chunks(spec, envelope, metadata@, container));
    chunks
}

/// The form type of a family.
pub open spec fn form_type(container: AiffContainer) -> Seq<u8> {
    match container {
        AiffContainer::AifcNone => AIFC_FORM_TYPE@,
        _ => AIFF_FORM_TYPE@,
    }
}

/// What stands in front of `data_bytes` bytes of audio data, or why there is no file
/// that holds them.
#[verifier::opaque]
pub open spec fn file_head(
    spec: PcmSpec,
    envelope: PcmEnvelope,
    metadata: MetadataView,
    container: AiffContainer,
    data_bytes: nat,
) -> std::result::Result<Seq<u8>, ErrorView> {
    let chunks = leading_chunks(spec, envelope, metadata, resolved(container));
    match form_size(chunks, 8 + data_bytes) {
        Err(error) => Err(error),
        Ok(size) => Ok(
            FORM_ID@ + be_bytes(size, 4) + form_type(resolved(container)) + joined_chunks(chunks)
                + SSND_CHUNK_ID@ + be_bytes(8 + data_bytes, 4) + be_bytes(0, 4) + be_bytes(0, 4),
        ),
    }
}

/// Appends the file header.
pub fn write_aiff_header(output: &mut Vec<u8>, form_type: &FourCc, form_size: u32)
    ensures
        final(output)@ == old(output)@ + (FORM_ID@ + be_bytes(form_size as nat, 4) + form_type@),
{
    append_bytes(output, FORM_ID.as_slice());
    push_be_bytes(output, form_size as u64, 4);
    append_bytes(output, form_type.as_slice());
    assert(output@ == old(output)@ + (FORM_ID@ + be_bytes(form_size as nat, 4) + form_type@));
}

/// What stands in front of the audio data.
fn head_bytes(
    spec: PcmSpec,
    envelope: PcmEnvelope,
    metadata: &Metadata,
    container: AiffContainer,
    data_bytes: u64,
) -> (head: Result<Vec<u8>>)
    requires
        spec.total_samples <= u32::MAX,
        data_bytes <= u64::MAX - 8,
    ensures
        match file_head(spec, envelope, metadata@, container, data_bytes as nat) {
            Ok(expected) => head matches Ok(bytes) && bytes@ == expected,
            Err(expected) => head matches Err(error) && error@ == expected,
        },
{
    reveal(file_head);
    let container = resolve_container(container);
    let chunks = chunks_before_data(spec, envelope, metadata, container);
    let size: u32 = match aiff_form_size(chunks.as_slice(), 8 + data_bytes) {
        Ok(size) => size,
        Err(error) => return Err(error),
    };
    let mut head: Vec<u8> = Vec::new();
    let form_type = if container == AiffContainer::AifcNone {
        AIFC_FORM_TYPE
    } else {
        AIFF_FORM_TYPE
    };
    write_aiff_header(&mut head, &form_type, size);
    let ghost start = head@;
    let ghost views = chunk_views(chunks@);
    let mut index: usize = 0;
    assert(head@ == start + joined_chunks(views.take(0)));
    while index < chunks.len()
        invariant
            index <= chunks@.len(),
            views == chunk_views(chunks@),
            head@ == start + joined_chunks(views.take(index as int)),
        decreases chunks.len() - index,
    {
        let ghost before = head@;
        write_aiff_chunk(&mut head, &chunks[index].id, chunks[index].payload.as_slice());
        index = index + 1;
        proof {
            let next = views.take(index as int);
            assert(next.drop_last() == views.take(index - 1));
            assert(next.last() == chunks@[index - 1]@);
            assert(head@ == before + chunk_bytes(next.last()));
            assert(head@ == start + joined_chunks(next));
        }
    }
    assert(views.take(index as int) == views);
    append_bytes(&mut head, SSND_CHUNK_ID.as_slice());
    push_be_bytes(&mut head, 8 + data_bytes, 4);
    push_be_bytes(&mut head, 0, 4);
    push_be_bytes(&mut head, 0, 4);
    assert(head@ == file_head(spec, envelope, metadata@, container, data_bytes as nat)->Ok_0);
    Ok(head)
}

/// What follows audio data of an odd size.
pub open spec fn data_padding(data_bytes: nat) -> Seq<u8> {
    if data_bytes % 2 == 0 {
        Seq::empty()
    } else {
        seq![0u8]
    }
}

/// The file with the given samples, or why they do not go into one.
pub open spec fn stored_file(
    spec: PcmSpec,
    envelope: PcmEnvelope,
    samples: Seq<i32>,
    metadata: MetadataView,
    container: AiffContainer,
) -> std::result::Result<Seq<u8>, ErrorView> {
    let data_bytes = samples.len() * (envelope.container_bits_per_sample / 8) as nat;
    if data_bytes > usize::MAX {
        unsupported("AIFF audio payload exceeds supported range"@)
    } else {
        match file_head(spec, envelope, metadata, container, data_bytes) {
            Err(error) => Err(error),
            Ok(head) => match encoded_samples(samples, envelope, ByteOrder::Big) {
                Err(error) => Err(error),
                Ok(data) => Ok(head + data + data_padding(data_bytes)),
            },
        }
    }
}

/// The file with the given samples, or why there is none.
pub open spec fn aiff_file(
    spec: PcmSpec,
    samples: Seq<i32>,
    metadata: MetadataView,
    container: AiffContainer,
) -> std::result::Result<Seq<u8>, ErrorView> {
    match output_shape(spec, samples.len()) {
        Err(error) => Err(error),
        Ok(envelope) => match encoded_samples(samples, digest_envelope(spec), ByteOrder::Little) {
            Err(error) => Err(error),
            Ok(_) => stored_file(spec, envelope, samples, metadata, container),
        },
    }
}

/// The file with the given samples.
fn file_bytes(
    spec: PcmSpec,
    envelope: PcmEnvelope,
    samples: &[i32],
    metadata: &Metadata,
    container: AiffContainer,
) -> (file: Result<Vec<u8>>)
    requires
        spec.total_samples <= u32::MAX,
        envelope.container_bits_per_sample <= 32,
        samples@.len() <= 8 * 0xffff_ffff,
    ensures
        match stored_file(spec, envelope, samples@, metadata@, container) {
            Ok(expected) => file matches Ok(bytes) && bytes@ == expected,
            Err(expected) => file matches Err(error) && error@ == expected,
        },
{
    let width: usize = (envelope.container_bits_per_sample / 8) as usize;
    let data_bytes: usize = match samples.len().checked_mul(width) {
        Some(data_bytes) => data_bytes,
        None => return Err(unsupported_error("AIFF audio payload exceeds supported range")),
    };
    assert(data_bytes <= 8 * 0xffff_ffff * 4) by (nonlinear_arith)
        requires
            data_bytes == samples@.len() * width,
            samples@.len() <= 8 * 0xffff_ffff,
            width <= 4,
    ;
    let mut file = match head_bytes(spec, envelope, metadata, container, data_bytes as u64) {
        Ok(head) => head,
        Err(error) => return Err(error),
    };
    let ghost head = file@;
    match append_ordered_samples(&mut file, samples, envelope, ByteOrder::Big) {
        Ok(()) => {},
        Err(error) => return Err(error),
    }
    if data_bytes % 2 != 0 {
        file.push(0);
    }
    proof {
        let data = encoded_samples(samples@, envelope, ByteOrder::Big)->Ok_0;
        assert(file@ == head + data + data_padding(data_bytes as nat));
    }
    Ok(file)
}

/// Appends the file with the given samples, and returns the digest of the samples.
pub fn write_aiff_with_metadata_and_md5(
    output: &mut Vec<u8>,
    spec: PcmSpec,
    samples: &[i32],
    metadata: &Metadata,
    container: AiffContainer,
) -> (digest: Result<Vec<u8>>)
    ensures
        match aiff_file(spec, samples@, metadata@, container) {
            Ok(file) => {
                &&& final(output)@ == old(output)@ + file
                &&& digest matches Ok(bytes) && streaminfo_digest(spec, samples@) == Ok::<
                    Seq<u8>,
                    ErrorView,
                >(bytes@)
            },
            Err(expected) => {
                &&& final(output)@ == old(output)@
                &&& digest matches Err(error) && error@ == expected
            },
        },
{
    let envelope = match validate_aiff_output_shape(spec, samples) {
        Ok(envelope) => envelope,
        Err(error) => return Err(error),
    };
    proof {
        let channels = spec.channels as int;
        let frames = spec.total_samples as int;
        vstd::arithmetic::div_mod::lemma_fundamental_div_mod(samples@.len() as int, channels);
        assert(samples@.len() == channels * frames);
        assert(channels * frames <= 8 * 0xffff_ffff) by (nonlinear_arith)
            requires
                0 <= channels <= 8,
                0 <= frames <= 0xffff_ffff,
        ;
    }
    let digest = match streaminfo_md5(spec, samples) {
        Ok(digest) => digest,
        Err(error) => return Err(error),
    };
    match file_bytes(spec, envelope, samples, metadata, container) {
        Ok(file) => {
            append_bytes(output, file.as_slice());
            Ok(digest)
        },
        Err(error) => Err(error),
    }
}

/// Appends the file with the given samples.
pub fn write_aiff_with_metadata(
    output: &mut Vec<u8>,
    spec: PcmSpec,
    samples: &[i32],
    metadata: &Metadata,
    container: AiffContainer,
) -> (result: Result<()>)
    ensures
        match aiff_file(spec, samples@, metadata@, container) {
            Ok(file) => result is Ok && final(output)@ == old(output)@ + file,
            Err(expected) => {
                &&& final(output)@ == old(output)@
                &&& result matches Err(error) && error@ == expected
            },
        },
{
    match write_aiff_with_metadata_and_md5(output, spec, samples, metadata, container) {
        Ok(_) => Ok(()),
        Err(error) => Err(error),
    }
}

/// Writes a file whose samples come piece by piece.
#[derive(Debug, Clone)]
pub struct AiffStreamWriter {
    writer: Vec<u8>,
    envelope: PcmEnvelope,
    pad_final: bool,
}

impl AiffStreamWriter {
    /// The bytes written so far.
    pub closed spec fn written(&self) -> Seq<u8> {
        self.writer@
    }

    /// How the samples are stored.
    pub closed spec fn layout(&self) -> PcmEnvelope {
        self.envelope
    }

    /// Whether a byte is to follow the samples.
    pub closed spec fn pads(&self) -> bool {
        self.pad_final
    }

    /// Starts a file behind the bytes that `writer` holds.
    pub fn new(writer: Vec<u8>, spec: PcmSpec, metadata: &Metadata, container: AiffContainer)
        -> (stream: Result<Self>)
        ensures
            match output_envelope(spec) {
                Err(expected) => stream matches Err(error) && error@ == expected,
                Ok(envelope) => {
                    let data_bytes = spec.total_samples * frame_size(envelope);
                    match file_head(spec, envelope, metadata@, container, data_bytes as nat) {
                        Err(expected) => stream matches Err(error) && error@ == expected,
                        Ok(head) => stream matches Ok(found) && {
                            &&& found.written() == writer@ + head
                            &&& found.layout() == envelope
                            &&& found.pads() == (data_bytes % 2 != 0)
                        },
                    }
                },
            },
    {
        let envelope = match validate_aiff_output_spec(spec) {
            Ok(envelope) => envelope,
            Err(error) => return Err(error),
        };
        let channels: u64 = envelope.channels as u64;
        let width: u64 = (envelope.container_bits_per_sample / 8) as u64;
        assert(channels * width <= 32) by (nonlinear_arith)
            requires
                channels <= 8,
                width <= 4,
        ;
        let frame_bytes: u64 = channels * width;
        assert(spec.total_samples * frame_bytes <= 0xffff_ffff * 32) by (nonlinear_arith)
            requires
                spec.total_samples <= 0xffff_ffff,
                frame_bytes <= 32,
        ;
        let data_bytes: u64 = spec.total_samples * frame_bytes;
        let head = match head_bytes(spec, envelope, metadata, container, data_bytes) {
            Ok(head) => head,
            Err(error) => return Err(error),
        };
        let mut writer = writer;
        append_bytes(&mut writer, head.as_slice());
        Ok(AiffStreamWriter { writer, envelope, pad_final: data_bytes % 2 != 0 })
    }

    /// Writes the next samples.
    pub fn write_samples(&mut self, samples: &[i32]) -> (result: Result<()>)
        ensures
            final(self).layout() == old(self).layout(),
            final(self).pads() == old(self).pads(),
            match encoded_samples(samples@, old(self).layout(), ByteOrder::Big) {
                Ok(bytes) => result is Ok && final(self).written() == old(self).written() + bytes,
                Err(expected) => {
                    &&& result matches Err(error) && error@ == expected
                    &&& final(self).written() == old(self).written() + stored_front(
                        samples@,
                        old(self).layout(),
                        ByteOrder::Big,
                    )
                },
            },
    {
        append_ordered_samples(&mut self.writer, samples, self.envelope, ByteOrder::Big)
    }

    /// The number of bytes written so far.
    pub fn bytes_written(&self) -> (count: usize)
        ensures
            count == self.written().len(),
    {
        self.writer.len()
    }

    /// Gives up the file and returns what was written of it.
    pub fn into_unfinished(self) -> (bytes: Vec<u8>)
        ensures
            bytes@ == self.written(),
    {
        self.writer
    }

    /// Ends the file and returns all bytes.
    pub fn finish(self) -> (file: Result<Vec<u8>>)
        ensures
            file matches Ok(bytes) && bytes@ == self.written() + if self.pads() {
                seq![0u8]
            } else {
                Seq::empty()
            },
    {
        let mut writer = self.writer;
        if self.pad_final {
            writer.push(0);
        }
        assert(writer@ == self.written() + if self.pads() {
            seq![0u8]
        } else {
            Seq::empty()
        });
        Ok(writer)
    }
}

} // verus!
