//! Writing Core Audio Format files.

use vstd::prelude::*;
use vstd::string::*;
use vstd::utf8::encode_utf8;

use crate::aiff::{unsupported, unsupported_error};
use crate::aiff_output::{mask_text, payload_view};
use crate::bytes::{append_bytes, be_bytes, push_be_bytes};
use crate::caf::{CAF_LAYOUT_TAG_USE_CHANNEL_BITMAP, CAF_MAGIC, CAF_VERSION, CHAN_CHUNK_ID, DATA_CHUNK_ID, DESC_CHUNK_ID, LPCM_FORMAT_ID, MAX_CHUNK_SIZE};
use crate::error::{Error, ErrorView, Result};
use crate::float::{double_bits, double_of};
use crate::fourcc::{is_id, FourCc};
use crate::hex::{append_hex, hex_digits};
use crate::md5::{digest_envelope, streaminfo_digest, streaminfo_md5};
use crate::metadata::{cue_payload, list_info_payload, Metadata, MetadataView, IART, ICMT, ICOP, ICRD, IGNR, INAM, IPRD, ISFT, ITRK};
use crate::pcm::{append_ordered_samples, container_bits, container_bits_from_valid_bits, encoded_samples, is_supported_channel_mask, mask_is_supported, ordinary_channel_mask, ordinary_mask, stored_front, ByteOrder, PcmEnvelope, PcmSpec};
use crate::riff_chunks::{exact_cue_points, info_texts, parse_riff_cue_payload, parse_riff_info_payload, text_views, InfoTextView};
use crate::text::{concat, decimal, labelled, numbered};

verus! {

/// `info`
pub const CAF_INFO_CHUNK_ID: FourCc = [0x69, 0x6e, 0x66, 0x6f];

/// `mark`
pub const CAF_MARK_CHUNK_ID: FourCc = [0x6d, 0x61, 0x72, 0x6b];

/// The format flag of little-endian samples.
pub const CAF_FORMAT_FLAG_IS_LITTLE_ENDIAN: u32 = 2;

/// The type of a marker without a special meaning.
pub const CAF_MARKER_TYPE_GENERIC: u32 = 0;

/// A time code that gives no time.
pub const CAF_INVALID_SMPTE_TIME: [u8; 8] = [0xff, 0xff, 0xff, 0xff, 0xff, 0xff, 0xff, 0xff];

/// How the samples of an output are stored.
pub open spec fn plain_envelope(spec: PcmSpec) -> PcmEnvelope {
    PcmEnvelope {
        channels: spec.channels as u16,
        valid_bits_per_sample: spec.bits_per_sample as u16,
        container_bits_per_sample: container_bits(spec.bits_per_sample as u16),
        channel_mask: spec.channel_mask,
    }
}

/// Why the channels and bits of an output are not supported, if they are not.
pub open spec fn shape_failure(spec: PcmSpec) -> Option<ErrorView> {
    if !(1 <= spec.channels <= 8) {
        Some(
            ErrorView::UnsupportedPcmContainer(
                "only the ordinary 1..8 channel envelope is supported, found "@ + decimal(
                    spec.channels as nat,
                ) + " channels"@,
            ),
        )
    } else if !(4 <= spec.bits_per_sample <= 32) {
        Some(
            ErrorView::UnsupportedPcmContainer(
                "only FLAC-native 4..32 valid bits/sample are supported, found "@ + decimal(
                    spec.bits_per_sample as nat,
                ),
            ),
        )
    } else {
        None
    }
}

/// Why the bytes of a sample are not supported, if they are not.
pub open spec fn width_failure(spec: PcmSpec) -> Option<ErrorView> {
    if spec.bytes_per_sample * 8 != container_bits(spec.bits_per_sample as u16) {
        Some(
            ErrorView::UnsupportedPcmContainer(
                "bytes/sample does not match the chosen container width for "@ + decimal(
                    spec.bits_per_sample as nat,
                ) + " valid bits/sample"@,
            ),
        )
    } else {
        None
    }
}

fn check_shape(spec: PcmSpec) -> (result: Result<()>)
    ensures
        match shape_failure(spec) {
            Some(expected) => result matches Err(error) && error@ == expected,
            None => result is Ok,
        },
{
    if !(1 <= spec.channels && spec.channels <= 8) {
        return Err(
            Error::UnsupportedPcmContainer(
                numbered(
                    "only the ordinary 1..8 channel envelope is supported, found ",
                    spec.channels as u64,
                    " channels",
                ),
            ),
        );
    }
    if !(4 <= spec.bits_per_sample && spec.bits_per_sample <= 32) {
        return Err(
            Error::UnsupportedPcmContainer(
                labelled(
                    "only FLAC-native 4..32 valid bits/sample are supported, found ",
                    spec.bits_per_sample as u64,
                ),
            ),
        );
    }
    Ok(())
}

fn check_width(spec: PcmSpec) -> (envelope: Result<PcmEnvelope>)
    ensures
        match width_failure(spec) {
            Some(expected) => envelope matches Err(error) && error@ == expected,
            None => envelope == Ok::<PcmEnvelope, Error>(plain_envelope(spec)),
        },
{
    let container_bits_per_sample: u16 = container_bits_from_valid_bits(
        spec.bits_per_sample as u16,
    );
    if spec.bytes_per_sample as u32 * 8 != container_bits_per_sample as u32 {
        return Err(
            Error::UnsupportedPcmContainer(
                numbered(
                    "bytes/sample does not match the chosen container width for ",
                    spec.bits_per_sample as u64,
                    " valid bits/sample",
                ),
            ),
        );
    }
    Ok(
        PcmEnvelope {
            channels: spec.channels as u16,
            valid_bits_per_sample: spec.bits_per_sample as u16,
            container_bits_per_sample,
            channel_mask: spec.channel_mask,
        },
    )
}

/// The payload of the channel layout chunk, if one is needed, or why there is none.
pub open spec fn layout_payload(spec: PcmSpec) -> std::result::Result<Option<Seq<u8>>, ErrorView> {
    let mask = spec.channel_mask;
    if mask == 0 {
        if spec.channels <= 2 {
            Ok(None)
        } else {
            unsupported(
                "CAF 3..8 channel outputs require a supported channel layout bitmap, found 0x"@
                    + hex_digits(mask as nat, 8),
            )
        }
    } else if !mask_is_supported(spec.channels as u16, mask) {
        unsupported(
            "channel mask 0x"@ + hex_digits(mask as nat, 8) + " is not supported for "@ + decimal(
                spec.channels as nat,
            ) + " channels"@,
        )
    } else if spec.channels <= 2 && ordinary_mask(spec.channels as u16) == Some(mask) {
        Ok(None)
    } else {
        Ok(
            Some(
                be_bytes(CAF_LAYOUT_TAG_USE_CHANNEL_BITMAP as nat, 4) + be_bytes(mask as nat, 4)
                    + be_bytes(0, 4),
            ),
        )
    }
}

/// The payload of the channel layout chunk, if one is needed, or why there is none.
pub fn caf_channel_layout_chunk(spec: PcmSpec) -> (payload: Result<Option<Vec<u8>>>)
    ensures
        match layout_payload(spec) {
            Ok(expected) => payload matches Ok(found) && payload_view(found) == expected,
            Err(expected) => payload matches Err(error) && error@ == expected,
        },
{
    let mask: u32 = spec.channel_mask;
    if mask == 0 {
        if spec.channels <= 2 {
            return Ok(None);
        }
        let mut text =
            "CAF 3..8 channel outputs require a supported channel layout bitmap, found 0x".to_owned();
        append_hex(&mut text, mask, 8);
        return Err(Error::UnsupportedPcmContainer(text));
    }
    if !is_supported_channel_mask(spec.channels as u16, mask) {
        return Err(
            Error::UnsupportedPcmContainer(
                mask_text(
                    "channel mask 0x",
                    mask,
                    " is not supported for ",
                    spec.channels,
                    " channels",
                ),
            ),
        );
    }
    if spec.channels <= 2 {
        match ordinary_channel_mask(spec.channels as u16) {
            Some(ordinary) => {
                if ordinary == mask {
                    return Ok(None);
                }
            },
            None => {},
        }
    }
    let mut payload: Vec<u8> = Vec::new();
    push_be_bytes(&mut payload, CAF_LAYOUT_TAG_USE_CHANNEL_BITMAP as u64, 4);
    push_be_bytes(&mut payload, mask as u64, 4);
    push_be_bytes(&mut payload, 0, 4);
    assert(payload@ == be_bytes(CAF_LAYOUT_TAG_USE_CHANNEL_BITMAP as nat, 4) + be_bytes(
        mask as nat,
        4,
    ) + be_bytes(0, 4));
    Ok(Some(payload))
}

/// A date that is nothing but a year.
pub open spec fn is_year(value: Seq<char>) -> bool {
    value.len() == 4 && forall|i: int| 0 <= i < 4 ==> '0' <= #[trigger] value[i] <= '9'
}

/// The key under which an INFO text is kept.
pub open spec fn info_key(id: Seq<u8>, value: Seq<char>) -> Option<Seq<char>> {
    if id == IART@ {
        Some("artist"@)
    } else if id == ICMT@ {
        Some("comments"@)
    } else if id == ICOP@ {
        Some("copyright"@)
    } else if id == ICRD@ {
        if is_year(value) {
            Some("year"@)
        } else {
            Some("recorded date"@)
        }
    } else if id == IGNR@ {
        Some("genre"@)
    } else if id == INAM@ {
        Some("title"@)
    } else if id == IPRD@ {
        Some("album"@)
    } else if id == ISFT@ {
        Some("encoding application"@)
    } else if id == ITRK@ {
        Some("track number"@)
    } else {
        None
    }
}

/// Whether a date is nothing but a year.
fn test_year(value: &str) -> (year: bool)
    ensures
        year == is_year(value@),
{
    if value.unicode_len() != 4 {
        return false;
    }
    let mut index: usize = 0;
    while index < 4
        invariant
            index <= 4,
            value@.len() == 4,
            forall|i: int| 0 <= i < index ==> '0' <= #[trigger] value@[i] <= '9',
        decreases 4 - index,
    {
        let digit = value.get_char(index);
        if digit < '0' || digit > '9' {
            assert(!('0' <= value@[index as int] <= '9'));
            return false;
        }
        index = index + 1;
    }
    true
}

/// The key under which an INFO text is kept.
pub fn caf_info_key_for_riff_chunk_id(chunk_id: FourCc, value: &str) -> (key: Option<String>)
    ensures
        match key {
            Some(found) => info_key(chunk_id@, value@) == Some(found@),
            None => info_key(chunk_id@, value@) is None,
        },
{
    let id = chunk_id.as_slice();
    if is_id(id, &IART) {
        Some("artist".to_owned())
    } else if is_id(id, &ICMT) {
        Some("comments".to_owned())
    } else if is_id(id, &ICOP) {
        Some("copyright".to_owned())
    } else if is_id(id, &ICRD) {
        if test_year(value) {
            Some("year".to_owned())
        } else {
            Some("recorded date".to_owned())
        }
    } else if is_id(id, &IGNR) {
        Some("genre".to_owned())
    } else if is_id(id, &INAM) {
        Some("title".to_owned())
    } else if is_id(id, &IPRD) {
        Some("album".to_owned())
    } else if is_id(id, &ISFT) {
        Some("encoding application".to_owned())
    } else if is_id(id, &ITRK) {
        Some("track number".to_owned())
    } else {
        None
    }
}

/// A key with its value.
#[derive(Debug, Clone)]
pub struct InfoPair {
    pub key: String,
    pub value: String,
}

/// The contents of an [`InfoPair`].
pub struct InfoPairView {
    pub key: Seq<char>,
    pub value: Seq<char>,
}

impl View for InfoPair {
    type V = InfoPairView;

    open spec fn view(&self) -> InfoPairView {
        InfoPairView { key: self.key@, value: self.value@ }
    }
}

/// The contents of pairs.
pub open spec fn pair_views(pairs: Seq<InfoPair>) -> Seq<InfoPairView> {
    pairs.map_values(|pair: InfoPair| pair@)
}

/// The first place of a key.
pub open spec fn key_place(pairs: Seq<InfoPairView>, key: Seq<char>) -> Option<int>
    decreases pairs.len(),
{
    if pairs.len() == 0 {
        None
    } else {
        match key_place(pairs.drop_last(), key) {
            Some(place) => Some(place),
            None => if pairs.last().key == key {
                Some(pairs.len() - 1)
            } else {
                None
            },
        }
    }
}

/// Pairs after one more value: values of the same key are joined by a comma.
pub open spec fn with_value(pairs: Seq<InfoPairView>, key: Seq<char>, value: Seq<char>) -> Seq<
    InfoPairView,
> {
    match key_place(pairs, key) {
        Some(place) => pairs.update(
            place,
            InfoPairView { key: pairs[place].key, value: pairs[place].value + ","@ + value },
        ),
        None => pairs.push(InfoPairView { key, value }),
    }
}

/// The pairs of INFO texts.
pub open spec fn projected(texts: Seq<InfoTextView>) -> Seq<InfoPairView>
    decreases texts.len(),
{
    if texts.len() == 0 {
        Seq::empty()
    } else {
        let earlier = projected(texts.drop_last());
        let text = texts.last();
        match info_key(text.id, text.value) {
            Some(key) => with_value(earlier, key, text.value),
            None => earlier,
        }
    }
}

proof fn lemma_key_place(pairs: Seq<InfoPairView>, key: Seq<char>)
    ensures
        match key_place(pairs, key) {
            Some(place) => 0 <= place < pairs.len() && pairs[place].key == key && forall|i: int|
                0 <= i < place ==> (#[trigger] pairs[i]).key != key,
            None => forall|i: int| 0 <= i < pairs.len() ==> (#[trigger] pairs[i]).key != key,
        },
    decreases pairs.len(),
{
    if pairs.len() > 0 {
        let earlier = pairs.drop_last();
        lemma_key_place(earlier, key);
        assert forall|i: int| 0 <= i < earlier.len() implies #[trigger] pairs[i] == earlier[i] by {}
    }
}

/// Whether two texts are the same.
fn same_text(left: &str, right: &str) -> (same: bool)
    ensures
        same == (left@ == right@),
{
    let length: usize = left.unicode_len();
    if length != right.unicode_len() {
        return false;
    }
    let mut index: usize = 0;
    while index < length
        invariant
            index <= length,
            length == left@.len(),
            length == right@.len(),
            forall|i: int| 0 <= i < index ==> left@[i] == right@[i],
        decreases length - index,
    {
        if left.get_char(index) != right.get_char(index) {
            return false;
        }
        index = index + 1;
    }
    assert(left@ == right@);
    true
}

/// Adds a value to pairs.
fn add_value(pairs: &mut Vec<InfoPair>, key: String, value: &str)
    ensures
        pair_views(final(pairs)@) == with_value(pair_views(old(pairs)@), key@, value@),
{
    let ghost views = pair_views(pairs@);
    let mut index: usize = 0;
    while index < pairs.len()
        invariant
            index <= pairs@.len(),
            pairs@ == old(pairs)@,
            views == pair_views(pairs@),
            forall|i: int| 0 <= i < index ==> (#[trigger] views[i]).key != key@,
        decreases pairs.len() - index,
    {
        assert(views[index as int] == pairs@[index as int]@);
        if same_text(pairs[index].key.as_str(), key.as_str()) {
            let mut joined = concat(pairs[index].value.as_str(), ",");
            joined.append(value);
            let pair = InfoPair { key, value: joined };
            proof {
                lemma_key_place(views, key@);
                let place = key_place(views, key@).unwrap();
                assert(place == index) by {
                    if place < index {
                        assert(views[place].key != key@);
                    }
                    if place > index {
                        assert(views[index as int].key != key@);
                    }
                }
            }
            pairs.set(index, pair);
            assert(pair_views(pairs@) == with_value(views, key@, value@));
            return;
        }
        index = index + 1;
    }
    proof {
        lemma_key_place(views, key@);
    }
    pairs.push(InfoPair { key, value: value.to_owned() });
    assert(pair_views(pairs@) == with_value(views, key@, value@));
}

/// Pairs as texts that end in zero bytes.
pub open spec fn pair_bytes(pairs: Seq<InfoPairView>) -> Seq<u8>
    decreases pairs.len(),
{
    if pairs.len() == 0 {
        Seq::empty()
    } else {
        pair_bytes(pairs.drop_last()) + encode_utf8(pairs.last().key) + seq![0u8] + encode_utf8(
            pairs.last().value,
        ) + seq![0u8]
    }
}

/// The payload of the info chunk, if one is needed, or why there is none.
pub open spec fn info_payload(metadata: MetadataView) -> std::result::Result<
    Option<Seq<u8>>,
    ErrorView,
> {
    match list_info_payload(metadata) {
        None => Ok(None),
        Some(payload) => match info_texts(payload) {
            Err(error) => Err(error),
            Ok(texts) => if projected(texts).len() == 0 {
                Ok(None)
            } else {
                Ok(Some(be_bytes(projected(texts).len(), 4) + pair_bytes(projected(texts))))
            },
        },
    }
}

/// Pairs as texts that end in zero bytes.
fn write_pairs(pairs: &[InfoPair]) -> (payload: Vec<u8>)
    ensures
        payload@ == be_bytes(pairs@.len(), 4) + pair_bytes(pair_views(pairs@)),
{
    let ghost views = pair_views(pairs@);
    let mut payload: Vec<u8> = Vec::new();
    push_be_bytes(&mut payload, pairs.len() as u64, 4);
    let ghost head = payload@;
    let mut index: usize = 0;
    assert(payload@ == head + pair_bytes(views.take(0)));
    while index < pairs.len()
        invariant
            index <= pairs@.len(),
            views == pair_views(pairs@),
            payload@ == head + pair_bytes(views.take(index as int)),
        decreases pairs.len() - index,
    {
        append_bytes(&mut payload, pairs[index].key.as_str().as_bytes());
        payload.push(0);
        append_bytes(&mut payload, pairs[index].value.as_str().as_bytes());
        payload.push(0);
        index = index + 1;
        proof {
            let next = views.take(index as int);
            assert(next.drop_last() == views.take(index - 1));
            assert(next.last() == pairs@[index - 1]@);
            assert(payload@ == head + pair_bytes(next));
        }
    }
    assert(views.take(index as int) == views);
    payload
}

/// The payload of the info chunk, if one is needed, or why there is none.
pub fn caf_info_chunk_payload(metadata: &Metadata) -> (payload: Result<Option<Vec<u8>>>)
    ensures
        match info_payload(metadata@) {
            Ok(expected) => payload matches Ok(found) && payload_view(found) == expected,
            Err(expected) => payload matches Err(error) && error@ == expected,
        },
{
    let list = match metadata.list_info_chunk_payload() {
        Some(list) => list,
        None => return Ok(None),
    };
    let entries = match parse_riff_info_payload(list.as_slice()) {
        Ok(entries) => entries,
        Err(error) => return Err(error),
    };
    let ghost texts = text_views(entries@);
    let mut pairs: Vec<InfoPair> = Vec::new();
    let mut index: usize = 0;
    assert(pair_views(pairs@) == projected(texts.take(0)));
    while index < entries.len()
        invariant
            index <= entries@.len(),
            texts == text_views(entries@),
            pair_views(pairs@) == projected(texts.take(index as int)),
        decreases entries.len() - index,
    {
        proof {
            let next = texts.take(index + 1);
            assert(next.drop_last() == texts.take(index as int));
            assert(next.last() == entries@[index as int]@);
        }
        let value = entries[index].value.as_str();
        match caf_info_key_for_riff_chunk_id(entries[index].id, value) {
            Some(key) => add_value(&mut pairs, key, value),
            None => {},
        }
        index = index + 1;
    }
    assert(texts.take(index as int) == texts);
    assert(pair_views(pairs@).len() == pairs@.len());
    if pairs.len() == 0 {
        return Ok(None);
    }
    Ok(Some(write_pairs(pairs.as_slice())))
}

/// A marker at a sample.
pub open spec fn marker_bytes(number: nat, offset: u32) -> Seq<u8> {
    be_bytes(CAF_MARKER_TYPE_GENERIC as nat, 4) + be_bytes(double_of(offset), 8) + be_bytes(
        number,
        4,
    ) + CAF_INVALID_SMPTE_TIME@ + be_bytes(0, 4)
}

/// Markers, one after the other.
pub open spec fn markers_of(points: Seq<u32>) -> Seq<u8>
    decreases points.len(),
{
    if points.len() == 0 {
        Seq::empty()
    } else {
        markers_of(points.drop_last()) + marker_bytes(points.len(), points.last())
    }
}

/// The payload of the marker chunk, if one is needed, or why there is none.
pub open spec fn marker_payload(metadata: MetadataView) -> std::result::Result<
    Option<Seq<u8>>,
    ErrorView,
> {
    match cue_payload(metadata.cue_points) {
        None => Ok(None),
        Some(payload) => match exact_cue_points(payload) {
            Err(error) => Err(error),
            Ok(points) => if points.len() == 0 {
                Ok(None)
            } else {
                Ok(Some(be_bytes(points.len(), 4) + markers_of(points)))
            },
        },
    }
}

/// The payload of the marker chunk, if one is needed, or why there is none.
pub fn caf_mark_chunk_payload(metadata: &Metadata) -> (payload: Result<Option<Vec<u8>>>)
    ensures
        match marker_payload(metadata@) {
            Ok(expected) => payload matches Ok(found) && payload_view(found) == expected,
            Err(expected) => payload matches Err(error) && error@ == expected,
        },
{
    let cues = match metadata.cue_chunk_payload() {
        Some(cues) => cues,
        None => return Ok(None),
    };
    let cue_points = match parse_riff_cue_payload(cues.as_slice()) {
        Ok(points) => points,
        Err(error) => return Err(error),
    };
    if cue_points.len() == 0 {
        return Ok(None);
    }
    let ghost points = cue_points@;
    let mut payload: Vec<u8> = Vec::new();
    push_be_bytes(&mut payload, cue_points.len() as u64, 4);
    let ghost head = payload@;
    let mut index: usize = 0;
    assert(payload@ == head + markers_of(points.take(0)));
    while index < cue_points.len()
        invariant
            index <= cue_points@.len(),
            cue_points@.len() <= usize::MAX,
            points == cue_points@,
            payload@ == head + markers_of(points.take(index as int)),
        decreases cue_points.len() - index,
    {
        let ghost before = payload@;
        let offset: u32 = cue_points[index];
        index = index + 1;
        push_be_bytes(&mut payload, CAF_MARKER_TYPE_GENERIC as u64, 4);
        push_be_bytes(&mut payload, double_bits(offset), 8);
        push_be_bytes(&mut payload, index as u64, 4);
        append_bytes(&mut payload, CAF_INVALID_SMPTE_TIME.as_slice());
        push_be_bytes(&mut payload, 0, 4);
        proof {
            let next = points.take(index as int);
            assert(next.drop_last() == points.take(index - 1));
            assert(payload@ == before + marker_bytes(index as nat, offset));
            assert(payload@ == head + markers_of(next));
        }
    }
    assert(points.take(index as int) == points);
    Ok(Some(payload))
}

/// A chunk with its header.
pub open spec fn caf_chunk(id: Seq<u8>, payload: Seq<u8>) -> Seq<u8> {
    id + be_bytes(payload.len(), 8) + payload
}

/// The payload of the Audio Description chunk.
pub open spec fn desc_payload(spec: PcmSpec) -> Seq<u8> {
    be_bytes(double_of(spec.sample_rate), 8) + LPCM_FORMAT_ID@ + be_bytes(
        CAF_FORMAT_FLAG_IS_LITTLE_ENDIAN as nat,
        4,
    ) + be_bytes(
        (spec.channels * (container_bits(spec.bits_per_sample as u16) / 8)) as nat,
        4,
    ) + be_bytes(1, 4) + be_bytes(spec.channels as nat, 4) + be_bytes(
        spec.bits_per_sample as nat,
        4,
    )
}

/// No chunk, or one with its header, or why it cannot be written.
pub open spec fn optional_caf_chunk(id: Seq<u8>, payload: Option<Seq<u8>>) -> std::result::Result<
    Seq<u8>,
    ErrorView,
> {
    match payload {
        None => Ok(Seq::empty()),
        Some(payload) => if payload.len() > MAX_CHUNK_SIZE {
            unsupported("CAF chunk exceeds signed size range"@)
        } else {
            Ok(caf_chunk(id, payload))
        },
    }
}

/// Appends a chunk with its header.
pub fn write_chunk(output: &mut Vec<u8>, chunk_id: &FourCc, payload: &[u8]) -> (result: Result<()>)
    ensures
        match optional_caf_chunk(chunk_id@, Some(payload@)) {
            Ok(bytes) => result is Ok && final(output)@ == old(output)@ + bytes,
            Err(expected) => {
                &&& final(output)@ == old(output)@
                &&& result matches Err(error) && error@ == expected
            },
        },
{
    if payload.len() as u64 > MAX_CHUNK_SIZE {
        return Err(unsupported_error("CAF chunk exceeds signed size range"));
    }
    append_bytes(output, chunk_id.as_slice());
    push_be_bytes(output, payload.len() as u64, 8);
    append_bytes(output, payload);
    assert(output@ == old(output)@ + caf_chunk(chunk_id@, payload@));
    Ok(())
}

/// Appends the file header.
pub fn write_header(output: &mut Vec<u8>)
    ensures
        final(output)@ == old(output)@ + file_header(),
{
    append_bytes(output, CAF_MAGIC.as_slice());
    push_be_bytes(output, CAF_VERSION as u64, 2);
    push_be_bytes(output, 0, 2);
    assert(output@ == old(output)@ + file_header());
}

/// The file header.
pub open spec fn file_header() -> Seq<u8> {
    CAF_MAGIC@ + be_bytes(CAF_VERSION as nat, 2) + be_bytes(0, 2)
}

/// Appends the Audio Description chunk.
pub fn write_desc_chunk(output: &mut Vec<u8>, spec: PcmSpec)
    ensures
        final(output)@ == old(output)@ + caf_chunk(DESC_CHUNK_ID@, desc_payload(spec)),
{
    let mut payload: Vec<u8> = Vec::new();
    let width: u64 = (container_bits_from_valid_bits(spec.bits_per_sample as u16) / 8) as u64;
    push_be_bytes(&mut payload, double_bits(spec.sample_rate), 8);
    append_bytes(&mut payload, LPCM_FORMAT_ID.as_slice());
    push_be_bytes(&mut payload, CAF_FORMAT_FLAG_IS_LITTLE_ENDIAN as u64, 4);
    assert(spec.channels * width <= 255 * 4) by (nonlinear_arith)
        requires
            spec.channels <= 255,
            width <= 4,
    ;
    push_be_bytes(&mut payload, spec.channels as u64 * width, 4);
    push_be_bytes(&mut payload, 1, 4);
    push_be_bytes(&mut payload, spec.channels as u64, 4);
    push_be_bytes(&mut payload, spec.bits_per_sample as u64, 4);
    assert(payload@ == desc_payload(spec));
    append_bytes(output, DESC_CHUNK_ID.as_slice());
    push_be_bytes(output, payload.len() as u64, 8);
    append_bytes(output, payload.as_slice());
    assert(output@ == old(output)@ + caf_chunk(DESC_CHUNK_ID@, payload@));
}

/// What a chunk that holds audio data starts with, or why it cannot be written.
pub open spec fn data_header(data_bytes: nat) -> std::result::Result<Seq<u8>, ErrorView> {
    if data_bytes + 4 > u64::MAX {
        unsupported("CAF data chunk overflows"@)
    } else if data_bytes + 4 > MAX_CHUNK_SIZE {
        unsupported("CAF data chunk exceeds signed size range"@)
    } else {
        Ok(DATA_CHUNK_ID@ + be_bytes(data_bytes + 4, 8))
    }
}

/// Appends what a chunk that holds audio data starts with.
pub fn write_data_chunk_header(output: &mut Vec<u8>, data_bytes: u64) -> (result: Result<()>)
    ensures
        match data_header(data_bytes as nat) {
            Ok(bytes) => result is Ok && final(output)@ == old(output)@ + bytes,
            Err(expected) => {
                &&& final(output)@ == old(output)@
                &&& result matches Err(error) && error@ == expected
            },
        },
{
    let size: u64 = match data_bytes.checked_add(4) {
        Some(size) => size,
        None => return Err(unsupported_error("CAF data chunk overflows")),
    };
    if size > MAX_CHUNK_SIZE {
        return Err(unsupported_error("CAF data chunk exceeds signed size range"));
    }
    append_bytes(output, DATA_CHUNK_ID.as_slice());
    push_be_bytes(output, size, 8);
    assert(output@ == old(output)@ + (DATA_CHUNK_ID@ + be_bytes(size as nat, 8)));
    Ok(())
}

/// The chunks between the description and the audio data, or why they cannot be
/// written.
#[verifier::opaque]
pub open spec fn middle_chunks(spec: PcmSpec, metadata: MetadataView) -> std::result::Result<
    Seq<u8>,
    ErrorView,
> {
    match (layout_payload(spec), info_payload(metadata), marker_payload(metadata)) {
        (Err(error), _, _) => Err(error),
        (Ok(_), Err(error), _) => Err(error),
        (Ok(_), Ok(_), Err(error)) => Err(error),
        (Ok(layout), Ok(info), Ok(marks)) => match (
            optional_caf_chunk(CHAN_CHUNK_ID@, layout),
            optional_caf_chunk(CAF_INFO_CHUNK_ID@, info),
            optional_caf_chunk(CAF_MARK_CHUNK_ID@, marks),
        ) {
            (Err(error), _, _) => Err(error),
            (Ok(_), Err(error), _) => Err(error),
            (Ok(_), Ok(_), Err(error)) => Err(error),
            (Ok(layout), Ok(info), Ok(marks)) => Ok(layout + info + marks),
        },
    }
}

/// Appends a chunk if there is a payload.
fn write_optional(output: &mut Vec<u8>, id: &FourCc, payload: Option<Vec<u8>>) -> (result: Result<()>)
    ensures
        match optional_caf_chunk(id@, payload_view(payload)) {
            Ok(bytes) => result is Ok && final(output)@ == old(output)@ + bytes,
            Err(expected) => result matches Err(error) && error@ == expected,
        },
{
    match payload {
        Some(payload) => write_chunk(output, id, payload.as_slice()),
        None => {
            assert(output@ == old(output)@ + Seq::<u8>::empty());
            Ok(())
        },
    }
}

/// Appends the chunks between the description and the audio data.
fn write_middle_chunks(output: &mut Vec<u8>, spec: PcmSpec, metadata: &Metadata) -> (result: Result<
    (),
>)
    ensures
        match middle_chunks(spec, metadata@) {
            Ok(bytes) => result is Ok && final(output)@ == old(output)@ + bytes,
            Err(expected) => result matches Err(error) && error@ == expected,
        },
{
    reveal(middle_chunks);
    let layout = match caf_channel_layout_chunk(spec) {
        Ok(layout) => layout,
        Err(error) => return Err(error),
    };
    let info = match caf_info_chunk_payload(metadata) {
        Ok(info) => info,
        Err(error) => return Err(error),
    };
    let marks = match caf_mark_chunk_payload(metadata) {
        Ok(marks) => marks,
        Err(error) => return Err(error),
    };
    let ghost views = (payload_view(layout), payload_view(info), payload_view(marks));
    match write_optional(output, &CHAN_CHUNK_ID, layout) {
        Ok(()) => {},
        Err(error) => return Err(error),
    }
    match write_optional(output, &CAF_INFO_CHUNK_ID, info) {
        Ok(()) => {},
        Err(error) => return Err(error),
    }
    match write_optional(output, &CAF_MARK_CHUNK_ID, marks) {
        Ok(()) => {},
        Err(error) => return Err(error),
    }
    proof {
        let first = optional_caf_chunk(CHAN_CHUNK_ID@, views.0)->Ok_0;
        let second = optional_caf_chunk(CAF_INFO_CHUNK_ID@, views.1)->Ok_0;
        let third = optional_caf_chunk(CAF_MARK_CHUNK_ID@, views.2)->Ok_0;
        assert(output@ == old(output)@ + (first + second + third));
    }
    Ok(())
}

/// What stands in front of `data_bytes` bytes of audio data, or why there is no file
/// that holds them.
#[verifier::opaque]
pub open spec fn caf_head(spec: PcmSpec, metadata: MetadataView, data_bytes: nat)
    -> std::result::Result<Seq<u8>, ErrorView> {
    match middle_chunks(spec, metadata) {
        Err(error) => Err(error),
        Ok(middle) => match data_header(data_bytes) {
            Err(error) => Err(error),
            Ok(header) => Ok(
                file_header() + caf_chunk(DESC_CHUNK_ID@, desc_payload(spec)) + middle + header
                    + be_bytes(0, 4),
            ),
        },
    }
}

/// What stands in front of the audio data.
fn head_bytes(spec: PcmSpec, metadata: &Metadata, data_bytes: u64) -> (head: Result<Vec<u8>>)
    ensures
        match caf_head(spec, metadata@, data_bytes as nat) {
            Ok(expected) => head matches Ok(bytes) && bytes@ == expected,
            Err(expected) => head matches Err(error) && error@ == expected,
        },
{
    reveal(caf_head);
    let mut head: Vec<u8> = Vec::new();
    write_header(&mut head);
    write_desc_chunk(&mut head, spec);
    let ghost start = head@;
    match write_middle_chunks(&mut head, spec, metadata) {
        Ok(()) => {},
        Err(error) => return Err(error),
    }
    match write_data_chunk_header(&mut head, data_bytes) {
        Ok(()) => {},
        Err(error) => return Err(error),
    }
    push_be_bytes(&mut head, 0, 4);
    proof {
        let middle = middle_chunks(spec, metadata@)->Ok_0;
        let header = data_header(data_bytes as nat)->Ok_0;
        assert(start == file_header() + caf_chunk(DESC_CHUNK_ID@, desc_payload(spec)));
        assert(head@ == start + middle + header + be_bytes(0, 4));
    }
    Ok(head)
}

/// The file with the given samples, or why they do not go into one.
pub open spec fn stored_caf(spec: PcmSpec, samples: Seq<i32>, metadata: MetadataView)
    -> std::result::Result<Seq<u8>, ErrorView> {
    let envelope = plain_envelope(spec);
    let data_bytes = samples.len() * (envelope.container_bits_per_sample / 8) as nat;
    if data_bytes > u64::MAX {
        unsupported("CAF data chunk overflows"@)
    } else {
        match caf_head(spec, metadata, data_bytes) {
            Err(error) => Err(error),
            Ok(head) => match encoded_samples(samples, envelope, ByteOrder::Little) {
                Err(error) => Err(error),
                Ok(data) => Ok(head + data),
            },
        }
    }
}

/// The file with the given samples, or why there is none.
pub open spec fn caf_file(spec: PcmSpec, samples: Seq<i32>, metadata: MetadataView)
    -> std::result::Result<Seq<u8>, ErrorView> {
    if shape_failure(spec) is Some {
        Err(shape_failure(spec).unwrap())
    } else if samples.len() % (spec.channels as nat) != 0 {
        Err(ErrorView::Decode("decoded samples are not aligned to the channel count"@))
    } else if width_failure(spec) is Some {
        Err(width_failure(spec).unwrap())
    } else {
        match encoded_samples(samples, digest_envelope(spec), ByteOrder::Little) {
            Err(error) => Err(error),
            Ok(_) => stored_caf(spec, samples, metadata),
        }
    }
}

/// The file with the given samples.
fn file_bytes(spec: PcmSpec, samples: &[i32], metadata: &Metadata) -> (file: Result<Vec<u8>>)
    ensures
        match stored_caf(spec, samples@, metadata@) {
            Ok(expected) => file matches Ok(bytes) && bytes@ == expected,
            Err(expected) => file matches Err(error) && error@ == expected,
        },
{
    let container_bits_per_sample: u16 = container_bits_from_valid_bits(
        spec.bits_per_sample as u16,
    );
    let envelope = PcmEnvelope {
        channels: spec.channels as u16,
        valid_bits_per_sample: spec.bits_per_sample as u16,
        container_bits_per_sample,
        channel_mask: spec.channel_mask,
    };
    let data_bytes: u64 = match (samples.len() as u64).checked_mul(
        (container_bits_per_sample / 8) as u64,
    ) {
        Some(data_bytes) => data_bytes,
        None => return Err(unsupported_error("CAF data chunk overflows")),
    };
    let mut file = match head_bytes(spec, metadata, data_bytes) {
        Ok(head) => head,
        Err(error) => return Err(error),
    };
    match append_ordered_samples(&mut file, samples, envelope, ByteOrder::Little) {
        Ok(()) => Ok(file),
        Err(error) => Err(error),
    }
}

/// Appends the file with the given samples, and returns the digest of the samples.
pub fn write_caf(output: &mut Vec<u8>, spec: PcmSpec, samples: &[i32], metadata: &Metadata)
    -> (digest: Result<Vec<u8>>)
    requires
        samples@.len() * 32 <= u64::MAX,
    ensures
        match caf_file(spec, samples@, metadata@) {
            Ok(file) => {
                &&& final(output)@ == old(output)@ + file
                &&& digest matches Ok(bytes) && streaminfo_digest(spec, samples@) == Ok::<
                    Seq<u8>,
                    ErrorView,
                >(bytes@)
            },
            Err(expected) => {
                &&& final(output)@ == old(output)@
                &&& digest matches Err(error) && error@ == expected
            },
        },
{
    match check_shape(spec) {
        Ok(()) => {},
        Err(error) => return Err(error),
    }
    if samples.len() % spec.channels as usize != 0 {
        return Err(
            Error::Decode("decoded samples are not aligned to the channel count".to_owned()),
        );
    }
    match check_width(spec) {
        Ok(_) => {},
        Err(error) => return Err(error),
    }
    let digest = match streaminfo_md5(spec, samples) {
        Ok(digest) => digest,
        Err(error) => return Err(error),
    };
    match file_bytes(spec, samples, metadata) {
        Ok(file) => {
            append_bytes(output, file.as_slice());
            Ok(digest)
        },
        Err(error) => Err(error),
    }
}

/// Writes a file whose samples come piece by piece.
#[derive(Debug, Clone)]
pub struct CafStreamWriter {
    writer: Vec<u8>,
    envelope: PcmEnvelope,
}

/// What a file whose samples come piece by piece starts with, or why there is none.
pub open spec fn streamed_head(spec: PcmSpec, metadata: MetadataView) -> std::result::Result<
    Seq<u8>,
    ErrorView,
> {
    let data_bytes = (spec.total_samples * spec.channels) as nat * (container_bits(
        spec.bits_per_sample as u16,
    ) / 8) as nat;
    if shape_failure(spec) is Some {
        Err(shape_failure(spec).unwrap())
    } else if width_failure(spec) is Some {
        Err(width_failure(spec).unwrap())
    } else if data_bytes > u64::MAX {
        unsupported("CAF data chunk overflows"@)
    } else {
        caf_head(spec, metadata, data_bytes)
    }
}

impl CafStreamWriter {
    /// The bytes written so far.
    pub closed spec fn written(&self) -> Seq<u8> {
        self.writer@
    }

    /// How the samples are stored.
    pub closed spec fn layout(&self) -> PcmEnvelope {
        self.envelope
    }

    /// Starts a file behind the bytes that `writer` holds.
    pub fn new(writer: Vec<u8>, spec: PcmSpec, metadata: &Metadata) -> (stream: Result<Self>)
        ensures
            match streamed_head(spec, metadata@) {
                Err(expected) => stream matches Err(error) && error@ == expected,
                Ok(head) => stream matches Ok(found) && {
                    &&& found.written() == writer@ + head
                    &&& found.layout() == plain_envelope(spec)
                },
            },
    {
        match check_shape(spec) {
            Ok(()) => {},
            Err(error) => return Err(error),
        }
        let envelope = match check_width(spec) {
            Ok(envelope) => envelope,
            Err(error) => return Err(error),
        };
        let width: u64 = (envelope.container_bits_per_sample / 8) as u64;
        let samples: u64 = match spec.total_samples.checked_mul(spec.channels as u64) {
            Some(samples) => samples,
            None => {
                proof {
                    let exact = spec.total_samples * spec.channels;
                    assert(exact * width > u64::MAX) by (nonlinear_arith)
                        requires
                            exact > u64::MAX,
                            width >= 1,
                    ;
                }
                return Err(unsupported_error("CAF data chunk overflows"));
            },
        };
        let data_bytes: u64 = match samples.checked_mul(width) {
            Some(data_bytes) => data_bytes,
            None => return Err(unsupported_error("CAF data chunk overflows")),
        };
        let head = match head_bytes(spec, metadata, data_bytes) {
            Ok(head) => head,
            Err(error) => return Err(error),
        };
        let mut writer = writer;
        append_bytes(&mut writer, head.as_slice());
        Ok(CafStreamWriter { writer, envelope })
    }

    /// Writes the next samples.
    pub fn write_samples(&mut self, samples: &[i32]) -> (result: Result<()>)
        ensures
            final(self).layout() == old(self).layout(),
            match encoded_samples(samples@, old(self).layout(), ByteOrder::Little) {
                Ok(bytes) => result is Ok && final(self).written() == old(self).written() + bytes,
                Err(expected) => {
                    &&& result matches Err(error) && error@ == expected
                    &&& final(self).written() == old(self).written() + stored_front(
                        samples@,
                        old(self).layout(),
                        ByteOrder::Little,
                    )
                },
            },
    {
        append_ordered_samples(&mut self.writer, samples, self.envelope, ByteOrder::Little)
    }

    /// The number of bytes written so far.
    pub fn bytes_written(&self) -> (count: usize)
        ensures
            count == self.written().len(),
    {
        self.writer.len()
    }

    /// Gives up the file and returns what was written of it.
    pub fn into_unfinished(self) -> (bytes: Vec<u8>)
        ensures
            bytes@ == self.written(),
    {
        self.writer
    }

    /// Ends the file and returns all bytes.
    pub fn finish(self) -> (file: Result<Vec<u8>>)
        ensures
            file matches Ok(bytes) && bytes@ == self.written(),
    {
        Ok(self.writer)
    }
}

} // verus!
