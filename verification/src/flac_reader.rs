//! Reading whole FLAC streams.

use vstd::arithmetic::div_mod::{lemma_fundamental_div_mod, lemma_mod_bound};
use vstd::arithmetic::mul::lemma_mul_is_commutative;
use vstd::prelude::*;
use vstd::slice::slice_subrange;

use crate::bits::{fits_signed, power_of_two};
use crate::byte_reader::{available, be_at, bytes_at, end_of_file};
use crate::bytes::{bytes_equal, lemma_be_value_bound, lemma_byte_ranges, read_be};
use crate::decode::{align_metadata_to_stream_spec, mask_is_trusted, unmarked_mask, BufferedPcmStream, DecodeSource};
use crate::decode_output::DecodePcmStream;
use crate::error::{Error, ErrorView, IoErrorKind, Result};
use crate::flac_writer::{FLAC_MARKER, STREAMINFO_LENGTH};
use crate::frame_decoding::{decode_frame, decoded_front, FrameHeader};
use crate::frame_header::{channel_count, count_channels};
use crate::frame_reading::{HeaderView, StreamFormat};
use crate::metadata::{empty_metadata, with_flac_block, Metadata, MetadataView};
use crate::pcm::{container_bits, container_bits_from_valid_bits, ordinary_channel_mask, ordinary_mask, PcmSpec, PcmStream};
use crate::recompress::FlacReaderOptions;
use crate::rice::all_fit;
use crate::seektable::{seektable_check, validate_seektable_payload, SEEKTABLE_BLOCK_TYPE};
use crate::stream_info::{digest_array, read_info, InfoFields, StreamInfo};

verus! {

pub open spec fn invalid_flac<T>(text: Seq<char>) -> std::result::Result<T, ErrorView> {
    Err(ErrorView::InvalidFlac(text))
}

/// What a metadata block adds, or why it cannot be read.
pub open spec fn with_block(
    metadata: MetadataView,
    block_type: u8,
    payload: Seq<u8>,
    total_samples: u64,
    strict: bool,
    channels: u8,
) -> std::result::Result<MetadataView, ErrorView> {
    if block_type == 0 {
        invalid_flac("STREAMINFO block occurs twice"@)
    } else if block_type == 127 {
        invalid_flac("metadata block type 127 is not allowed"@)
    } else if strict && block_type == SEEKTABLE_BLOCK_TYPE && seektable_check(payload) is Err {
        Err(seektable_check(payload)->Err_0)
    } else {
        with_flac_block(metadata, block_type, payload, total_samples, channels)
    }
}

/// What the metadata blocks from a position on hold, and where they end.
pub open spec fn blocks_from(
    bytes: Seq<u8>,
    position: nat,
    total_samples: u64,
    strict: bool,
    metadata: MetadataView,
    channels: u8,
) -> std::result::Result<(MetadataView, nat), ErrorView>
    decreases
            if position <= bytes.len() {
                bytes.len() - position
            } else {
                0
            },
{
    if !available(bytes, position, 4) {
        Err(end_of_file())
    } else {
        let size = be_at(bytes, position + 1, 3);
        if !available(bytes, position + 4, size) {
            Err(end_of_file())
        } else {
            match with_block(
                metadata,
                (bytes[position as int] % 128) as u8,
                bytes_at(bytes, position + 4, size),
                total_samples,
                strict,
                channels,
            ) {
                Err(error) => Err(error),
                Ok(found) => if bytes[position as int] >= 128 {
                    Ok((found, position + 4 + size))
                } else {
                    blocks_from(bytes, position + 4 + size, total_samples, strict, found, channels)
                },
            }
        }
    }
}

/// A frame belongs to a stream with this description.
pub open spec fn frame_matches(header: HeaderView, info: InfoFields) -> bool {
    &&& header.sample_rate == info.sample_rate
    &&& header.bits_per_sample == info.bits_per_sample
    &&& info.channels == channel_count(header.assignment)
}

/// What the frames of a stream may leave to its description.
pub open spec fn stream_format(info: InfoFields) -> StreamFormat {
    StreamFormat {
        sample_rate: info.sample_rate as u32,
        bits_per_sample: info.bits_per_sample as u8,
    }
}

/// The samples and the number of the frames from a position on.
pub open spec fn frames_from(bytes: Seq<u8>, position: nat, info: InfoFields) -> std::result::Result<
    (Seq<i32>, nat),
    ErrorView,
>
    decreases
            if position <= bytes.len() {
                bytes.len() - position
            } else {
                0
            },
{
    if position >= bytes.len() {
        Ok((Seq::empty(), 0))
    } else {
        match decoded_front(bytes.skip(position as int), stream_format(info)) {
            None => invalid_flac("frame cannot be decoded"@),
            Some((header, samples, end)) => if !frame_matches(header, info) {
                invalid_flac("frame does not match STREAMINFO"@)
            } else if !all_fit(samples, info.bits_per_sample) {
                invalid_flac("frame holds samples that exceed its width"@)
            } else if end <= 0 {
                invalid_flac("frame cannot be decoded"@)
            } else {
                match frames_from(bytes, (position + end) as nat, info) {
                    Err(error) => Err(error),
                    Ok((rest, frames)) => Ok((samples + rest, frames + 1)),
                }
            },
        }
    }
}

proof fn lemma_frames_fit(bytes: Seq<u8>, position: nat, info: InfoFields)
    ensures
        frames_from(bytes, position, info) matches Ok((samples, _)) ==> all_fit(
            samples,
            info.bits_per_sample,
        ),
    decreases
            if position <= bytes.len() {
                bytes.len() - position
            } else {
                0
            },
{
    if position < bytes.len() {
        if let Some((header, samples, end)) = decoded_front(
            bytes.skip(position as int),
            stream_format(info),
        ) {
            if end > 0 {
                lemma_frames_fit(bytes, (position + end) as nat, info);
                if let Ok((rest, _)) = frames_from(bytes, (position + end) as nat, info) {
                    let all = samples + rest;
                    if all_fit(samples, info.bits_per_sample) {
                        assert forall|i: int| 0 <= i < all.len() implies fits_signed(
                            #[trigger] all[i] as int,
                            info.bits_per_sample,
                        ) by {
                            if i < samples.len() {
                                assert(all[i] == samples[i]);
                            } else {
                                assert(all[i] == rest[i - samples.len()]);
                            }
                        }
                    }
                }
            }
        }
    }
}

/// What a FLAC stream holds.
pub struct FlacContents {
    pub info: InfoFields,
    pub metadata: MetadataView,
    pub samples: Seq<i32>,
    pub frames: nat,
}

/// The most samples that a description can announce.
pub const MAX_SAMPLES: u64 = 0x80_0000_0000;

/// The samples are those that the description announces; a stream may leave their number
/// open.
pub open spec fn count_agrees(info: InfoFields, samples: nat) -> bool {
    samples == info.total_samples * info.channels || (info.total_samples == 0 && samples
        <= MAX_SAMPLES)
}

/// What a FLAC stream holds, or why it cannot be read.
pub open spec fn flac_contents(bytes: Seq<u8>, options: FlacReaderOptions) -> std::result::Result<
    FlacContents,
    ErrorView,
> {
    if !available(bytes, 0, 8) {
        Err(end_of_file())
    } else if bytes_at(bytes, 0, 4) != FLAC_MARKER@ {
        invalid_flac("expected fLaC stream marker"@)
    } else if bytes[4] % 128 != 0 || be_at(bytes, 5, 3) != STREAMINFO_LENGTH {
        invalid_flac("expected a STREAMINFO block of 34 bytes"@)
    } else if !available(bytes, 8, 34) {
        Err(end_of_file())
    } else {
        let info = read_info(bytes_at(bytes, 8, 34));
        let blocks = if bytes[4] >= 128 {
            Ok((empty_metadata(), 42nat))
        } else {
            blocks_from(
                bytes,
                42,
                info.total_samples as u64,
                options.strict_seektable_validation,
                empty_metadata(),
                info.channels as u8,
            )
        };
        match blocks {
            Err(error) => Err(error),
            Ok((metadata, start)) => match frames_from(bytes, start, info) {
                Err(error) => Err(error),
                Ok((samples, frames)) => {
                    let contents = FlacContents { info, metadata, samples, frames };
                    if !count_agrees(info, samples.len()) {
                        invalid_flac("decoded sample count does not match STREAMINFO"@)
                    } else if !mask_is_trusted(
                        metadata,
                        contents_spec(contents),
                        options.strict_channel_mask_provenance,
                    ) {
                        Err(unmarked_mask())
                    } else {
                        Ok(contents)
                    }
                },
            },
        }
    }
}

/// What was read of a stream fits in the width that the stream declares.
pub proof fn law_decoded_samples_fit(bytes: Seq<u8>, options: FlacReaderOptions)
    ensures
        flac_contents(bytes, options) matches Ok(contents) ==> all_fit(
            contents.samples,
            contents.info.bits_per_sample,
        ),
{
    if flac_contents(bytes, options) is Ok {
        let info = read_info(bytes_at(bytes, 8, 34));
        let start = if bytes[4] >= 128 {
            42nat
        } else {
            blocks_from(
                bytes,
                42,
                info.total_samples as u64,
                options.strict_seektable_validation,
                empty_metadata(),
                info.channels as u8,
            )->Ok_0.1
        };
        lemma_frames_fit(bytes, start, info);
    }
}

/// What a description says.
pub open spec fn info_fields(info: StreamInfo) -> InfoFields {
    InfoFields {
        min_block_size: info.min_block_size as nat,
        max_block_size: info.max_block_size as nat,
        min_frame_size: info.min_frame_size as nat,
        max_frame_size: info.max_frame_size as nat,
        sample_rate: info.sample_rate as nat,
        channels: info.channels as nat,
        bits_per_sample: info.bits_per_sample as nat,
        total_samples: info.total_samples as nat,
        md5: info.md5@,
    }
}

/// Reads the payload of a STREAMINFO block.
pub fn read_stream_info(payload: &[u8]) -> (info: StreamInfo)
    requires
        payload@.len() == 34,
    ensures
        info_fields(info) == read_info(payload@),
        1 <= info.channels <= 8,
        1 <= info.bits_per_sample <= 32,
        info.total_samples < 0x10_0000_0000,
{
    proof {
        lemma_byte_ranges();
        lemma_be_value_bound(payload@.subrange(0, 2));
        lemma_be_value_bound(payload@.subrange(2, 4));
        lemma_be_value_bound(payload@.subrange(4, 7));
        lemma_be_value_bound(payload@.subrange(7, 10));
        lemma_be_value_bound(payload@.subrange(10, 18));
        assert(payload@.subrange(18, 34) == payload@.skip(18));
    }
    let word: u64 = read_be(payload, 10, 8);
    StreamInfo {
        min_block_size: read_be(payload, 0, 2) as u16,
        max_block_size: read_be(payload, 2, 2) as u16,
        min_frame_size: read_be(payload, 4, 3) as u32,
        max_frame_size: read_be(payload, 7, 3) as u32,
        sample_rate: (word / 0x1000_0000_0000) as u32,
        channels: ((word / 0x200_0000_0000) % 8) as u8 + 1,
        bits_per_sample: ((word / 0x10_0000_0000) % 32) as u8 + 1,
        total_samples: word % 0x10_0000_0000,
        md5: digest_array(slice_subrange(payload, 18, 34)),
    }
}

/// Takes in a metadata block.
fn take_block(
    metadata: &mut Metadata,
    block_type: u8,
    payload: &[u8],
    total_samples: u64,
    strict: bool,
    channels: u8,
) -> (result: Result<()>)
    ensures
        match with_block(old(metadata)@, block_type, payload@, total_samples, strict, channels) {
            Ok(expected) => result is Ok && final(metadata)@ == expected,
            Err(expected) => result matches Err(error) && error@ == expected,
        },
{
    if block_type == 0 {
        return Err(Error::InvalidFlac("STREAMINFO block occurs twice"));
    }
    if block_type == 127 {
        return Err(Error::InvalidFlac("metadata block type 127 is not allowed"));
    }
    if strict && block_type == SEEKTABLE_BLOCK_TYPE {
        match validate_seektable_payload(payload) {
            Ok(()) => {},
            Err(error) => return Err(error),
        }
    }
    metadata.ingest_flac_metadata_block(block_type, payload, total_samples, channels)
}

/// Reads the metadata blocks from a position on, and tells where they end.
fn read_blocks(
    bytes: &[u8],
    start: usize,
    total_samples: u64,
    strict: bool,
    channels: u8,
) -> (read: Result<(Metadata, usize)>)
    requires
        start <= bytes@.len(),
    ensures
        match blocks_from(bytes@, start as nat, total_samples, strict, empty_metadata(), channels) {
            Ok((metadata, end)) => read matches Ok((found, behind)) && {
                &&& found@ == metadata
                &&& behind == end
                &&& behind <= bytes@.len()
            },
            Err(expected) => read matches Err(error) && error@ == expected,
        },
{
    let mut metadata = Metadata::new();
    let mut position: usize = start;
    loop
        invariant
            position <= bytes@.len(),
            blocks_from(bytes@, start as nat, total_samples, strict, empty_metadata(), channels)
                == blocks_from(bytes@, position as nat, total_samples, strict, metadata@, channels),
        decreases bytes@.len() - position,
    {
        let left: usize = bytes.len() - position;
        if left < 4 {
            return Err(Error::Io(IoErrorKind::UnexpectedEof));
        }
        let kind: u8 = bytes[position];
        proof {
            lemma_byte_ranges();
            lemma_be_value_bound(bytes@.subrange(position + 1, position + 4));
        }
        let size: usize = read_be(bytes, position + 1, 3) as usize;
        if left - 4 < size {
            return Err(Error::Io(IoErrorKind::UnexpectedEof));
        }
        let payload = slice_subrange(bytes, position + 4, position + 4 + size);
        match take_block(&mut metadata, kind % 128, payload, total_samples, strict, channels) {
            Ok(()) => {},
            Err(error) => return Err(error),
        }
        position = position + 4 + size;
        if kind >= 128 {
            return Ok((metadata, position));
        }
    }
}

/// Whether samples fit in a width.
fn samples_fit(samples: &[i32], width: u8) -> (fit: bool)
    requires
        1 <= width <= 32,
    ensures
        fit == all_fit(samples@, width as nat),
{
    proof {
        vstd::arithmetic::power2::lemma2_to64();
        if width < 32 {
            vstd::arithmetic::power2::lemma_pow2_strictly_increases((width - 1) as nat, 31);
        }
    }
    let limit: i64 = power_of_two(width - 1) as i64;
    let mut index: usize = 0;
    while index < samples.len()
        invariant
            index <= samples@.len(),
            1 <= width <= 32,
            limit == vstd::arithmetic::power2::pow2((width - 1) as nat),
            limit <= 0x8000_0000,
            forall|i: int|
                0 <= i < index ==> fits_signed(
                    #[trigger] samples@[i] as int,
                    width as nat,
                ),
        decreases samples.len() - index,
    {
        let sample: i64 = samples[index] as i64;
        if sample < -limit || sample >= limit {
            assert(!fits_signed(samples@[index as int] as int, width as nat));
            return false;
        }
        index = index + 1;
    }
    true
}

/// Whether a frame belongs to a stream with this description.
fn test_frame(header: &FrameHeader, info: &StreamInfo) -> (same: bool)
    ensures
        same == frame_matches(header@, info_fields(*info)),
{
    let channels: u8 = count_channels(header.assignment);
    header.sample_rate == info.sample_rate && header.bits_per_sample == info.bits_per_sample
        && info.channels == channels
}

/// Appends samples.
fn append_all(samples: &mut Vec<i32>, more: &[i32])
    ensures
        final(samples)@ == old(samples)@ + more@,
{
    let ghost before = samples@;
    let mut index: usize = 0;
    while index < more.len()
        invariant
            index <= more@.len(),
            samples@ == before + more@.take(index as int),
        decreases more.len() - index,
    {
        samples.push(more[index]);
        index = index + 1;
        assert(samples@ == before + more@.take(index as int));
    }
    assert(more@.take(more@.len() as int) == more@);
}

/// Reads the frames from a position on.
fn read_frames(bytes: &[u8], start: usize, info: &StreamInfo) -> (read: Result<(Vec<i32>, usize)>)
    requires
        start <= bytes@.len(),
        8 * bytes@.len() <= usize::MAX,
        1 <= info.bits_per_sample <= 32,
    ensures
        match frames_from(bytes@, start as nat, info_fields(*info)) {
            Ok((samples, frames)) => read matches Ok((found, count)) && {
                &&& found@ == samples
                &&& count == frames
            },
            Err(expected) => read matches Err(error) && error@ == expected,
        },
{
    let ghost fields = info_fields(*info);
    let format = StreamFormat {
        sample_rate: info.sample_rate,
        bits_per_sample: info.bits_per_sample,
    };
    let mut samples: Vec<i32> = Vec::new();
    let mut frames: usize = 0;
    let mut position: usize = start;
    proof {
        if let Ok((rest, _)) = frames_from(bytes@, start as nat, fields) {
            assert(Seq::<i32>::empty() + rest == rest);
        }
    }
    while position < bytes.len()
        invariant
            start <= position <= bytes@.len(),
            8 * bytes@.len() <= usize::MAX,
            1 <= info.bits_per_sample <= 32,
            fields == info_fields(*info),
            format == stream_format(fields),
            frames <= position - start,
            match frames_from(bytes@, position as nat, fields) {
                Ok((rest, more)) => frames_from(bytes@, start as nat, fields) == Ok::<
                    (Seq<i32>, nat),
                    ErrorView,
                >((samples@ + rest, (frames + more) as nat)),
                Err(error) => frames_from(bytes@, start as nat, fields) == Err::<
                    (Seq<i32>, nat),
                    ErrorView,
                >(error),
            },
        decreases bytes.len() - position,
    {
        let behind = slice_subrange(bytes, position, bytes.len());
        assert(behind@ == bytes@.skip(position as int));
        let (header, signal, length) = match decode_frame(behind, format) {
            None => return Err(Error::InvalidFlac("frame cannot be decoded")),
            Some(found) => found,
        };
        if !test_frame(&header, info) {
            return Err(Error::InvalidFlac("frame does not match STREAMINFO"));
        }
        if !samples_fit(signal.as_slice(), info.bits_per_sample) {
            return Err(Error::InvalidFlac("frame holds samples that exceed its width"));
        }
        let ghost earlier = samples@;
        append_all(&mut samples, signal.as_slice());
        proof {
            if let Ok((rest, _)) = frames_from(bytes@, (position + length) as nat, fields) {
                assert(earlier + (signal@ + rest) == samples@ + rest);
            }
        }
        position = position + length;
        frames = frames + 1;
    }
    assert(samples@ + Seq::<i32>::empty() == samples@);
    Ok((samples, frames))
}

/// A FLAC stream that was read.
#[derive(Debug, Clone)]
pub struct FlacReader {
    info: StreamInfo,
    metadata: Metadata,
    samples: Vec<i32>,
    frames: usize,
}

/// The speaker positions of a stream: those that its metadata name, or else those that
/// its channel count has by convention.
pub open spec fn stream_mask(metadata: MetadataView, channels: nat) -> u32 {
    match metadata.channel_mask {
        Some(mask) => mask,
        None => match ordinary_mask(channels as u16) {
            Some(mask) => mask,
            None => 0,
        },
    }
}

/// The description of the samples of a stream.
pub open spec fn contents_spec(contents: FlacContents) -> PcmSpec {
    PcmSpec {
        sample_rate: contents.info.sample_rate as u32,
        channels: contents.info.channels as u8,
        bits_per_sample: contents.info.bits_per_sample as u8,
        total_samples: (contents.samples.len() / contents.info.channels) as u64,
        bytes_per_sample: (container_bits(contents.info.bits_per_sample as u16) / 8) as u16,
        channel_mask: stream_mask(contents.metadata, contents.info.channels),
    }
}

/// The error of a stream whose bits cannot be counted.
pub open spec fn too_large() -> ErrorView {
    ErrorView::UnsupportedFlac("stream is too large to be read"@)
}

impl FlacReader {
    /// What the stream holds.
    pub closed spec fn contents(&self) -> FlacContents {
        FlacContents {
            info: info_fields(self.info),
            metadata: self.metadata@,
            samples: self.samples@,
            frames: self.frames as nat,
        }
    }

    /// The reader keeps its own rules.
    pub closed spec fn is_valid(&self) -> bool {
        &&& 1 <= self.info.channels <= 8
        &&& 1 <= self.info.bits_per_sample <= 32
    }

    /// The description of the samples.
    pub fn spec(&self) -> (spec: PcmSpec)
        requires
            self.is_valid(),
        ensures
            spec == contents_spec(self.contents()),
    {
        let channels: u8 = self.info.channels;
        let channel_mask: u32 = match self.metadata.channel_mask() {
            Some(mask) => mask,
            None => match ordinary_channel_mask(channels as u16) {
                Some(mask) => mask,
                None => 0,
            },
        };
        PcmSpec {
            sample_rate: self.info.sample_rate,
            channels,
            bits_per_sample: self.info.bits_per_sample,
            total_samples: (self.samples.len() / channels as usize) as u64,
            bytes_per_sample: container_bits_from_valid_bits(self.info.bits_per_sample as u16) / 8,
            channel_mask,
        }
    }

    /// What the stream says of itself.
    pub fn stream_info(&self) -> (info: StreamInfo)
        ensures
            info_fields(info) == self.contents().info,
    {
        self.info
    }

    /// The metadata of the stream.
    pub fn metadata(&self) -> (metadata: &Metadata)
        ensures
            metadata@ == self.contents().metadata,
    {
        &self.metadata
    }

    /// The samples of the stream, with its metadata, as a source to decode.
    pub fn into_decode_source(self) -> (source: DecodeSource<BufferedPcmStream>)
        requires
            self.is_valid(),
        ensures
            source.staged() == self.contents().metadata,
            ({
                let stream = source.samples();
                &&& stream.is_valid()
                &&& stream.description() == contents_spec(self.contents())
                &&& info_fields(stream.info()) == self.contents().info
                &&& stream.upcoming() == self.contents().samples
                &&& stream.frame_total() == self.contents().frames
                &&& stream.is_whole()
                &&& stream.delivers()
            }),
    {
        let spec = self.spec();
        let stream = BufferedPcmStream::new(spec, self.info, self.samples, self.frames, true);
        DecodeSource::new(self.metadata, stream)
    }

    /// The metadata and the samples of the stream.
    pub fn into_parts(self) -> (parts: (Metadata, PcmStream))
        requires
            self.is_valid(),
        ensures
            parts.0@ == self.contents().metadata,
            parts.1.spec == contents_spec(self.contents()),
            parts.1.samples@ == self.contents().samples,
    {
        let spec = self.spec();
        (self.metadata, PcmStream { spec, samples: self.samples })
    }
}

/// Reads a FLAC stream.
pub fn read_flac_reader_with_options(bytes: &[u8], options: FlacReaderOptions) -> (reader: Result<
    FlacReader,
>)
    ensures
        if 8 * bytes@.len() > usize::MAX {
            reader matches Err(error) && error@ == too_large()
        } else {
            match flac_contents(bytes@, options) {
                Ok(contents) => reader matches Ok(found) && {
                    &&& found.contents() == contents
                    &&& found.is_valid()
                    &&& contents.samples.len() <= MAX_SAMPLES
                    &&& contents_spec(contents).total_samples * contents_spec(contents).channels
                        <= contents.samples.len()
                },
                Err(expected) => reader matches Err(error) && error@ == expected,
            }
        },
{
    let length: usize = bytes.len();
    if length > usize::MAX / 8 {
        return Err(Error::UnsupportedFlac("stream is too large to be read".to_owned()));
    }
    if length < 8 {
        return Err(Error::Io(IoErrorKind::UnexpectedEof));
    }
    if !bytes_equal(slice_subrange(bytes, 0, 4), FLAC_MARKER.as_slice()) {
        return Err(Error::InvalidFlac("expected fLaC stream marker"));
    }
    if bytes[4] % 128 != 0 || read_be(bytes, 5, 3) != STREAMINFO_LENGTH as u64 {
        return Err(Error::InvalidFlac("expected a STREAMINFO block of 34 bytes"));
    }
    if length < 42 {
        return Err(Error::Io(IoErrorKind::UnexpectedEof));
    }
    let info = read_stream_info(slice_subrange(bytes, 8, 42));
    let (metadata, start) = if bytes[4] >= 128 {
        (Metadata::new(), 42usize)
    } else {
        match read_blocks(
            bytes,
            42,
            info.total_samples,
            options.strict_seektable_validation,
            info.channels,
        ) {
            Ok(found) => found,
            Err(error) => return Err(error),
        }
    };
    let (samples, frames) = match read_frames(bytes, start, &info) {
        Ok(found) => found,
        Err(error) => return Err(error),
    };
    proof {
        assert(info.total_samples * info.channels <= 0x10_0000_0000 * 8) by (nonlinear_arith)
            requires
                info.total_samples <= 0x10_0000_0000,
                info.channels <= 8,
        ;
    }
    let count: u64 = samples.len() as u64;
    if count != info.total_samples * info.channels as u64 && (info.total_samples != 0 || count
        > MAX_SAMPLES) {
        return Err(Error::InvalidFlac("decoded sample count does not match STREAMINFO"));
    }
    let reader = FlacReader { info, metadata, samples, frames };
    let spec = reader.spec();
    proof {
        let channels = info.channels as int;
        lemma_fundamental_div_mod(reader.samples@.len() as int, channels);
        lemma_mod_bound(reader.samples@.len() as int, channels);
        lemma_mul_is_commutative(channels, reader.samples@.len() as int / channels);
    }
    match align_metadata_to_stream_spec(
        reader.metadata(),
        spec,
        options.strict_channel_mask_provenance,
    ) {
        Ok(()) => Ok(reader),
        Err(error) => Err(error),
    }
}

/// The number of samples that a FLAC stream declares, or why it cannot be read.
pub open spec fn declared_samples(bytes: Seq<u8>) -> std::result::Result<u64, ErrorView> {
    if !available(bytes, 0, 8) {
        Err(end_of_file())
    } else if bytes_at(bytes, 0, 4) != FLAC_MARKER@ {
        invalid_flac("expected fLaC stream marker"@)
    } else if bytes[4] % 128 != 0 || be_at(bytes, 5, 3) != STREAMINFO_LENGTH {
        invalid_flac("expected a STREAMINFO block of 34 bytes"@)
    } else if !available(bytes, 8, 34) {
        Err(end_of_file())
    } else {
        Ok(read_info(bytes_at(bytes, 8, 34)).total_samples as u64)
    }
}

/// Inspect a FLAC stream and return the total sample count recorded in its
/// STREAMINFO metadata.
pub fn inspect_flac_total_samples(bytes: &[u8]) -> (total: Result<u64>)
    ensures
        match declared_samples(bytes@) {
            Ok(expected) => total == Ok::<u64, Error>(expected),
            Err(expected) => total matches Err(error) && error@ == expected,
        },
{
    let length: usize = bytes.len();
    if length < 8 {
        return Err(Error::Io(IoErrorKind::UnexpectedEof));
    }
    if !bytes_equal(slice_subrange(bytes, 0, 4), FLAC_MARKER.as_slice()) {
        return Err(Error::InvalidFlac("expected fLaC stream marker"));
    }
    if bytes[4] % 128 != 0 || read_be(bytes, 5, 3) != STREAMINFO_LENGTH as u64 {
        return Err(Error::InvalidFlac("expected a STREAMINFO block of 34 bytes"));
    }
    if length < 42 {
        return Err(Error::Io(IoErrorKind::UnexpectedEof));
    }
    Ok(read_stream_info(slice_subrange(bytes, 8, 42)).total_samples)
}

/// Reads a FLAC stream without insisting on more than it takes.
pub fn read_flac_reader(bytes: &[u8]) -> (reader: Result<FlacReader>)
    ensures
        ({
            let options = FlacReaderOptions {
                strict_seektable_validation: false,
                strict_channel_mask_provenance: false,
            };
            if 8 * bytes@.len() > usize::MAX {
                reader matches Err(error) && error@ == too_large()
            } else {
                match flac_contents(bytes@, options) {
                    Ok(contents) => reader matches Ok(found) && {
                        &&& found.contents() == contents
                        &&& found.is_valid()
                    },
                    Err(expected) => reader matches Err(error) && error@ == expected,
                }
            }
        }),
{
    let options = FlacReaderOptions {
        strict_seektable_validation: false,
        strict_channel_mask_provenance: false,
    };
    read_flac_reader_with_options(bytes, options)
}

} // verus!
