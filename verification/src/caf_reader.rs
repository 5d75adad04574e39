//! Core Audio Format files as encode inputs.

use vstd::prelude::*;

use crate::byte_reader::ByteReader;
use crate::caf::{parse_caf, parsed_caf, ParsedCaf};
use crate::error::{Error, ErrorView, Result};
use crate::metadata::{empty_metadata, Metadata, MetadataView};
use crate::pcm::{set_bits, PcmSpec};
use crate::raw::{frames_in_bytes, lemma_raw_stream, order_of, raw_envelope, stream_spec, total_samples_from_byte_len_with_descriptor, RawPcmDescriptor, RawPcmStream};
use crate::sample_source::{bytes_from, frame_size, frames_asked, held_samples, read_failure, shortage, SampleSource};
use crate::stream::{count_after, EncodePcmStream, EncodeSource};

verus! {

/// Why a descriptor does not describe a CAF stream, if it does not.
pub open spec fn direct_failure(descriptor: RawPcmDescriptor) -> Option<ErrorView> {
    if descriptor.channel_mask == Some(0u32) {
        Some(
            ErrorView::UnsupportedPcmContainer(
                "CAF channel layout mappings must use a supported non-zero channel bitmap"@,
            ),
        )
    } else {
        match frames_in_bytes(0, descriptor) {
            Err(error) => Some(error),
            Ok(_) => None,
        }
    }
}

/// Tests that a descriptor describes a CAF stream.
pub fn validate_direct_descriptor(descriptor: RawPcmDescriptor) -> (result: Result<()>)
    ensures
        match direct_failure(descriptor) {
            Some(expected) => result matches Err(error) && error@ == expected,
            None => result is Ok,
        },
{
    match descriptor.channel_mask {
        Some(mask) => {
            if mask == 0 {
                return Err(
                    Error::UnsupportedPcmContainer(
                        "CAF channel layout mappings must use a supported non-zero channel bitmap".to_owned(),
                    ),
                );
            }
        },
        None => {},
    }
    match total_samples_from_byte_len_with_descriptor(0, descriptor) {
        Ok(_) => Ok(()),
        Err(error) => Err(error),
    }
}

/// Single-pass PCM stream produced by [`CafReader`].
#[derive(Debug, Clone)]
pub struct CafPcmStream {
    inner: RawPcmStream,
}

/// A stream that is about to read the described samples that bytes hold.
pub open spec fn is_caf_stream_over(
    stream: CafPcmStream,
    bytes: Seq<u8>,
    descriptor: RawPcmDescriptor,
    total_samples: u64,
) -> bool {
    let envelope = raw_envelope(descriptor)->Ok_0;
    let order = order_of(descriptor.byte_order);
    &&& stream.is_valid()
    &&& stream.description() == stream_spec(descriptor.sample_rate, total_samples, envelope)
    &&& stream.upcoming() == held_samples(bytes, total_samples as nat, envelope, order)
    &&& stream.delivers() == (total_samples * frame_size(envelope) <= bytes.len())
    &&& stream.breaks_off() == shortage(bytes.len(), total_samples as nat, envelope)
    &&& stream.chunk_wishes() == (None::<usize>, None::<usize>)
    &&& stream.stored().bytes() == bytes
    &&& stream.stored().left() == total_samples
    &&& stream.stored().layout() == envelope
    &&& stream.stored().byte_order() == order
    &&& stream.processed() == 0
}

impl CafPcmStream {
    /// The stored samples and their number.
    pub closed spec fn stored(&self) -> SampleSource {
        self.inner.stored()
    }

    /// The bytes read so far, as far as 64 bits count them.
    pub closed spec fn processed(&self) -> nat {
        self.inner.processed()
    }

    /// Directly construct a CAF LPCM stream from a positioned payload reader,
    /// explicit descriptor, and known per-channel sample count.
    pub fn new(reader: ByteReader, descriptor: RawPcmDescriptor, total_samples: u64) -> (stream:
        Result<Self>)
        ensures
            match direct_failure(descriptor) {
                Some(expected) => stream matches Err(error) && error@ == expected,
                None => stream matches Ok(found) && is_caf_stream_over(
                    found,
                    bytes_from(reader.contents(), reader.at()),
                    descriptor,
                    total_samples,
                ),
            },
    {
        match validate_direct_descriptor(descriptor) {
            Ok(()) => {},
            Err(error) => return Err(error),
        }
        match RawPcmStream::new(reader, descriptor, total_samples) {
            Ok(inner) => {
                proof {
                    lemma_raw_stream(inner);
                }
                Ok(CafPcmStream { inner })
            },
            Err(error) => Err(error),
        }
    }

    /// The bytes read so far, as far as 64 bits count them.
    pub fn input_bytes_processed(&self) -> (bytes: u64)
        ensures
            bytes == self.processed(),
    {
        self.inner.input_bytes_processed()
    }
}

impl EncodePcmStream for CafPcmStream {
    closed spec fn is_valid(&self) -> bool {
        self.inner.is_valid() && self.inner.overflow_text() == "raw PCM chunk size overflows"@
    }

    closed spec fn description(&self) -> PcmSpec {
        self.inner.description()
    }

    closed spec fn upcoming(&self) -> Seq<i32> {
        self.inner.upcoming()
    }

    closed spec fn delivers(&self) -> bool {
        self.inner.delivers()
    }

    closed spec fn failed(&self) -> Option<ErrorView> {
        self.inner.failed()
    }

    closed spec fn breaks_off(&self) -> Option<ErrorView> {
        self.inner.breaks_off()
    }

    closed spec fn chunk_wishes(&self) -> (Option<usize>, Option<usize>) {
        self.inner.chunk_wishes()
    }

    fn spec(&self) -> (spec: PcmSpec) {
        self.inner.spec()
    }

    fn read_chunk(&mut self, max_frames: usize, output: &mut Vec<i32>) -> (read: Result<usize>)
        ensures
            final(self).stored().layout() == old(self).stored().layout(),
            final(self).stored().byte_order() == old(self).stored().byte_order(),
            ({
                let frames = frames_asked(old(self).stored().left(), max_frames as nat);
                match read_failure(
                    old(self).stored().bytes(),
                    frames,
                    old(self).stored().layout(),
                    "raw PCM chunk size overflows"@,
                ) {
                    Some(expected) => {
                        &&& read matches Err(error) && error@ == expected
                        &&& final(self).processed() == old(self).processed()
                        &&& final(self).stored().bytes() == old(self).stored().bytes()
                        &&& final(self).stored().left() == old(self).stored().left()
                    },
                    None => {
                        let size = frames * frame_size(old(self).stored().layout());
                        &&& read matches Ok(count) && count == frames
                        &&& final(self).processed() == count_after(old(self).processed(), size)
                        &&& final(self).stored().bytes() == old(self).stored().bytes().skip(
                            size as int,
                        )
                        &&& final(self).stored().left() == old(self).stored().left() - frames
                    },
                }
            }),
    {
        let ghost inner = self.inner;
        assert(self.description() == inner.description() && self.upcoming() == inner.upcoming());
        let read = self.inner.read_chunk(max_frames, output);
        assert(self.breaks_off() == self.inner.breaks_off());
        read
    }

    fn preferred_encode_chunk_max_frames(&self) -> (wish: Option<usize>) {
        self.inner.preferred_encode_chunk_max_frames()
    }

    fn preferred_encode_chunk_target_pcm_frames(&self) -> (wish: Option<usize>) {
        self.inner.preferred_encode_chunk_target_pcm_frames()
    }
}

/// Reader for CAF encode inputs.
#[derive(Debug, Clone)]
pub struct CafReader {
    reader: ByteReader,
    spec: PcmSpec,
    metadata: Metadata,
    descriptor: RawPcmDescriptor,
}

/// What the file at a position says of its samples, with their number, or why it
/// cannot be read.
pub open spec fn caf_contents(bytes: Seq<u8>, position: nat) -> std::result::Result<
    (ParsedCaf, u64),
    ErrorView,
> {
    match parsed_caf(bytes, position) {
        Err(error) => Err(error),
        Ok(parsed) => match frames_in_bytes(parsed.data_size, parsed.descriptor) {
            Err(error) => Err(error),
            Ok(frames) => Ok((parsed, frames)),
        },
    }
}

/// A file whose contents are known has a descriptor that is valid by itself.
pub proof fn lemma_contents_descriptor(bytes: Seq<u8>, position: nat)
    ensures
        caf_contents(bytes, position) matches Ok((parsed, _)) ==> direct_failure(parsed.descriptor)
            is None && raw_envelope(parsed.descriptor) is Ok,
{
    if caf_contents(bytes, position) is Ok {
        let parsed = caf_contents(bytes, position)->Ok_0.0;
        if parsed.descriptor.channel_mask is Some {
            assert(set_bits(0) == 0);
        }
    }
}

/// A reader of a file with these contents.
pub open spec fn reads_contents(
    reader: CafReader,
    bytes: Seq<u8>,
    parsed: ParsedCaf,
    frames: u64,
) -> bool {
    &&& reader.is_valid()
    &&& reader.description() == stream_spec(
        parsed.descriptor.sample_rate,
        frames,
        raw_envelope(parsed.descriptor)->Ok_0,
    )
    &&& reader.staged() == empty_metadata()
    &&& reader.bytes() == bytes_from(bytes, parsed.data_offset as nat)
    &&& reader.stored_as() == parsed.descriptor
}

impl CafReader {
    /// The reader keeps its own rules.
    pub closed spec fn is_valid(&self) -> bool {
        &&& direct_failure(self.descriptor) is None
        &&& raw_envelope(self.descriptor) is Ok
        &&& self.spec == stream_spec(
            self.descriptor.sample_rate,
            self.spec.total_samples,
            raw_envelope(self.descriptor)->Ok_0,
        )
    }

    /// The description of the samples.
    pub closed spec fn description(&self) -> PcmSpec {
        self.spec
    }

    /// The staged metadata.
    pub closed spec fn staged(&self) -> MetadataView {
        self.metadata@
    }

    /// The bytes from the first sample on.
    pub closed spec fn bytes(&self) -> Seq<u8> {
        bytes_from(self.reader.contents(), self.reader.at())
    }

    /// How the samples are stored.
    pub closed spec fn stored_as(&self) -> RawPcmDescriptor {
        self.descriptor
    }

    /// Parse a CAF reader.
    pub fn new(reader: ByteReader) -> (parsed: Result<Self>)
        ensures
            match caf_contents(reader.contents(), reader.at()) {
                Ok((contents, frames)) => parsed matches Ok(found) && reads_contents(
                    found,
                    reader.contents(),
                    contents,
                    frames,
                ),
                Err(expected) => parsed matches Err(error) && error@ == expected,
            },
    {
        proof {
            lemma_contents_descriptor(reader.contents(), reader.at());
        }
        let mut reader = reader;
        let parsed = match parse_caf(&mut reader) {
            Ok(parsed) => parsed,
            Err(error) => return Err(error),
        };
        reader.seek(parsed.data_offset);
        let descriptor = parsed.descriptor;
        let total_samples: u64 = match total_samples_from_byte_len_with_descriptor(
            parsed.data_size,
            descriptor,
        ) {
            Ok(total_samples) => total_samples,
            Err(error) => return Err(error),
        };
        let channel_mask: u32 = match descriptor.channel_mask {
            Some(mask) => mask,
            None => 0,
        };
        Ok(
            CafReader {
                reader,
                spec: PcmSpec {
                    sample_rate: descriptor.sample_rate,
                    channels: descriptor.channels,
                    bits_per_sample: descriptor.valid_bits_per_sample,
                    total_samples,
                    bytes_per_sample: descriptor.container_bits_per_sample as u16 / 8,
                    channel_mask,
                },
                metadata: Metadata::default(),
                descriptor,
            },
        )
    }

    /// Return the parsed PCM stream specification.
    pub fn spec(&self) -> (spec: PcmSpec)
        ensures
            spec == self.description(),
    {
        self.spec
    }

    /// Return metadata staged for encode-side preservation.
    pub fn metadata(&self) -> (metadata: &Metadata)
        ensures
            metadata@ == self.staged(),
    {
        &self.metadata
    }

    /// Convert this reader into an owned encode source.
    pub fn into_source(self) -> (source: EncodeSource<CafPcmStream>)
        requires
            self.is_valid(),
        ensures
            source.staged() == self.staged(),
            source.samples().description() == self.description(),
            is_caf_stream_over(
                source.samples(),
                self.bytes(),
                self.stored_as(),
                self.description().total_samples,
            ),
    {
        let (metadata, stream) = self.into_session_parts();
        EncodeSource::new(metadata, stream)
    }

    /// The samples as a stream.
    pub fn into_pcm_stream(self) -> (stream: CafPcmStream)
        requires
            self.is_valid(),
        ensures
            stream.description() == self.description(),
            is_caf_stream_over(
                stream,
                self.bytes(),
                self.stored_as(),
                self.description().total_samples,
            ),
    {
        self.into_session_parts().1
    }

    /// The metadata, and the samples as a stream.
    pub fn into_session_parts(self) -> (parts: (Metadata, CafPcmStream))
        requires
            self.is_valid(),
        ensures
            parts.0@ == self.staged(),
            parts.1.description() == self.description(),
            is_caf_stream_over(
                parts.1,
                self.bytes(),
                self.stored_as(),
                self.description().total_samples,
            ),
    {
        match CafPcmStream::new(self.reader, self.descriptor, self.spec.total_samples) {
            Ok(stream) => (self.metadata, stream),
            Err(_) => vstd::pervasive::unreached(),
        }
    }
}

/// The number of frames of a CAF file.
pub fn inspect_caf_total_samples(reader: &mut ByteReader) -> (frames: Result<u64>)
    ensures
        final(reader).contents() == old(reader).contents(),
        match caf_contents(old(reader).contents(), old(reader).at()) {
            Ok((_, expected)) => frames == Ok::<u64, Error>(expected),
            Err(expected) => frames matches Err(error) && error@ == expected,
        },
{
    match parse_caf(reader) {
        Ok(parsed) => {
            total_samples_from_byte_len_with_descriptor(parsed.data_size, parsed.descriptor)
        },
        Err(error) => Err(error),
    }
}

} // verus!
