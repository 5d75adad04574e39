//! AIFF and AIFC files as encode inputs.

use vstd::prelude::*;

use crate::aiff::{aiff_layout, common_envelope, parse_aiff_layout, validate_common_chunk, CommonChunk, ParsedAiffLayout};
use crate::byte_reader::ByteReader;
use crate::error::{Error, ErrorView, Result};
use crate::metadata::{empty_metadata, Metadata, MetadataView};
use crate::pcm::{ByteOrder, PcmEnvelope, PcmSpec};
use crate::raw::{byte_order_of, lemma_raw_stream, order_of, spec_from_envelope, stream_spec, RawPcmByteOrder, RawPcmStream};
use crate::sample_source::{bytes_from, frame_size, frames_asked, held_samples, is_storable, read_failure, shortage, SampleSource};
use crate::stream::{count_after, EncodePcmStream, EncodeSource};

verus! {

/// Explicit descriptor for direct AIFF/AIFC PCM stream construction.
#[derive(Debug, Clone, Copy, PartialEq, Eq, Structural)]
pub struct AiffPcmDescriptor {
    /// Samples per second.
    pub sample_rate: u32,
    /// Number of interleaved channels.
    pub channels: u8,
    /// Valid bits carried by each sample.
    pub valid_bits_per_sample: u8,
    /// Total samples per channel available from the positioned PCM payload.
    pub total_samples: u64,
    /// Byte order of the positioned PCM payload.
    pub byte_order: RawPcmByteOrder,
}

/// How directly described samples are stored, or why they are not supported.
pub open spec fn direct_envelope(descriptor: AiffPcmDescriptor) -> std::result::Result<
    PcmEnvelope,
    ErrorView,
> {
    match common_envelope(described_chunk(descriptor)) {
        Err(error) => Err(error),
        Ok(envelope) => if order_of(descriptor.byte_order) == ByteOrder::Little
            && envelope.valid_bits_per_sample != 16 {
            Err(
                ErrorView::UnsupportedPcmContainer(
                    "AIFC compression 'sowt' is only supported for 16-bit signed PCM"@,
                ),
            )
        } else {
            Ok(envelope)
        },
    }
}

/// The stream description of a COMM chunk that says what a descriptor says.
pub open spec fn described_chunk(descriptor: AiffPcmDescriptor) -> CommonChunk {
    CommonChunk {
        channels: descriptor.channels as u16,
        sample_frames: descriptor.total_samples,
        valid_bits_per_sample: descriptor.valid_bits_per_sample as u16,
        sample_rate: descriptor.sample_rate,
        byte_order: order_of(descriptor.byte_order),
    }
}

/// The description, the layout and the byte order of directly described samples.
pub fn validate_direct_descriptor(descriptor: AiffPcmDescriptor) -> (parts: Result<
    (PcmSpec, PcmEnvelope, ByteOrder),
>)
    ensures
        match direct_envelope(descriptor) {
            Ok(envelope) => {
                &&& is_storable(envelope)
                &&& parts == Ok::<(PcmSpec, PcmEnvelope, ByteOrder), Error>(
                    (
                        stream_spec(descriptor.sample_rate, descriptor.total_samples, envelope),
                        envelope,
                        order_of(descriptor.byte_order),
                    ),
                )
            },
            Err(expected) => parts matches Err(error) && error@ == expected,
        },
{
    let order = byte_order_of(descriptor.byte_order);
    let common = CommonChunk {
        channels: descriptor.channels as u16,
        sample_frames: descriptor.total_samples,
        valid_bits_per_sample: descriptor.valid_bits_per_sample as u16,
        sample_rate: descriptor.sample_rate,
        byte_order: order,
    };
    let envelope = match validate_common_chunk(common) {
        Ok(envelope) => envelope,
        Err(error) => return Err(error),
    };
    if order == ByteOrder::Little && envelope.valid_bits_per_sample != 16 {
        return Err(
            Error::UnsupportedPcmContainer(
                "AIFC compression 'sowt' is only supported for 16-bit signed PCM".to_owned(),
            ),
        );
    }
    let spec = spec_from_envelope(descriptor.sample_rate, descriptor.total_samples, envelope);
    Ok((spec, envelope, order))
}

/// Single-pass PCM stream produced by [`AiffReader`].
#[derive(Debug, Clone)]
pub struct AiffPcmStream {
    inner: RawPcmStream,
}

impl AiffPcmStream {
    /// The stored samples and their number.
    pub closed spec fn stored(&self) -> SampleSource {
        self.inner.stored()
    }

    /// The bytes read so far, as far as 64 bits count them.
    pub closed spec fn processed(&self) -> nat {
        self.inner.processed()
    }

    /// Directly construct an AIFF/AIFC PCM stream from a positioned reader and
    /// explicit descriptor.
    pub fn new(reader: ByteReader, descriptor: AiffPcmDescriptor) -> (stream: Result<Self>)
        ensures
            match direct_envelope(descriptor) {
                Ok(envelope) => stream matches Ok(found) && is_stream_over(
                    found,
                    bytes_from(reader.contents(), reader.at()),
                    stream_spec(descriptor.sample_rate, descriptor.total_samples, envelope),
                    envelope,
                    order_of(descriptor.byte_order),
                ),
                Err(expected) => stream matches Err(error) && error@ == expected,
            },
    {
        match validate_direct_descriptor(descriptor) {
            Ok((spec, envelope, order)) => {
                Ok(AiffPcmStream::from_parts(reader, spec, envelope, order))
            },
            Err(error) => Err(error),
        }
    }

    /// A stream of samples at a reader's position.
    pub fn from_parts(reader: ByteReader, spec: PcmSpec, envelope: PcmEnvelope, order: ByteOrder)
        -> (stream: Self)
        requires
            is_storable(envelope),
            spec.channels == envelope.channels,
        ensures
            is_stream_over(
                stream,
                bytes_from(reader.contents(), reader.at()),
                spec,
                envelope,
                order,
            ),
    {
        let inner = RawPcmStream::from_parts(
            reader,
            spec,
            envelope,
            order,
            "AIFF chunk size overflows",
        );
        proof {
            lemma_raw_stream(inner);
        }
        AiffPcmStream { inner }
    }

    /// The bytes read so far, as far as 64 bits count them.
    pub fn input_bytes_processed(&self) -> (bytes: u64)
        ensures
            bytes == self.processed(),
    {
        self.inner.input_bytes_processed()
    }
}

/// A stream that is about to read the samples that bytes hold.
pub open spec fn is_stream_over(
    stream: AiffPcmStream,
    bytes: Seq<u8>,
    spec: PcmSpec,
    envelope: PcmEnvelope,
    order: ByteOrder,
) -> bool {
    &&& stream.is_valid()
    &&& stream.description() == spec
    &&& stream.upcoming() == held_samples(bytes, spec.total_samples as nat, envelope, order)
    &&& stream.delivers() == (spec.total_samples * frame_size(envelope) <= bytes.len())
    &&& stream.breaks_off() == shortage(bytes.len(), spec.total_samples as nat, envelope)
    &&& stream.chunk_wishes() == (None::<usize>, None::<usize>)
    &&& stream.stored().bytes() == bytes
    &&& stream.stored().left() == spec.total_samples
    &&& stream.stored().layout() == envelope
    &&& stream.stored().byte_order() == order
    &&& stream.processed() == 0
}

impl EncodePcmStream for AiffPcmStream {
    closed spec fn is_valid(&self) -> bool {
        self.inner.is_valid() && self.inner.overflow_text() == "AIFF chunk size overflows"@
    }

    closed spec fn description(&self) -> PcmSpec {
        self.inner.description()
    }

    closed spec fn upcoming(&self) -> Seq<i32> {
        self.inner.upcoming()
    }

    closed spec fn delivers(&self) -> bool {
        self.inner.delivers()
    }

    closed spec fn failed(&self) -> Option<ErrorView> {
        self.inner.failed()
    }

    closed spec fn breaks_off(&self) -> Option<ErrorView> {
        self.inner.breaks_off()
    }

    closed spec fn chunk_wishes(&self) -> (Option<usize>, Option<usize>) {
        self.inner.chunk_wishes()
    }

    fn spec(&self) -> (spec: PcmSpec) {
        self.inner.spec()
    }

    fn read_chunk(&mut self, max_frames: usize, output: &mut Vec<i32>) -> (read: Result<usize>)
        ensures
            final(self).stored().layout() == old(self).stored().layout(),
            final(self).stored().byte_order() == old(self).stored().byte_order(),
            ({
                let frames = frames_asked(old(self).stored().left(), max_frames as nat);
                match read_failure(
                    old(self).stored().bytes(),
                    frames,
                    old(self).stored().layout(),
                    "AIFF chunk size overflows"@,
                ) {
                    Some(expected) => {
                        &&& read matches Err(error) && error@ == expected
                        &&& final(self).processed() == old(self).processed()
                        &&& final(self).stored().bytes() == old(self).stored().bytes()
                        &&& final(self).stored().left() == old(self).stored().left()
                    },
                    None => {
                        let size = frames * frame_size(old(self).stored().layout());
                        &&& read matches Ok(count) && count == frames
                        &&& final(self).processed() == count_after(old(self).processed(), size)
                        &&& final(self).stored().bytes() == old(self).stored().bytes().skip(
                            size as int,
                        )
                        &&& final(self).stored().left() == old(self).stored().left() - frames
                    },
                }
            }),
    {
        let ghost inner = self.inner;
        assert(self.description() == inner.description() && self.upcoming() == inner.upcoming());
        let read = self.inner.read_chunk(max_frames, output);
        assert(self.breaks_off() == self.inner.breaks_off());
        read
    }

    fn preferred_encode_chunk_max_frames(&self) -> (wish: Option<usize>) {
        self.inner.preferred_encode_chunk_max_frames()
    }

    fn preferred_encode_chunk_target_pcm_frames(&self) -> (wish: Option<usize>) {
        self.inner.preferred_encode_chunk_target_pcm_frames()
    }
}

/// Reader for AIFF/AIFC encode inputs.
#[derive(Debug, Clone)]
pub struct AiffReader {
    reader: ByteReader,
    spec: PcmSpec,
    metadata: Metadata,
    envelope: PcmEnvelope,
    order: ByteOrder,
}

/// What a layout says of the samples of a file.
pub open spec fn layout_spec(layout: ParsedAiffLayout) -> PcmSpec {
    stream_spec(layout.sample_rate, layout.total_samples, layout.envelope)
}

/// A reader of the file with this layout in bytes.
pub open spec fn reads_layout(reader: AiffReader, bytes: Seq<u8>, layout: ParsedAiffLayout) -> bool {
    &&& reader.is_valid()
    &&& reader.description() == layout_spec(layout)
    &&& reader.staged() == empty_metadata()
    &&& reader.bytes() == bytes_from(bytes, layout.data_offset as nat)
    &&& reader.layout() == layout.envelope
    &&& reader.byte_order() == layout.byte_order
}

/// A file whose layout is known stores samples.
pub proof fn lemma_layout_is_storable(bytes: Seq<u8>, position: nat)
    ensures
        aiff_layout(bytes, position) matches Ok(layout) ==> is_storable(layout.envelope)
            && layout.envelope.channels <= 8,
{
}

impl AiffReader {
    /// The reader keeps its own rules.
    pub closed spec fn is_valid(&self) -> bool {
        is_storable(self.envelope) && self.spec.channels == self.envelope.channels
    }

    /// The description of the samples.
    pub closed spec fn description(&self) -> PcmSpec {
        self.spec
    }

    /// The staged metadata.
    pub closed spec fn staged(&self) -> MetadataView {
        self.metadata@
    }

    /// The bytes from the first sample on.
    pub closed spec fn bytes(&self) -> Seq<u8> {
        bytes_from(self.reader.contents(), self.reader.at())
    }

    /// How the samples are stored.
    pub closed spec fn layout(&self) -> PcmEnvelope {
        self.envelope
    }

    /// The order of the bytes of a sample.
    pub closed spec fn byte_order(&self) -> ByteOrder {
        self.order
    }

    /// Parse an AIFF or supported AIFC reader.
    pub fn new(reader: ByteReader) -> (parsed: Result<Self>)
        ensures
            match aiff_layout(reader.contents(), reader.at()) {
                Ok(layout) => parsed matches Ok(found) && reads_layout(
                    found,
                    reader.contents(),
                    layout,
                ),
                Err(expected) => parsed matches Err(error) && error@ == expected,
            },
    {
        proof {
            lemma_layout_is_storable(reader.contents(), reader.at());
        }
        let mut reader = reader;
        let layout = match parse_aiff_layout(&mut reader) {
            Ok(layout) => layout,
            Err(error) => return Err(error),
        };
        reader.seek(layout.data_offset);
        Ok(
            AiffReader {
                reader,
                spec: spec_from_envelope(layout.sample_rate, layout.total_samples, layout.envelope),
                metadata: Metadata::default(),
                envelope: layout.envelope,
                order: layout.byte_order,
            },
        )
    }

    /// Return the parsed PCM stream specification.
    pub fn spec(&self) -> (spec: PcmSpec)
        ensures
            spec == self.description(),
    {
        self.spec
    }

    /// Return metadata staged for encode-side preservation.
    pub fn metadata(&self) -> (metadata: &Metadata)
        ensures
            metadata@ == self.staged(),
    {
        &self.metadata
    }

    /// Convert this reader into an owned encode source.
    pub fn into_source(self) -> (source: EncodeSource<AiffPcmStream>)
        requires
            self.is_valid(),
        ensures
            source.staged() == self.staged(),
            is_stream_over(
                source.samples(),
                self.bytes(),
                self.description(),
                self.layout(),
                self.byte_order(),
            ),
    {
        let (metadata, stream) = self.into_session_parts();
        EncodeSource::new(metadata, stream)
    }

    /// The samples as a stream.
    pub fn into_pcm_stream(self) -> (stream: AiffPcmStream)
        requires
            self.is_valid(),
        ensures
            is_stream_over(
                stream,
                self.bytes(),
                self.description(),
                self.layout(),
                self.byte_order(),
            ),
    {
        self.into_session_parts().1
    }

    /// The metadata, and the samples as a stream.
    pub fn into_session_parts(self) -> (parts: (Metadata, AiffPcmStream))
        requires
            self.is_valid(),
        ensures
            parts.0@ == self.staged(),
            is_stream_over(
                parts.1,
                self.bytes(),
                self.description(),
                self.layout(),
                self.byte_order(),
            ),
    {
        let stream = AiffPcmStream::from_parts(self.reader, self.spec, self.envelope, self.order);
        (self.metadata, stream)
    }
}

/// The number of frames of an AIFF or AIFC file.
pub fn inspect_aiff_total_samples(reader: &mut ByteReader) -> (frames: Result<u64>)
    ensures
        final(reader).contents() == old(reader).contents(),
        match aiff_layout(old(reader).contents(), old(reader).at()) {
            Ok(layout) => frames == Ok::<u64, Error>(layout.total_samples),
            Err(expected) => frames matches Err(error) && error@ == expected,
        },
{
    match parse_aiff_layout(reader) {
        Ok(layout) => Ok(layout.total_samples),
        Err(error) => Err(error),
    }
}

} // verus!
