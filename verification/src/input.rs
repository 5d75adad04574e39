//! Encode inputs whose family is only known at run time.

use vstd::prelude::*;

use crate::aiff::{aiff_layout, FORM_ID};
use crate::aiff_reader::{inspect_aiff_total_samples, is_stream_over, layout_spec, reads_layout, AiffPcmStream, AiffReader};
use crate::byte_reader::{available, bytes_at, ByteReader};
use crate::caf::CAF_MAGIC;
use crate::caf_reader::{caf_contents, inspect_caf_total_samples, is_caf_stream_over, reads_contents, CafPcmStream, CafReader};
use crate::error::{Error, ErrorView, Result};
use crate::fourcc::is_id;
use crate::md5::StreaminfoMd5;
use crate::metadata::{empty_metadata, Metadata, MetadataView};
use crate::raw::{order_of, raw_envelope, stream_spec};
use crate::sample_source::{bytes_from, frame_size, held_samples, shortage};
use crate::pcm::{ByteOrder, PcmSpec};
use crate::stream::{counted_encode_pcm_stream, count_after, stored_bytes, CountedEncodePcmStream, EncodeChunkPayload, EncodePcmStream, EncodeSource};
use crate::wav::wav_layout;
use crate::wav_reader::{default_reader_options, inspect_total_samples, is_wav_stream_over, reads_wav, wav_contents, wav_envelope, wav_spec, WavPcmStream, WavReader};

pub use crate::wav_reader::{read_wav, WavReaderOptions};

verus! {

/// The family of a PCM container.
#[derive(Debug, Clone, Copy, PartialEq, Eq, Structural)]
pub enum PcmInputKind {
    RiffLike,
    AiffLike,
    Caf,
}

/// The family of the container at a position: its first four bytes tell.
pub open spec fn input_kind(bytes: Seq<u8>, position: nat) -> PcmInputKind {
    if !available(bytes, position, 4) {
        PcmInputKind::RiffLike
    } else if bytes_at(bytes, position, 4) == FORM_ID@ {
        PcmInputKind::AiffLike
    } else if bytes_at(bytes, position, 4) == CAF_MAGIC@ {
        PcmInputKind::Caf
    } else {
        PcmInputKind::RiffLike
    }
}

/// Tells the family of the container at a reader's position and leaves the reader
/// there.
pub fn sniff_pcm_input_kind(reader: &mut ByteReader) -> (kind: PcmInputKind)
    ensures
        final(reader).contents() == old(reader).contents(),
        final(reader).at() == old(reader).at(),
        kind == input_kind(old(reader).contents(), old(reader).at()),
{
    let start: u64 = reader.position();
    let kind = match reader.read_exact(4) {
        Ok(magic) => {
            if is_id(magic.as_slice(), &FORM_ID) {
                PcmInputKind::AiffLike
            } else if is_id(magic.as_slice(), &CAF_MAGIC) {
                PcmInputKind::Caf
            } else {
                PcmInputKind::RiffLike
            }
        },
        Err(_) => PcmInputKind::RiffLike,
    };
    reader.seek(start);
    kind
}

/// The number of frames of the container at a position, or why it cannot be read.
pub open spec fn total_frames_of(bytes: Seq<u8>, position: nat) -> std::result::Result<
    u64,
    ErrorView,
> {
    match input_kind(bytes, position) {
        PcmInputKind::AiffLike => match aiff_layout(bytes, position) {
            Ok(layout) => Ok(layout.total_samples),
            Err(error) => Err(error),
        },
        PcmInputKind::Caf => match caf_contents(bytes, position) {
            Ok((_, frames)) => Ok(frames),
            Err(error) => Err(error),
        },
        PcmInputKind::RiffLike => match wav_layout(bytes, position) {
            Ok(layout) => Ok(layout.frames),
            Err(error) => Err(error),
        },
    }
}

/// Inspect a supported PCM-container stream and return its total sample count.
pub fn inspect_wav_total_samples(reader: ByteReader) -> (frames: Result<u64>)
    ensures
        match total_frames_of(reader.contents(), reader.at()) {
            Ok(expected) => frames == Ok::<u64, Error>(expected),
            Err(expected) => frames matches Err(error) && error@ == expected,
        },
{
    let mut reader = reader;
    inspect_pcm_total_samples(&mut reader)
}

/// The number of frames of the container at a reader's position.
pub fn inspect_pcm_total_samples(reader: &mut ByteReader) -> (frames: Result<u64>)
    ensures
        final(reader).contents() == old(reader).contents(),
        match total_frames_of(old(reader).contents(), old(reader).at()) {
            Ok(expected) => frames == Ok::<u64, Error>(expected),
            Err(expected) => frames matches Err(error) && error@ == expected,
        },
{
    match sniff_pcm_input_kind(reader) {
        PcmInputKind::AiffLike => inspect_aiff_total_samples(reader),
        PcmInputKind::Caf => inspect_caf_total_samples(reader),
        PcmInputKind::RiffLike => inspect_total_samples(reader),
    }
}

/// Family-dispatched PCM reader for the explicit encode workflow.
#[derive(Debug, Clone)]
pub enum PcmReader {
    Wav(WavReader),
    Aiff(AiffReader),
    Caf(CafReader),
}

/// What reading the container at a position gives.
pub open spec fn is_read(
    parsed: Result<PcmReader>,
    bytes: Seq<u8>,
    position: nat,
    options: WavReaderOptions,
) -> bool {
    match input_kind(bytes, position) {
        PcmInputKind::AiffLike => match aiff_layout(bytes, position) {
            Ok(layout) => parsed matches Ok(PcmReader::Aiff(reader)) && reads_layout(
                reader,
                bytes,
                layout,
            ),
            Err(expected) => parsed matches Err(error) && error@ == expected,
        },
        PcmInputKind::Caf => match caf_contents(bytes, position) {
            Ok((contents, frames)) => parsed matches Ok(PcmReader::Caf(reader)) && reads_contents(
                reader,
                bytes,
                contents,
                frames,
            ),
            Err(expected) => parsed matches Err(error) && error@ == expected,
        },
        PcmInputKind::RiffLike => match wav_contents(bytes, position, options) {
            Ok((layout, metadata)) => parsed matches Ok(PcmReader::Wav(reader)) && reads_wav(
                reader,
                bytes,
                layout,
                metadata,
            ),
            Err(expected) => parsed matches Err(error) && error@ == expected,
        },
    }
}

/// Parse a supported PCM container.
pub fn read_pcm_reader_with_options(reader: ByteReader, options: WavReaderOptions) -> (parsed: Result<
    PcmReader,
>)
    ensures
        is_read(parsed, reader.contents(), reader.at(), options),
{
    let mut reader = reader;
    match sniff_pcm_input_kind(&mut reader) {
        PcmInputKind::AiffLike => match AiffReader::new(reader) {
            Ok(found) => Ok(PcmReader::Aiff(found)),
            Err(error) => Err(error),
        },
        PcmInputKind::Caf => match CafReader::new(reader) {
            Ok(found) => Ok(PcmReader::Caf(found)),
            Err(error) => Err(error),
        },
        PcmInputKind::RiffLike => match WavReader::with_reader_options(reader, options) {
            Ok(found) => Ok(PcmReader::Wav(found)),
            Err(error) => Err(error),
        },
    }
}

/// Parse a supported PCM container.
pub fn read_pcm_reader(reader: ByteReader) -> (parsed: Result<PcmReader>)
    ensures
        is_read(parsed, reader.contents(), reader.at(), default_reader_options()),
{
    read_pcm_reader_with_options(reader, WavReaderOptions::default())
}

impl PcmReader {
    /// The reader keeps its own rules.
    pub open spec fn is_valid(&self) -> bool {
        match self {
            PcmReader::Wav(reader) => reader.is_valid(),
            PcmReader::Aiff(reader) => reader.is_valid(),
            PcmReader::Caf(reader) => reader.is_valid(),
        }
    }

    /// The description of the samples.
    pub open spec fn description(&self) -> PcmSpec {
        match self {
            PcmReader::Wav(reader) => reader.description(),
            PcmReader::Aiff(reader) => reader.description(),
            PcmReader::Caf(reader) => reader.description(),
        }
    }

    /// The staged metadata.
    pub open spec fn staged(&self) -> MetadataView {
        match self {
            PcmReader::Wav(reader) => reader.staged(),
            PcmReader::Aiff(reader) => reader.staged(),
            PcmReader::Caf(reader) => reader.staged(),
        }
    }

    /// Parse a supported PCM container using explicit constructor-driven dispatch.
    pub fn new(reader: ByteReader) -> (parsed: Result<Self>)
        ensures
            is_read(parsed, reader.contents(), reader.at(), default_reader_options()),
    {
        PcmReader::with_options(reader, WavReaderOptions::default())
    }

    /// Parse a supported PCM container while applying RIFF/WAVE-family reader options.
    ///
    /// The options only affect WAV/RF64/Wave64 inputs.
    pub fn with_reader_options(reader: ByteReader, options: WavReaderOptions) -> (parsed: Result<
        Self,
    >)
        ensures
            is_read(parsed, reader.contents(), reader.at(), options),
    {
        PcmReader::with_options(reader, options)
    }

    /// Parse a supported PCM container while applying RIFF/WAVE-family reader options.
    pub fn with_options(reader: ByteReader, options: WavReaderOptions) -> (parsed: Result<Self>)
        ensures
            is_read(parsed, reader.contents(), reader.at(), options),
    {
        read_pcm_reader_with_options(reader, options)
    }

    /// Return the parsed PCM specification without consuming the sample stream.
    pub fn spec(&self) -> (spec: PcmSpec)
        ensures
            spec == self.description(),
    {
        match self {
            PcmReader::Wav(reader) => reader.spec(),
            PcmReader::Aiff(reader) => reader.spec(),
            PcmReader::Caf(reader) => reader.spec(),
        }
    }

    /// Return the parsed encode-side metadata captured from the input.
    pub fn metadata(&self) -> (metadata: &Metadata)
        ensures
            metadata@ == self.staged(),
    {
        match self {
            PcmReader::Wav(reader) => reader.metadata(),
            PcmReader::Aiff(reader) => reader.metadata(),
            PcmReader::Caf(reader) => reader.metadata(),
        }
    }

    /// Convert the parsed reader into an owned encode source.
    pub fn into_source(self) -> (source: EncodeSource<AnyPcmStream>)
        requires
            self.is_valid(),
        ensures
            source.staged() == self.staged(),
            continues(source.samples(), self),
    {
        let (metadata, stream) = self.into_session_parts();
        EncodeSource::new(metadata, stream)
    }

    /// The samples as a stream.
    pub fn into_pcm_stream(self) -> (stream: AnyPcmStream)
        requires
            self.is_valid(),
        ensures
            continues(stream, self),
    {
        self.into_session_parts().1
    }

    /// The metadata, and the samples as a stream.
    pub fn into_session_parts(self) -> (parts: (Metadata, AnyPcmStream))
        requires
            self.is_valid(),
        ensures
            parts.0@ == self.staged(),
            continues(parts.1, self),
    {
        match self {
            PcmReader::Wav(reader) => {
                let (metadata, stream) = reader.into_session_parts();
                let counted = counted_encode_pcm_stream(stream);
                proof {
                    counted.lemma_counted();
                }
                (metadata, AnyPcmStream::Wav(counted))
            },
            PcmReader::Aiff(reader) => {
                let (metadata, stream) = reader.into_session_parts();
                let counted = counted_encode_pcm_stream(stream);
                proof {
                    counted.lemma_counted();
                }
                (metadata, AnyPcmStream::Aiff(counted))
            },
            PcmReader::Caf(reader) => {
                let (metadata, stream) = reader.into_session_parts();
                let counted = counted_encode_pcm_stream(stream);
                proof {
                    counted.lemma_counted();
                }
                (metadata, AnyPcmStream::Caf(counted))
            },
        }
    }
}

/// Family-dispatched single-pass PCM stream.
#[derive(Debug, Clone)]
pub enum AnyPcmStream {
    Wav(CountedEncodePcmStream<WavPcmStream>),
    Aiff(CountedEncodePcmStream<AiffPcmStream>),
    Caf(CountedEncodePcmStream<CafPcmStream>),
}

/// A stream of the samples that a reader has found.
pub open spec fn continues(stream: AnyPcmStream, reader: PcmReader) -> bool {
    &&& stream.is_valid()
    &&& stream.description() == reader.description()
    &&& stream.counted() == 0
    &&& match (stream, reader) {
        (AnyPcmStream::Wav(counted), PcmReader::Wav(found)) => is_wav_stream_over(
            counted.inner(),
            found.bytes(),
            found.description(),
            found.layout(),
        ),
        (AnyPcmStream::Aiff(counted), PcmReader::Aiff(found)) => is_stream_over(
            counted.inner(),
            found.bytes(),
            found.description(),
            found.layout(),
            found.byte_order(),
        ),
        (AnyPcmStream::Caf(counted), PcmReader::Caf(found)) => is_caf_stream_over(
            counted.inner(),
            found.bytes(),
            found.stored_as(),
            found.description().total_samples,
        ),
        _ => false,
    }
    &&& match stream {
        AnyPcmStream::Wav(counted) => stream.upcoming() == counted.inner().upcoming()
            && stream.delivers() == counted.inner().delivers()
            && stream.breaks_off() == counted.inner().breaks_off(),
        AnyPcmStream::Aiff(counted) => stream.upcoming() == counted.inner().upcoming()
            && stream.delivers() == counted.inner().delivers()
            && stream.breaks_off() == counted.inner().breaks_off(),
        AnyPcmStream::Caf(counted) => stream.upcoming() == counted.inner().upcoming()
            && stream.delivers() == counted.inner().delivers()
            && stream.breaks_off() == counted.inner().breaks_off(),
    }
}

impl AnyPcmStream {
    /// The bytes that the samples read so far took, as far as 64 bits count them.
    pub open spec fn counted(&self) -> nat {
        match self {
            AnyPcmStream::Wav(stream) => stream.counted(),
            AnyPcmStream::Aiff(stream) => stream.counted(),
            AnyPcmStream::Caf(stream) => stream.counted(),
        }
    }

    /// The bytes that the samples read so far took, as far as 64 bits count them.
    pub fn input_bytes_processed(&self) -> (bytes: u64)
        ensures
            bytes == self.counted(),
    {
        match self {
            AnyPcmStream::Wav(stream) => stream.input_bytes_processed(),
            AnyPcmStream::Aiff(stream) => stream.input_bytes_processed(),
            AnyPcmStream::Caf(stream) => stream.input_bytes_processed(),
        }
    }
}

impl EncodePcmStream for AnyPcmStream {
    open spec fn is_valid(&self) -> bool {
        match self {
            AnyPcmStream::Wav(stream) => stream.is_valid(),
            AnyPcmStream::Aiff(stream) => stream.is_valid(),
            AnyPcmStream::Caf(stream) => stream.is_valid(),
        }
    }

    open spec fn description(&self) -> PcmSpec {
        match self {
            AnyPcmStream::Wav(stream) => stream.description(),
            AnyPcmStream::Aiff(stream) => stream.description(),
            AnyPcmStream::Caf(stream) => stream.description(),
        }
    }

    open spec fn upcoming(&self) -> Seq<i32> {
        match self {
            AnyPcmStream::Wav(stream) => stream.upcoming(),
            AnyPcmStream::Aiff(stream) => stream.upcoming(),
            AnyPcmStream::Caf(stream) => stream.upcoming(),
        }
    }

    open spec fn delivers(&self) -> bool {
        match self {
            AnyPcmStream::Wav(stream) => stream.delivers(),
            AnyPcmStream::Aiff(stream) => stream.delivers(),
            AnyPcmStream::Caf(stream) => stream.delivers(),
        }
    }

    open spec fn failed(&self) -> Option<ErrorView> {
        match self {
            AnyPcmStream::Wav(stream) => stream.failed(),
            AnyPcmStream::Aiff(stream) => stream.failed(),
            AnyPcmStream::Caf(stream) => stream.failed(),
        }
    }

    open spec fn breaks_off(&self) -> Option<ErrorView> {
        match self {
            AnyPcmStream::Wav(stream) => stream.breaks_off(),
            AnyPcmStream::Aiff(stream) => stream.breaks_off(),
            AnyPcmStream::Caf(stream) => stream.breaks_off(),
        }
    }

    open spec fn chunk_wishes(&self) -> (Option<usize>, Option<usize>) {
        match self {
            AnyPcmStream::Wav(stream) => stream.chunk_wishes(),
            AnyPcmStream::Aiff(stream) => stream.chunk_wishes(),
            AnyPcmStream::Caf(stream) => stream.chunk_wishes(),
        }
    }

    fn spec(&self) -> (spec: PcmSpec) {
        match self {
            AnyPcmStream::Wav(stream) => stream.spec(),
            AnyPcmStream::Aiff(stream) => stream.spec(),
            AnyPcmStream::Caf(stream) => stream.spec(),
        }
    }

    fn read_chunk(&mut self, max_frames: usize, output: &mut Vec<i32>) -> (read: Result<usize>)
        ensures
            final(self).counted() == match read {
                Ok(frames) => count_after(
                    old(self).counted(),
                    stored_bytes(old(self).description(), frames as nat),
                ),
                Err(_) => old(self).counted(),
            },
    {
        match self {
            AnyPcmStream::Wav(stream) => stream.read_chunk(max_frames, output),
            AnyPcmStream::Aiff(stream) => stream.read_chunk(max_frames, output),
            AnyPcmStream::Caf(stream) => stream.read_chunk(max_frames, output),
        }
    }

    fn read_chunk_payload(&mut self, max_frames: usize, reuse: Option<EncodeChunkPayload>)
        -> (payload: Result<EncodeChunkPayload>) {
        match self {
            AnyPcmStream::Wav(stream) => stream.read_chunk_payload(max_frames, reuse),
            AnyPcmStream::Aiff(stream) => stream.read_chunk_payload(max_frames, reuse),
            AnyPcmStream::Caf(stream) => stream.read_chunk_payload(max_frames, reuse),
        }
    }

    fn update_streaminfo_md5(&mut self, md5: &mut StreaminfoMd5, samples: &[i32]) -> (result:
        Result<()>) {
        match self {
            AnyPcmStream::Wav(stream) => stream.update_streaminfo_md5(md5, samples),
            AnyPcmStream::Aiff(stream) => stream.update_streaminfo_md5(md5, samples),
            AnyPcmStream::Caf(stream) => stream.update_streaminfo_md5(md5, samples),
        }
    }

    fn update_streaminfo_md5_for_payload(
        &mut self,
        md5: &mut StreaminfoMd5,
        payload: &EncodeChunkPayload,
    ) -> (result: Result<()>) {
        match self {
            AnyPcmStream::Wav(stream) => stream.update_streaminfo_md5_for_payload(md5, payload),
            AnyPcmStream::Aiff(stream) => stream.update_streaminfo_md5_for_payload(md5, payload),
            AnyPcmStream::Caf(stream) => stream.update_streaminfo_md5_for_payload(md5, payload),
        }
    }

    fn preferred_encode_chunk_max_frames(&self) -> (wish: Option<usize>) {
        match self {
            AnyPcmStream::Wav(stream) => stream.preferred_encode_chunk_max_frames(),
            AnyPcmStream::Aiff(stream) => stream.preferred_encode_chunk_max_frames(),
            AnyPcmStream::Caf(stream) => stream.preferred_encode_chunk_max_frames(),
        }
    }

    fn preferred_encode_chunk_target_pcm_frames(&self) -> (wish: Option<usize>) {
        match self {
            AnyPcmStream::Wav(stream) => stream.preferred_encode_chunk_target_pcm_frames(),
            AnyPcmStream::Aiff(stream) => stream.preferred_encode_chunk_target_pcm_frames(),
            AnyPcmStream::Caf(stream) => stream.preferred_encode_chunk_target_pcm_frames(),
        }
    }
}

/// What a container holds: the description of its samples, the samples for which it has
/// bytes, whether it has bytes for all, the error of a read for which it has none, and its
/// metadata.
pub struct InputContents {
    pub spec: PcmSpec,
    pub samples: Seq<i32>,
    pub is_complete: bool,
    pub breaks_off: Option<ErrorView>,
    pub metadata: MetadataView,
}

/// What the container at a position holds, or why it cannot be read.
pub open spec fn input_contents(bytes: Seq<u8>, position: nat, options: WavReaderOptions)
    -> std::result::Result<InputContents, ErrorView> {
    match input_kind(bytes, position) {
        PcmInputKind::AiffLike => match aiff_layout(bytes, position) {
            Err(error) => Err(error),
            Ok(layout) => {
                let behind = bytes_from(bytes, layout.data_offset as nat);
                Ok(
                    InputContents {
                        spec: layout_spec(layout),
                        samples: held_samples(
                            behind,
                            layout.total_samples as nat,
                            layout.envelope,
                            layout.byte_order,
                        ),
                        is_complete: layout.total_samples * frame_size(layout.envelope)
                            <= behind.len(),
                        breaks_off: shortage(
                            behind.len(),
                            layout.total_samples as nat,
                            layout.envelope,
                        ),
                        metadata: empty_metadata(),
                    },
                )
            },
        },
        PcmInputKind::Caf => match caf_contents(bytes, position) {
            Err(error) => Err(error),
            Ok((parsed, frames)) => {
                let behind = bytes_from(bytes, parsed.data_offset as nat);
                let envelope = raw_envelope(parsed.descriptor)->Ok_0;
                Ok(
                    InputContents {
                        spec: stream_spec(parsed.descriptor.sample_rate, frames, envelope),
                        samples: held_samples(
                            behind,
                            frames as nat,
                            envelope,
                            order_of(parsed.descriptor.byte_order),
                        ),
                        is_complete: frames * frame_size(envelope) <= behind.len(),
                        breaks_off: shortage(behind.len(), frames as nat, envelope),
                        metadata: empty_metadata(),
                    },
                )
            },
        },
        PcmInputKind::RiffLike => match wav_contents(bytes, position, options) {
            Err(error) => Err(error),
            Ok((layout, metadata)) => {
                let behind = bytes_from(bytes, layout.data_offset);
                let envelope = wav_envelope(layout);
                Ok(
                    InputContents {
                        spec: wav_spec(layout),
                        samples: held_samples(
                            behind,
                            layout.frames as nat,
                            envelope,
                            ByteOrder::Wave,
                        ),
                        is_complete: layout.frames * frame_size(envelope) <= behind.len(),
                        breaks_off: shortage(behind.len(), layout.frames as nat, envelope),
                        metadata,
                    },
                )
            },
        },
    }
}

/// The stream of a reader hands out what its container holds.
pub proof fn lemma_input_stream(
    bytes: Seq<u8>,
    position: nat,
    reader: PcmReader,
    stream: AnyPcmStream,
    options: WavReaderOptions,
)
    requires
        is_read(Ok(reader), bytes, position, options),
        continues(stream, reader),
    ensures
        input_contents(bytes, position, options) == Ok::<InputContents, ErrorView>(
            InputContents {
                spec: stream.description(),
                samples: stream.upcoming(),
                is_complete: stream.delivers(),
                breaks_off: stream.breaks_off(),
                metadata: reader.staged(),
            },
        ),
        stream.chunk_wishes() == (None::<usize>, None::<usize>),
{
    match stream {
        AnyPcmStream::Wav(counted) => counted.lemma_counted(),
        AnyPcmStream::Aiff(counted) => counted.lemma_counted(),
        AnyPcmStream::Caf(counted) => counted.lemma_counted(),
    }
}

} // verus!
