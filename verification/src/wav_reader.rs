//! RIFF/WAVE, RF64 and Wave64 files as encode inputs.

use vstd::prelude::*;
use vstd::slice::slice_subrange;

use crate::byte_reader::{bytes_at, end_of_file, ByteReader};
use crate::draft::{drafted, empty_draft, finished, DraftView, FxmdChunkPolicy, MetadataDraft};
use crate::error::{Error, ErrorView, IoErrorKind, Result};
use crate::metadata::{Metadata, MetadataView};
use crate::pcm::{decode_samples, ordinary_mask, ByteOrder, PcmEnvelope, PcmSpec, PcmStream};
use crate::raw::{envelope_from_descriptor, lemma_raw_stream, raw_envelope, spec_from_envelope, stream_spec, RawPcmStream};
use crate::sample_source::{bytes_from, frame_size, frames_asked, held_samples, is_storable, read_failure, shortage, SampleSource};
use crate::stream::{count_after, EncodePcmStream, EncodeSource};
use crate::wav::{parse_wav_layout, place_views, wav_layout, ChunkPlace, PlaceView, WavLayoutView};

verus! {

/// How a RIFF/WAVE reader treats the private `fxmd` chunk.
#[derive(Debug, Clone, Copy, PartialEq, Eq, Structural)]
pub struct WavReaderOptions {
    pub capture_fxmd: bool,
    pub strict_fxmd_validation: bool,
}

impl Default for WavReaderOptions {
    fn default() -> (options: Self)
        ensures
            options == (WavReaderOptions { capture_fxmd: true, strict_fxmd_validation: true }),
    {
        WavReaderOptions { capture_fxmd: true, strict_fxmd_validation: true }
    }
}

/// The options that a reader has by default.
pub open spec fn default_reader_options() -> WavReaderOptions {
    WavReaderOptions { capture_fxmd: true, strict_fxmd_validation: true }
}

/// How the `fxmd` chunk is treated under the given options.
pub open spec fn fxmd_policy(options: WavReaderOptions) -> FxmdChunkPolicy {
    FxmdChunkPolicy { capture: options.capture_fxmd, strict: options.strict_fxmd_validation }
}

/// What the chunks of a file add to metadata, or why they cannot be read.
pub open spec fn drafted_places(
    bytes: Seq<u8>,
    places: Seq<PlaceView>,
    policy: FxmdChunkPolicy,
) -> std::result::Result<DraftView, ErrorView>
    decreases places.len(),
{
    if places.len() == 0 {
        Ok(empty_draft())
    } else {
        match drafted_places(bytes, places.drop_last(), policy) {
            Err(error) => Err(error),
            Ok(draft) => {
                let place = places.last();
                if place.start + place.size <= bytes.len() {
                    drafted(draft, place.id, bytes_at(bytes, place.start, place.size), policy)
                } else {
                    Ok(draft)
                }
            },
        }
    }
}

/// Metadata once the speaker positions of its samples are known: those that are not of
/// convention are kept.
pub open spec fn with_positions(metadata: MetadataView, channels: u16, mask: u32) -> MetadataView {
    if metadata.preserved.len() > 0 || ordinary_mask(channels) == Some(mask) {
        metadata
    } else {
        MetadataView { channel_mask: Some(mask), provenance: true, ..metadata }
    }
}

/// How the samples of a file are stored.
pub open spec fn wav_envelope(layout: WavLayoutView) -> PcmEnvelope {
    raw_envelope(layout.descriptor)->Ok_0
}

/// The description of the samples of a file.
pub open spec fn wav_spec(layout: WavLayoutView) -> PcmSpec {
    stream_spec(layout.descriptor.sample_rate, layout.frames, wav_envelope(layout))
}

/// The metadata of a file, or why it cannot be read.
pub open spec fn wav_metadata(
    bytes: Seq<u8>,
    layout: WavLayoutView,
    options: WavReaderOptions,
) -> std::result::Result<MetadataView, ErrorView> {
    match drafted_places(bytes, layout.places, fxmd_policy(options)) {
        Err(error) => Err(error),
        Ok(draft) => Ok(
            with_positions(
                finished(draft),
                wav_envelope(layout).channels,
                wav_envelope(layout).channel_mask,
            ),
        ),
    }
}

/// What the file at a position says of its samples, with its metadata, or why it cannot be
/// read.
pub open spec fn wav_contents(bytes: Seq<u8>, position: nat, options: WavReaderOptions)
    -> std::result::Result<(WavLayoutView, MetadataView), ErrorView> {
    match wav_layout(bytes, position) {
        Err(error) => Err(error),
        Ok(layout) => match wav_metadata(bytes, layout, options) {
            Err(error) => Err(error),
            Ok(metadata) => Ok((layout, metadata)),
        },
    }
}

proof fn lemma_draft_fails(
    bytes: Seq<u8>,
    places: Seq<PlaceView>,
    policy: FxmdChunkPolicy,
    count: int,
)
    requires
        0 <= count <= places.len(),
        drafted_places(bytes, places.take(count), policy) is Err,
    ensures
        drafted_places(bytes, places, policy) == drafted_places(bytes, places.take(count), policy),
    decreases places.len(),
{
    if count < places.len() {
        assert(places.drop_last().take(count) == places.take(count));
        lemma_draft_fails(bytes, places.drop_last(), policy, count);
    } else {
        assert(places.take(count) == places);
    }
}

/// Gathers the metadata of a file.
fn gather_metadata(bytes: &[u8], places: &Vec<ChunkPlace>, policy: FxmdChunkPolicy, frames: u64)
    -> (metadata: Result<Metadata>)
    ensures
        match drafted_places(bytes@, place_views(places@), policy) {
            Ok(draft) => metadata matches Ok(found) && found@ == finished(draft),
            Err(expected) => metadata matches Err(error) && error@ == expected,
        },
{
    let ghost views = place_views(places@);
    let mut draft = MetadataDraft::default();
    let mut index: usize = 0;
    assert(views.take(0) == Seq::<PlaceView>::empty());
    while index < places.len()
        invariant
            index <= places@.len(),
            views == place_views(places@),
            drafted_places(bytes@, views.take(index as int), policy) == Ok::<DraftView, ErrorView>(
                draft@,
            ),
        decreases places.len() - index,
    {
        let place = places[index];
        proof {
            assert(views.take(index + 1).drop_last() == views.take(index as int));
            assert(views.take(index + 1).last() == place@);
        }
        if place.start <= bytes.len() && place.size <= (bytes.len() - place.start) as u64 {
            let end: usize = place.start + place.size as usize;
            let payload = slice_subrange(bytes, place.start, end);
            match draft.ingest_chunk(place.id, payload, policy) {
                Ok(()) => {},
                Err(error) => {
                    proof {
                        lemma_draft_fails(bytes@, views, policy, index + 1);
                    }
                    return Err(error);
                },
            }
        }
        index = index + 1;
    }
    assert(views.take(index as int) == views);
    Ok(draft.finish(frames))
}

/// Single-pass PCM stream produced by [`WavReader`].
#[derive(Debug, Clone)]
pub struct WavPcmStream {
    inner: RawPcmStream,
}

/// A stream that is about to read the samples that bytes hold.
pub open spec fn is_wav_stream_over(
    stream: WavPcmStream,
    bytes: Seq<u8>,
    spec: PcmSpec,
    envelope: PcmEnvelope,
) -> bool {
    &&& stream.is_valid()
    &&& stream.description() == spec
    &&& stream.upcoming() == held_samples(
        bytes,
        spec.total_samples as nat,
        envelope,
        ByteOrder::Wave,
    )
    &&& stream.delivers() == (spec.total_samples * frame_size(envelope) <= bytes.len())
    &&& stream.breaks_off() == shortage(bytes.len(), spec.total_samples as nat, envelope)
    &&& stream.chunk_wishes() == (None::<usize>, None::<usize>)
    &&& stream.stored().bytes() == bytes
    &&& stream.stored().left() == spec.total_samples
    &&& stream.stored().layout() == envelope
    &&& stream.stored().byte_order() == ByteOrder::Wave
    &&& stream.processed() == 0
}

impl WavPcmStream {
    /// The stored samples and their number.
    pub closed spec fn stored(&self) -> SampleSource {
        self.inner.stored()
    }

    /// The bytes read so far, as far as 64 bits count them.
    pub closed spec fn processed(&self) -> nat {
        self.inner.processed()
    }

    /// The bytes read so far, as far as 64 bits count them.
    pub fn input_bytes_processed(&self) -> (bytes: u64)
        ensures
            bytes == self.processed(),
    {
        self.inner.input_bytes_processed()
    }
}

impl EncodePcmStream for WavPcmStream {
    closed spec fn is_valid(&self) -> bool {
        self.inner.is_valid() && self.inner.overflow_text() == "WAV chunk size overflows"@
    }

    closed spec fn description(&self) -> PcmSpec {
        self.inner.description()
    }

    closed spec fn upcoming(&self) -> Seq<i32> {
        self.inner.upcoming()
    }

    closed spec fn delivers(&self) -> bool {
        self.inner.delivers()
    }

    closed spec fn failed(&self) -> Option<ErrorView> {
        self.inner.failed()
    }

    closed spec fn breaks_off(&self) -> Option<ErrorView> {
        self.inner.breaks_off()
    }

    closed spec fn chunk_wishes(&self) -> (Option<usize>, Option<usize>) {
        self.inner.chunk_wishes()
    }

    fn spec(&self) -> (spec: PcmSpec) {
        self.inner.spec()
    }

    fn read_chunk(&mut self, max_frames: usize, output: &mut Vec<i32>) -> (read: Result<usize>)
        ensures
            final(self).stored().layout() == old(self).stored().layout(),
            final(self).stored().byte_order() == old(self).stored().byte_order(),
            ({
                let frames = frames_asked(old(self).stored().left(), max_frames as nat);
                match read_failure(
                    old(self).stored().bytes(),
                    frames,
                    old(self).stored().layout(),
                    "WAV chunk size overflows"@,
                ) {
                    Some(expected) => {
                        &&& read matches Err(error) && error@ == expected
                        &&& final(self).processed() == old(self).processed()
                        &&& final(self).stored().bytes() == old(self).stored().bytes()
                        &&& final(self).stored().left() == old(self).stored().left()
                    },
                    None => {
                        let size = frames * frame_size(old(self).stored().layout());
                        &&& read matches Ok(count) && count == frames
                        &&& final(self).processed() == count_after(old(self).processed(), size)
                        &&& final(self).stored().bytes() == old(self).stored().bytes().skip(
                            size as int,
                        )
                        &&& final(self).stored().left() == old(self).stored().left() - frames
                    },
                }
            }),
    {
        let ghost inner = self.inner;
        assert(self.description() == inner.description() && self.upcoming() == inner.upcoming());
        let read = self.inner.read_chunk(max_frames, output);
        assert(self.breaks_off() == self.inner.breaks_off());
        read
    }

    fn preferred_encode_chunk_max_frames(&self) -> (wish: Option<usize>) {
        self.inner.preferred_encode_chunk_max_frames()
    }

    fn preferred_encode_chunk_target_pcm_frames(&self) -> (wish: Option<usize>) {
        self.inner.preferred_encode_chunk_target_pcm_frames()
    }
}

/// Reader for RIFF/WAVE-family encode inputs.
#[derive(Debug, Clone)]
pub struct WavReader {
    reader: ByteReader,
    spec: PcmSpec,
    metadata: Metadata,
    envelope: PcmEnvelope,
}

/// A reader of a file with these contents.
pub open spec fn reads_wav(
    reader: WavReader,
    bytes: Seq<u8>,
    layout: WavLayoutView,
    metadata: MetadataView,
) -> bool {
    &&& reader.is_valid()
    &&& reader.description() == wav_spec(layout)
    &&& reader.staged() == metadata
    &&& reader.bytes() == bytes_from(bytes, layout.data_offset)
    &&& reader.layout() == wav_envelope(layout)
}

impl WavReader {
    /// The reader keeps its own rules.
    pub closed spec fn is_valid(&self) -> bool {
        is_storable(self.envelope) && self.spec.channels == self.envelope.channels
    }

    /// The description of the samples.
    pub closed spec fn description(&self) -> PcmSpec {
        self.spec
    }

    /// The staged metadata.
    pub closed spec fn staged(&self) -> MetadataView {
        self.metadata@
    }

    /// The bytes from the first sample on.
    pub closed spec fn bytes(&self) -> Seq<u8> {
        bytes_from(self.reader.contents(), self.reader.at())
    }

    /// How the samples are stored.
    pub closed spec fn layout(&self) -> PcmEnvelope {
        self.envelope
    }

    /// Parse a WAV/RF64/Wave64 reader.
    pub fn new(reader: ByteReader) -> (parsed: Result<Self>)
        ensures
            match wav_contents(reader.contents(), reader.at(), default_reader_options()) {
                Ok((layout, metadata)) => parsed matches Ok(found) && reads_wav(
                    found,
                    reader.contents(),
                    layout,
                    metadata,
                ),
                Err(expected) => parsed matches Err(error) && error@ == expected,
            },
    {
        WavReader::with_reader_options(reader, WavReaderOptions::default())
    }

    /// Parse a WAV/RF64/Wave64 reader with explicit options.
    pub fn with_reader_options(reader: ByteReader, options: WavReaderOptions) -> (parsed: Result<
        Self,
    >)
        ensures
            match wav_contents(reader.contents(), reader.at(), options) {
                Ok((layout, metadata)) => parsed matches Ok(found) && reads_wav(
                    found,
                    reader.contents(),
                    layout,
                    metadata,
                ),
                Err(expected) => parsed matches Err(error) && error@ == expected,
            },
    {
        let mut reader = reader;
        let layout = match parse_wav_layout(&reader) {
            Ok(layout) => layout,
            Err(error) => return Err(error),
        };
        let policy = FxmdChunkPolicy {
            capture: options.capture_fxmd,
            strict: options.strict_fxmd_validation,
        };
        let envelope = match envelope_from_descriptor(layout.descriptor) {
            Ok(envelope) => envelope,
            Err(_) => vstd::pervasive::unreached(),
        };
        let mut metadata = match gather_metadata(
            reader.as_slice(),
            &layout.places,
            policy,
            layout.frames,
        ) {
            Ok(metadata) => metadata,
            Err(error) => return Err(error),
        };
        metadata.set_channel_mask_for_channels(envelope.channels, envelope.channel_mask);
        let spec = spec_from_envelope(layout.descriptor.sample_rate, layout.frames, envelope);
        reader.seek(layout.data_offset as u64);
        Ok(WavReader { reader, spec, metadata, envelope })
    }

    /// Return the parsed PCM stream specification.
    pub fn spec(&self) -> (spec: PcmSpec)
        ensures
            spec == self.description(),
    {
        self.spec
    }

    /// Return metadata staged for encode-side preservation.
    pub fn metadata(&self) -> (metadata: &Metadata)
        ensures
            metadata@ == self.staged(),
    {
        &self.metadata
    }

    /// Convert this reader into an owned encode source.
    pub fn into_source(self) -> (source: EncodeSource<WavPcmStream>)
        requires
            self.is_valid(),
        ensures
            source.staged() == self.staged(),
            is_wav_stream_over(
                source.samples(),
                self.bytes(),
                self.description(),
                self.layout(),
            ),
    {
        let (metadata, stream) = self.into_session_parts();
        EncodeSource::new(metadata, stream)
    }

    /// The samples as a stream.
    pub fn into_pcm_stream(self) -> (stream: WavPcmStream)
        requires
            self.is_valid(),
        ensures
            is_wav_stream_over(stream, self.bytes(), self.description(), self.layout()),
    {
        self.into_session_parts().1
    }

    /// The metadata, and the samples as a stream.
    pub fn into_session_parts(self) -> (parts: (Metadata, WavPcmStream))
        requires
            self.is_valid(),
        ensures
            parts.0@ == self.staged(),
            is_wav_stream_over(parts.1, self.bytes(), self.description(), self.layout()),
    {
        let inner = RawPcmStream::from_parts(
            self.reader,
            self.spec,
            self.envelope,
            ByteOrder::Wave,
            "WAV chunk size overflows",
        );
        proof {
            lemma_raw_stream(inner);
        }
        (self.metadata, WavPcmStream { inner })
    }
}

/// The number of frames of a WAV/RF64/Wave64 file.
pub fn inspect_total_samples(reader: &mut ByteReader) -> (frames: Result<u64>)
    ensures
        final(reader).contents() == old(reader).contents(),
        match wav_layout(old(reader).contents(), old(reader).at()) {
            Ok(layout) => frames == Ok::<u64, Error>(layout.frames),
            Err(expected) => frames matches Err(error) && error@ == expected,
        },
{
    match parse_wav_layout(reader) {
        Ok(layout) => Ok(layout.frames),
        Err(error) => Err(error),
    }
}

/// What the samples of the file at a position are, or why they cannot be read.
pub open spec fn wav_samples(bytes: Seq<u8>, position: nat) -> std::result::Result<
    (PcmSpec, Seq<i32>),
    ErrorView,
> {
    match wav_contents(bytes, position, default_reader_options()) {
        Err(error) => Err(error),
        Ok((layout, _)) => {
            let behind = bytes_from(bytes, layout.data_offset);
            let envelope = wav_envelope(layout);
            if layout.frames * frame_size(envelope) <= behind.len() {
                Ok(
                    (
                        wav_spec(layout),
                        held_samples(behind, layout.frames as nat, envelope, ByteOrder::Wave),
                    ),
                )
            } else {
                Err(end_of_file())
            }
        },
    }
}

/// Reads the samples of a WAV/RF64/Wave64 file.
pub fn read_wav(reader: ByteReader) -> (stream: Result<PcmStream>)
    ensures
        match wav_samples(reader.contents(), reader.at()) {
            Ok((spec, samples)) => stream matches Ok(found) && found.spec == spec
                && found.samples@ == samples,
            Err(expected) => stream matches Err(error) && error@ == expected,
        },
{
    let ghost bytes = reader.contents();
    let ghost position = reader.at();
    let parsed = match WavReader::new(reader) {
        Ok(parsed) => parsed,
        Err(error) => return Err(error),
    };
    let spec = parsed.spec;
    let envelope = parsed.envelope;
    assert(1 <= envelope.channels * (envelope.container_bits_per_sample / 8) <= 0x4_0000)
        by (nonlinear_arith)
        requires
            1 <= envelope.channels <= 0xffff,
            1 <= envelope.container_bits_per_sample / 8 <= 4,
    ;
    let width: u64 = envelope.channels as u64 * (envelope.container_bits_per_sample / 8) as u64;
    let contents = parsed.reader.as_slice();
    let start: u64 = parsed.reader.position();
    let ghost behind = bytes_from(contents@, start as nat);
    assert(width == frame_size(envelope));
    if start > contents.len() as u64 {
        if spec.total_samples > 0 {
            assert(spec.total_samples * width > 0) by (nonlinear_arith)
                requires
                    spec.total_samples > 0,
                    width > 0,
            ;
            return Err(Error::Io(IoErrorKind::UnexpectedEof));
        }
        assert(0 * (width as int) == 0);
        let samples: Vec<i32> = Vec::new();
        assert(behind.take(0) == Seq::<u8>::empty());
        assert(samples@ == held_samples(behind, 0, envelope, ByteOrder::Wave));
        return Ok(PcmStream { spec, samples });
    }
    let held: u64 = (contents.len() - start as usize) as u64;
    assert(held == behind.len());
    if spec.total_samples > held / width {
        assert(spec.total_samples * width > held) by (nonlinear_arith)
            requires
                spec.total_samples > held / width,
                width > 0,
        ;
        return Err(Error::Io(IoErrorKind::UnexpectedEof));
    }
    assert(spec.total_samples * width <= held) by (nonlinear_arith)
        requires
            spec.total_samples <= held / width,
            width > 0,
    ;
    let size: usize = (spec.total_samples * width) as usize;
    let data = slice_subrange(contents, start as usize, start as usize + size);
    assert(data@ == behind.take(size as int));
    match decode_samples(data, envelope, ByteOrder::Wave) {
        Ok(samples) => Ok(PcmStream { spec, samples }),
        Err(_) => vstd::pervasive::unreached(),
    }
}

} // verus!
