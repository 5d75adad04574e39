//! Decode sessions: from decoded samples to a PCM container.

use vstd::prelude::*;

use crate::config::{with_decode_threads, DecodeBuilder, DecodeConfig, DecodeSettings};
use crate::decode_output::{decode_is_given_up, decode_is_told, decode_stream_to_container, facts_of, is_decoded, DecodePcmStream, DecodeSummary, StreamFacts};
use crate::error::{Error, ErrorView, Result};
use crate::metadata::{emitted, empty_metadata, Metadata, MetadataView};
use crate::pcm::{ordinary_channel_mask, ordinary_mask, PcmContainer, PcmSpec};
use crate::progress::{refusal_is_told, NoProgress, ProgressSink, ProgressSnapshot};
use crate::stream_info::StreamInfo;

verus! {

/// Owned decode-side handoff that keeps metadata and the decoded samples together.
#[derive(Debug, Clone)]
pub struct DecodeSource<S> {
    metadata: Metadata,
    stream: S,
}

impl<S> DecodeSource<S> {
    /// The staged metadata.
    pub closed spec fn staged(&self) -> MetadataView {
        self.metadata@
    }

    /// The stream to decode.
    pub closed spec fn samples(&self) -> S {
        self.stream
    }

    /// Create a new decode source from staged metadata and a stream.
    pub fn new(metadata: Metadata, stream: S) -> (source: Self)
        ensures
            source.staged() == metadata@,
            source.samples() == stream,
    {
        DecodeSource { metadata, stream }
    }

    /// Consume the source and return the metadata and stream.
    pub fn into_parts(self) -> (parts: (Metadata, S))
        ensures
            parts.0@ == self.staged(),
            parts.1 == self.samples(),
    {
        (self.metadata, self.stream)
    }
}

/// The error of a channel mask whose origin is not marked.
pub open spec fn unmarked_mask() -> ErrorView {
    ErrorView::UnsupportedFlac(
        "non-ordinary channel mask requires FLACX_CHANNEL_LAYOUT_PROVENANCE metadata"@,
    )
}

/// The speaker positions of a stream may be restored: those of the stream and those that its
/// metadata name are the ordinary ones, or their origin is marked, or no one asks.
pub open spec fn mask_is_trusted(metadata: MetadataView, spec: PcmSpec, strict: bool) -> bool {
    let ordinary = ordinary_mask(spec.channels as u16);
    !strict || metadata.provenance || (ordinary == Some(spec.channel_mask) && (
    metadata.channel_mask is None || metadata.channel_mask == ordinary))
}

/// Tests that the speaker positions of a stream may be restored.
pub fn align_metadata_to_stream_spec(metadata: &Metadata, spec: PcmSpec, strict: bool) -> (result:
    Result<()>)
    ensures
        if mask_is_trusted(metadata@, spec, strict) {
            result is Ok
        } else {
            result matches Err(error) && error@ == unmarked_mask()
        },
{
    if !strict || metadata.has_channel_layout_provenance() {
        return Ok(());
    }
    match ordinary_channel_mask(spec.channels as u16) {
        Some(mask) => {
            let named: u32 = match metadata.channel_mask() {
                Some(named) => named,
                None => mask,
            };
            if mask == spec.channel_mask && mask == named {
                return Ok(());
            }
        },
        None => {},
    }
    Err(
        Error::UnsupportedFlac(
            "non-ordinary channel mask requires FLACX_CHANNEL_LAYOUT_PROVENANCE metadata".to_owned(),
        ),
    )
}

/// Writer-owning FLAC-to-PCM-container decode session.
#[derive(Debug, Clone, PartialEq, Eq)]
pub struct Decoder<W> {
    config: DecodeConfig,
    writer: W,
}

impl DecodeConfig {
    /// Bind an output writer and create a writer-owning decode session.
    pub fn into_decoder<W>(self, writer: W) -> (decoder: Decoder<W>)
        ensures
            decoder.settings() == self@,
            decoder.output() == writer,
    {
        Decoder::new(writer, self)
    }
}

impl DecodeBuilder {
    /// Finish building the configuration and bind an output writer.
    pub fn into_decoder<W>(self, writer: W) -> (decoder: Decoder<W>)
        ensures
            decoder.settings() == self@,
            decoder.output() == writer,
    {
        self.build().into_decoder(writer)
    }
}

impl<W> Decoder<W> {
    /// The settings of the session.
    pub closed spec fn settings(&self) -> DecodeSettings {
        self.config@
    }

    /// The writer of the session.
    pub closed spec fn output(&self) -> W {
        self.writer
    }

    /// Construct a writer-owning decode session from a writer and config.
    pub fn new(writer: W, config: DecodeConfig) -> (decoder: Self)
        ensures
            decoder.settings() == config@,
            decoder.output() == writer,
    {
        Decoder { config, writer }
    }

    /// Return the configuration currently stored in the decode session.
    pub fn config(&self) -> (config: DecodeConfig)
        ensures
            config@ == self.settings(),
    {
        self.config
    }

    /// Return a new decoder with a different worker thread count.
    pub fn with_threads(self, threads: usize) -> (decoder: Self)
        ensures
            decoder.settings() == with_decode_threads(self.settings(), threads),
            decoder.output() == self.output(),
    {
        Decoder { config: self.config.with_threads(threads), writer: self.writer }
    }

    /// Return a new decoder with a different output container policy.
    pub fn with_output_container(self, output_container: PcmContainer) -> (decoder: Self)
        ensures
            decoder.settings() == (DecodeSettings { output_container, ..self.settings() }),
            decoder.output() == self.output(),
    {
        Decoder {
            config: self.config.with_output_container(output_container),
            writer: self.writer,
        }
    }

    /// Return the owned output writer by value.
    pub fn into_inner(self) -> (writer: W)
        ensures
            writer == self.output(),
    {
        self.writer
    }
}

/// What a decode session does with a stream and its metadata.
pub open spec fn session_decodes<S: DecodePcmStream>(
    stream: S,
    metadata: MetadataView,
    settings: DecodeSettings,
    before: Seq<u8>,
    after: Seq<u8>,
    accepts: bool,
    result: Result<DecodeSummary>,
) -> bool {
    if !mask_is_trusted(
        metadata,
        stream.description(),
        settings.strict_channel_mask_provenance,
    ) {
        &&& result matches Err(error) && error@ == unmarked_mask()
        &&& after == before
    } else {
        is_decoded(
            facts_of(stream),
            emitted(metadata, settings.emit_fxmd),
            settings.output_container,
            before,
            after,
            accepts,
            result,
        )
    }
}

/// What a decode session has told and left when it ends with an error.
pub open spec fn session_is_given_up(
    stream: StreamFacts,
    metadata: MetadataView,
    settings: DecodeSettings,
    outputs: (Seq<u8>, Seq<u8>),
    told: (Seq<ProgressSnapshot>, Seq<ProgressSnapshot>),
) -> bool {
    if !mask_is_trusted(
        metadata,
        stream.description,
        settings.strict_channel_mask_provenance,
    ) {
        outputs.1 == outputs.0 && told.1 == told.0
    } else {
        decode_is_given_up(
            stream,
            emitted(metadata, settings.emit_fxmd),
            settings.output_container,
            outputs,
            told,
        )
    }
}

impl Decoder<Vec<u8>> {
    /// Decode a PCM stream into the owned writer.
    pub fn decode<S: DecodePcmStream>(&mut self, stream: S) -> (summary: Result<DecodeSummary>)
        requires
            stream.is_valid(),
            stream.upcoming().len() * 32 <= u64::MAX,
        ensures
            final(self).settings() == old(self).settings(),
            session_decodes(
                stream,
                empty_metadata(),
                old(self).settings(),
                old(self).output()@,
                final(self).output()@,
                true,
                summary,
            ),
    {
        let mut progress = NoProgress::new();
        self.decode_with_progress(stream, &mut progress)
    }

    /// Decode an owned source into the owned writer.
    pub fn decode_source<S: DecodePcmStream>(&mut self, source: DecodeSource<S>) -> (summary: Result<
        DecodeSummary,
    >)
        requires
            source.samples().is_valid(),
            source.samples().upcoming().len() * 32 <= u64::MAX,
        ensures
            final(self).settings() == old(self).settings(),
            session_decodes(
                source.samples(),
                source.staged(),
                old(self).settings(),
                old(self).output()@,
                final(self).output()@,
                true,
                summary,
            ),
    {
        let mut progress = NoProgress::new();
        self.decode_source_with_progress(source, &mut progress)
    }

    /// Decode a PCM stream into the owned writer while reporting progress.
    pub fn decode_with_progress<S: DecodePcmStream, P: ProgressSink>(
        &mut self,
        stream: S,
        progress: &mut P,
    ) -> (summary: Result<DecodeSummary>)
        requires
            stream.is_valid(),
            stream.upcoming().len() * 32 <= u64::MAX,
        ensures
            refusal_is_told(*old(progress), *final(progress), summary),
            final(self).settings() == old(self).settings(),
            session_decodes(
                stream,
                empty_metadata(),
                old(self).settings(),
                old(self).output()@,
                final(self).output()@,
                old(progress).accepts(),
                summary,
            ),
            summary is Ok ==> decode_is_told(
                facts_of(stream),
                empty_metadata(),
                old(self).settings().output_container,
                final(self).output()@.len(),
                old(progress).told(),
                final(progress).told(),
            ),
            summary is Err ==> session_is_given_up(
                facts_of(stream),
                empty_metadata(),
                old(self).settings(),
                (old(self).output()@, final(self).output()@),
                (old(progress).told(), final(progress).told()),
            ),
    {
        self.decode_source_with_progress(
            DecodeSource::new(Metadata::default(), stream),
            progress,
        )
    }

    /// Decode an owned source into the owned writer while reporting progress.
    pub fn decode_source_with_progress<S: DecodePcmStream, P: ProgressSink>(
        &mut self,
        source: DecodeSource<S>,
        progress: &mut P,
    ) -> (summary: Result<DecodeSummary>)
        requires
            source.samples().is_valid(),
            source.samples().upcoming().len() * 32 <= u64::MAX,
        ensures
            refusal_is_told(*old(progress), *final(progress), summary),
            final(self).settings() == old(self).settings(),
            session_decodes(
                source.samples(),
                source.staged(),
                old(self).settings(),
                old(self).output()@,
                final(self).output()@,
                old(progress).accepts(),
                summary,
            ),
            summary is Ok ==> decode_is_told(
                facts_of(source.samples()),
                emitted(source.staged(), old(self).settings().emit_fxmd),
                old(self).settings().output_container,
                final(self).output()@.len(),
                old(progress).told(),
                final(progress).told(),
            ),
            summary is Err ==> session_is_given_up(
                facts_of(source.samples()),
                source.staged(),
                old(self).settings(),
                (old(self).output()@, final(self).output()@),
                (old(progress).told(), final(progress).told()),
            ),
    {
        let (metadata, stream) = source.into_parts();
        let mut stream = stream;
        match align_metadata_to_stream_spec(
            &metadata,
            stream.spec(),
            self.config.strict_channel_mask_provenance(),
        ) {
            Ok(()) => {},
            Err(error) => return Err(error),
        }
        stream.set_threads(self.config.threads());
        decode_stream_to_container(stream, &mut self.writer, metadata, self.config, progress)
    }
}

/// Decoded samples in memory.
#[derive(Debug, Clone)]
pub struct BufferedPcmStream {
    spec: PcmSpec,
    info: StreamInfo,
    samples: Vec<i32>,
    frame_count: usize,
    position: usize,
    whole: bool,
    threads: usize,
}

impl BufferedPcmStream {
    /// A stream of decoded samples. Where `whole` is set, they are handed out at once if
    /// someone asks.
    pub fn new(
        spec: PcmSpec,
        info: StreamInfo,
        samples: Vec<i32>,
        frame_count: usize,
        whole: bool,
    ) -> (stream: Self)
        ensures
            stream.is_valid(),
            stream.description() == spec,
            stream.info() == info,
            stream.upcoming() == samples@,
            stream.frame_total() == frame_count,
            stream.is_whole() == whole,
            stream.delivers(),
    {
        assert(samples@.skip(0) == samples@);
        BufferedPcmStream { spec, info, samples, frame_count, position: 0, whole, threads: 1 }
    }
}

impl DecodePcmStream for BufferedPcmStream {
    closed spec fn is_valid(&self) -> bool {
        self.position <= self.samples@.len()
    }

    closed spec fn description(&self) -> PcmSpec {
        self.spec
    }

    closed spec fn info(&self) -> StreamInfo {
        self.info
    }

    closed spec fn upcoming(&self) -> Seq<i32> {
        self.samples@.skip(self.position as int)
    }

    closed spec fn delivers(&self) -> bool {
        true
    }

    closed spec fn failed(&self) -> Option<ErrorView> {
        None
    }

    closed spec fn is_whole(&self) -> bool {
        self.whole
    }

    closed spec fn frame_total(&self) -> usize {
        self.frame_count
    }

    closed spec fn threads(&self) -> usize {
        self.threads
    }

    fn spec(&self) -> (spec: PcmSpec) {
        self.spec
    }

    fn stream_info(&self) -> (info: StreamInfo) {
        self.info
    }

    fn total_input_frames(&self) -> (frames: usize) {
        self.frame_count
    }

    fn completed_input_frames(&self) -> (frames: usize) {
        self.frame_count
    }

    fn input_bytes_processed(&self) -> (bytes: u64) {
        0
    }

    fn set_threads(&mut self, threads: usize) {
        self.threads = threads;
    }

    fn read_chunk(&mut self, max_frames: usize, output: &mut Vec<i32>) -> (read: Result<usize>) {
        let channels: usize = self.spec.channels as usize;
        let left: usize = self.samples.len() - self.position;
        let ghost upcoming = self.upcoming();
        if channels == 0 {
            proof {
                assert(max_frames * 0 == 0);
                assert(upcoming.take(0) == Seq::<i32>::empty());
                assert(upcoming.skip(0) == upcoming);
                assert(output@ + Seq::<i32>::empty() == output@);
            }
            return Ok(max_frames);
        }
        let frames: usize = if left / channels < max_frames {
            left / channels
        } else {
            max_frames
        };
        proof {
            vstd::arithmetic::div_mod::lemma_fundamental_div_mod(left as int, channels as int);
            vstd::arithmetic::mul::lemma_mul_is_commutative(
                channels as int,
                left as int / channels as int,
            );
            vstd::arithmetic::mul::lemma_mul_inequality(
                frames as int,
                left as int / channels as int,
                channels as int,
            );
            if max_frames as int > left as int / channels as int {
                vstd::arithmetic::mul::lemma_mul_inequality(
                    left as int / channels as int + 1,
                    max_frames as int,
                    channels as int,
                );
                assert((left as int / channels as int + 1) * channels == (left as int
                    / channels as int) * channels + channels) by (nonlinear_arith);
                vstd::arithmetic::div_mod::lemma_mod_bound(left as int, channels as int);
            }
        }
        let count: usize = frames * channels;
        let mut index: usize = 0;
        let ghost before = output@;
        assert(before + upcoming.take(0) == before);
        while index < count
            invariant
                index <= count,
                self.position + count <= self.samples@.len(),
                self.samples@.len() <= usize::MAX,
                upcoming == self.samples@.skip(self.position as int),
                output@ == before + upcoming.take(index as int),
                *self == *old(self),
            decreases count - index,
        {
            output.push(self.samples[self.position + index]);
            index = index + 1;
            assert(output@ == before + upcoming.take(index as int));
        }
        self.position = self.position + count;
        assert(self.upcoming() == upcoming.skip(count as int));
        Ok(frames)
    }

    fn take_decoded_samples(&mut self) -> (taken: Result<Option<(Vec<i32>, usize)>>) {
        if !self.whole {
            return Ok(None);
        }
        let ghost upcoming = self.upcoming();
        let mut rest: Vec<i32> = Vec::new();
        let mut index: usize = self.position;
        assert(self.samples@.subrange(index as int, index as int) == Seq::<i32>::empty());
        while index < self.samples.len()
            invariant
                self.position <= index <= self.samples@.len(),
                rest@ == self.samples@.subrange(self.position as int, index as int),
                *self == *old(self),
            decreases self.samples.len() - index,
        {
            rest.push(self.samples[index]);
            index = index + 1;
            assert(rest@ == self.samples@.subrange(self.position as int, index as int));
        }
        assert(rest@ == upcoming);
        self.position = self.samples.len();
        Ok(Some((rest, self.frame_count)))
    }
}

} // verus!
