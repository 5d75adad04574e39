//! Streams of PCM samples that an encode session reads.

use vstd::prelude::*;

use crate::error::{ErrorView, Result};
use crate::md5::{md5_of, StreaminfoMd5};
use crate::metadata::{Metadata, MetadataView};
use crate::pcm::{encoded_samples, stored_samples, ByteOrder, PcmEnvelope, PcmSpec};

verus! {

/// The samples of a chunk, decoded or as they are stored.
#[derive(Debug, Clone)]
pub enum EncodeChunkPayload {
    DecodedSamples(Vec<i32>),
    PackedPcm { bytes: Vec<u8>, frame_count: usize, envelope: PcmEnvelope },
}

impl EncodeChunkPayload {
    /// The samples that the chunk stands for.
    pub open spec fn samples(&self) -> Seq<i32> {
        match self {
            EncodeChunkPayload::DecodedSamples(samples) => samples@,
            EncodeChunkPayload::PackedPcm { bytes, envelope, .. } => stored_samples(
                bytes@,
                *envelope,
                ByteOrder::Little,
            ),
        }
    }

    /// The number of samples per channel.
    pub open spec fn frames(&self, channels: nat) -> nat {
        match self {
            EncodeChunkPayload::DecodedSamples(samples) => samples@.len() / channels,
            EncodeChunkPayload::PackedPcm { frame_count, .. } => *frame_count as nat,
        }
    }

    /// The number of samples per channel.
    pub fn pcm_frames(&self, channels: usize) -> (frames: usize)
        requires
            channels > 0,
        ensures
            frames == self.frames(channels as nat),
    {
        match self {
            EncodeChunkPayload::DecodedSamples(samples) => samples.len() / channels,
            EncodeChunkPayload::PackedPcm { frame_count, .. } => *frame_count,
        }
    }

    /// The number of samples of all channels, if they are decoded.
    pub fn decoded_samples_len(&self) -> (len: Option<usize>)
        ensures
            match self {
                EncodeChunkPayload::DecodedSamples(samples) => len == Some(samples.len()),
                EncodeChunkPayload::PackedPcm { .. } => len is None,
            },
    {
        match self {
            EncodeChunkPayload::DecodedSamples(samples) => Some(samples.len()),
            EncodeChunkPayload::PackedPcm { .. } => None,
        }
    }

    /// A chunk of the same kind without samples.
    pub fn clear_for_reuse(self) -> (cleared: Self)
        ensures
            match (self, cleared) {
                (
                    EncodeChunkPayload::DecodedSamples(_),
                    EncodeChunkPayload::DecodedSamples(samples),
                ) => samples@ == Seq::<i32>::empty(),
                (
                    EncodeChunkPayload::PackedPcm { envelope: before, .. },
                    EncodeChunkPayload::PackedPcm { bytes, frame_count, envelope },
                ) => bytes@ == Seq::<u8>::empty() && frame_count == 0 && envelope == before,
                _ => false,
            },
    {
        match self {
            EncodeChunkPayload::DecodedSamples(samples) => {
                let mut samples = samples;
                samples.clear();
                EncodeChunkPayload::DecodedSamples(samples)
            },
            EncodeChunkPayload::PackedPcm { bytes, envelope, .. } => {
                let mut bytes = bytes;
                bytes.clear();
                EncodeChunkPayload::PackedPcm { bytes, frame_count: 0, envelope }
            },
        }
    }
}

/// `samples` are the next `frames` frames of the samples `before` a read, and `after`
/// is what is left of them.
pub open spec fn handed_out(
    before: Seq<i32>,
    after: Seq<i32>,
    channels: nat,
    frames: nat,
    samples: Seq<i32>,
) -> bool {
    &&& frames * channels <= before.len()
    &&& samples == before.take((frames * channels) as int)
    &&& after == before.skip((frames * channels) as int)
}

/// The number of frames that a read of at most `max_frames` frames hands out where
/// nothing goes wrong.
pub open spec fn frames_due(upcoming: nat, channels: nat, max_frames: nat) -> nat {
    if max_frames * channels <= upcoming {
        max_frames
    } else {
        upcoming / channels
    }
}

/// What becomes of a digest when stored samples are added to it.
pub open spec fn digest_extended(
    before: StreaminfoMd5,
    after: StreaminfoMd5,
    result: Result<()>,
    samples: Seq<i32>,
) -> bool {
    match encoded_samples(samples, before.layout(), ByteOrder::Little) {
        Ok(bytes) => result is Ok && after.digested() == before.digested() + bytes,
        Err(expected) => result matches Err(error) && error@ == expected && after.digested()
            == before.digested(),
    }
}

/// Single-pass PCM sample source consumed by the encode session.
pub trait EncodePcmStream: Sized {
    /// The source keeps its own rules.
    spec fn is_valid(&self) -> bool;

    /// The description of the samples.
    spec fn description(&self) -> PcmSpec;

    /// The samples that are still to come.
    spec fn upcoming(&self) -> Seq<i32>;

    /// No read fails or hands out fewer frames than it could.
    spec fn delivers(&self) -> bool;

    /// The error of the read that failed, if one did.
    spec fn failed(&self) -> Option<ErrorView>;

    /// Where the source ends too early: the error of a read that asks for more than is left.
    /// Every read before that one is served in full.
    spec fn breaks_off(&self) -> Option<ErrorView>;

    /// How many frames the source would have encoded at a time.
    spec fn chunk_wishes(&self) -> (Option<usize>, Option<usize>);

    /// Return the stream specification that drives encode planning.
    fn spec(&self) -> (spec: PcmSpec)
        requires
            self.is_valid(),
        ensures
            spec == self.description(),
    ;

    /// Read up to `max_frames` interleaved PCM frames into `output`.
    ///
    /// Returns the number of frames appended to `output`.
    fn read_chunk(&mut self, max_frames: usize, output: &mut Vec<i32>) -> (read: Result<usize>)
        requires
            old(self).is_valid(),
        ensures
            final(self).is_valid(),
            final(self).description() == old(self).description(),
            final(self).chunk_wishes() == old(self).chunk_wishes(),
            old(self).delivers() ==> read is Ok && final(self).delivers(),
            read is Ok ==> final(self).failed() == old(self).failed(),
            read matches Err(error) ==> final(self).failed() == Some(error@),
            old(self).breaks_off() matches Some(expected) ==> if max_frames
                * old(self).description().channels <= old(self).upcoming().len() {
                &&& read matches Ok(frames) && frames == max_frames
                &&& final(self).breaks_off() == Some(expected)
            } else {
                read matches Err(error) && error@ == expected
            },
            read matches Ok(frames) ==> {
                &&& frames <= max_frames
                &&& old(self).delivers() ==> frames == frames_due(
                    old(self).upcoming().len(),
                    old(self).description().channels as nat,
                    max_frames as nat,
                )
                &&& exists|samples: Seq<i32>|
                    #![trigger old(output)@ + samples]
                    final(output)@ == old(output)@ + samples && handed_out(
                        old(self).upcoming(),
                        final(self).upcoming(),
                        old(self).description().channels as nat,
                        frames as nat,
                        samples,
                    )
            },
    ;

    /// Reads up to `max_frames` frames into a chunk, which takes over the memory of
    /// an earlier one.
    fn read_chunk_payload(&mut self, max_frames: usize, reuse: Option<EncodeChunkPayload>)
        -> (payload: Result<EncodeChunkPayload>)
        requires
            old(self).is_valid(),
            old(self).description().channels > 0,
        ensures
            final(self).is_valid(),
            final(self).description() == old(self).description(),
            final(self).chunk_wishes() == old(self).chunk_wishes(),
            old(self).delivers() ==> payload is Ok && final(self).delivers(),
            payload is Ok ==> final(self).failed() == old(self).failed(),
            payload matches Err(error) ==> final(self).failed() == Some(error@),
            payload matches Ok(chunk) ==> {
                let channels = old(self).description().channels as nat;
                &&& chunk.frames(channels) <= max_frames
                &&& old(self).delivers() ==> chunk.frames(channels) == frames_due(
                    old(self).upcoming().len(),
                    channels,
                    max_frames as nat,
                )
                &&& handed_out(
                    old(self).upcoming(),
                    final(self).upcoming(),
                    channels,
                    chunk.frames(channels),
                    chunk.samples(),
                )
            },
    {
        let mut output: Vec<i32> = match reuse {
            Some(EncodeChunkPayload::DecodedSamples(samples)) => samples,
            _ => Vec::new(),
        };
        output.clear();
        let ghost cleared = output@;
        match self.read_chunk(max_frames, &mut output) {
            Ok(frames) => {
                proof {
                    let channels = old(self).description().channels as nat;
                    let samples = choose|samples: Seq<i32>|
                        #![trigger cleared + samples]
                        output@ == cleared + samples && handed_out(
                            old(self).upcoming(),
                            self.upcoming(),
                            channels,
                            frames as nat,
                            samples,
                        );
                    assert(output@ == samples);
                    vstd::arithmetic::div_mod::lemma_div_by_multiple(
                        frames as int,
                        channels as int,
                    );
                }
                Ok(EncodeChunkPayload::DecodedSamples(output))
            },
            Err(error) => Err(error),
        }
    }

    /// Adds samples to the digest of a stream.
    fn update_streaminfo_md5(&mut self, md5: &mut StreaminfoMd5, samples: &[i32]) -> (result:
        Result<()>)
        requires
            old(self).is_valid(),
            old(md5).is_valid(),
            old(md5).digested().len() + 4 * samples@.len() <= u64::MAX,
        ensures
            *final(self) == *old(self),
            final(md5).is_valid(),
            final(md5).layout() == old(md5).layout(),
            digest_extended(*old(md5), *final(md5), result, samples@),
    {
        md5.update_samples(samples)
    }

    /// Adds the samples of a chunk to the digest of a stream. Stored samples are taken
    /// as they are.
    fn update_streaminfo_md5_for_payload(
        &mut self,
        md5: &mut StreaminfoMd5,
        payload: &EncodeChunkPayload,
    ) -> (result: Result<()>)
        requires
            old(self).is_valid(),
            old(md5).is_valid(),
            match payload {
                EncodeChunkPayload::DecodedSamples(samples) => old(md5).digested().len() + 4
                    * samples@.len() <= u64::MAX,
                EncodeChunkPayload::PackedPcm { bytes, .. } => old(md5).digested().len()
                    + bytes@.len() <= u64::MAX,
            },
        ensures
            *final(self) == *old(self),
            final(md5).is_valid(),
            final(md5).layout() == old(md5).layout(),
            match payload {
                EncodeChunkPayload::DecodedSamples(samples) => digest_extended(
                    *old(md5),
                    *final(md5),
                    result,
                    samples@,
                ),
                EncodeChunkPayload::PackedPcm { bytes, .. } => result is Ok
                    && final(md5).digested() == old(md5).digested() + bytes@,
            },
    {
        match payload {
            EncodeChunkPayload::DecodedSamples(samples) => {
                self.update_streaminfo_md5(md5, samples.as_slice())
            },
            EncodeChunkPayload::PackedPcm { bytes, .. } => {
                md5.update_bytes(bytes.as_slice());
                Ok(())
            },
        }
    }

    /// The digest of a stream once all its samples were added.
    fn finish_streaminfo_md5(&mut self, md5: StreaminfoMd5) -> (digest: Result<Vec<u8>>)
        requires
            old(self).is_valid(),
            md5.is_valid(),
            md5.digested().len() * 8 <= u64::MAX,
        ensures
            *final(self) == *old(self),
            digest matches Ok(bytes) && bytes@ == md5_of(md5.digested()),
    {
        md5.finalize()
    }

    /// How many FLAC frames the source would have encoded at a time.
    fn preferred_encode_chunk_max_frames(&self) -> (wish: Option<usize>)
        requires
            self.is_valid(),
        ensures
            wish == self.chunk_wishes().0,
    ;

    /// How many PCM frames the source would have encoded at a time.
    fn preferred_encode_chunk_target_pcm_frames(&self) -> (wish: Option<usize>)
        requires
            self.is_valid(),
        ensures
            wish == self.chunk_wishes().1,
    ;
}

/// Owned encode-side handoff that keeps metadata and the PCM stream together.
#[derive(Debug, Clone)]
pub struct EncodeSource<S> {
    metadata: Metadata,
    stream: S,
}

impl<S> EncodeSource<S> {
    /// The staged metadata.
    pub closed spec fn staged(&self) -> MetadataView {
        self.metadata@
    }

    /// The stream to encode.
    pub closed spec fn samples(&self) -> S {
        self.stream
    }

    /// Create a new encode source from staged metadata and a PCM stream.
    pub fn new(metadata: Metadata, stream: S) -> (source: Self)
        ensures
            source.staged() == metadata@,
            source.samples() == stream,
    {
        EncodeSource { metadata, stream }
    }

    /// Return the staged encode metadata.
    pub fn metadata(&self) -> (metadata: &Metadata)
        ensures
            metadata@ == self.staged(),
    {
        &self.metadata
    }

    /// Return mutable access to the staged encode metadata.
    pub fn metadata_mut(&mut self) -> (metadata: &mut Metadata)
        ensures
            metadata@ == old(self).staged(),
            final(self).staged() == final(metadata)@,
            final(self).samples() == old(self).samples(),
    {
        &mut self.metadata
    }

    /// Replace the staged metadata and return the updated source.
    pub fn with_metadata(self, metadata: Metadata) -> (source: Self)
        ensures
            source.staged() == metadata@,
            source.samples() == self.samples(),
    {
        EncodeSource { metadata, stream: self.stream }
    }

    /// Consume the source and return the metadata and stream.
    pub fn into_parts(self) -> (parts: (Metadata, S))
        ensures
            parts.0@ == self.staged(),
            parts.1 == self.samples(),
    {
        (self.metadata, self.stream)
    }
}

impl<S: EncodePcmStream> EncodeSource<S> {
    /// Return the PCM spec that will drive encode planning.
    pub fn spec(&self) -> (spec: PcmSpec)
        requires
            self.samples().is_valid(),
        ensures
            spec == self.samples().description(),
    {
        self.stream.spec()
    }
}

/// The bytes that frames take, as far as 64 bits hold them.
pub open spec fn stored_bytes(spec: PcmSpec, frames: nat) -> nat {
    let bytes = frames * (spec.channels as nat) * (spec.bytes_per_sample as nat);
    if bytes > u64::MAX {
        u64::MAX as nat
    } else {
        bytes
    }
}

/// The bytes that frames take, as far as 64 bits hold them.
pub fn pcm_bytes_for_frames(spec: PcmSpec, frames: usize) -> (bytes: u64)
    ensures
        bytes == stored_bytes(spec, frames as nat),
{
    pcm_bytes_for_samples(spec, frames as u64)
}

/// The bytes that samples per channel take, as far as 64 bits hold them.
pub fn pcm_bytes_for_samples(spec: PcmSpec, frames: u64) -> (bytes: u64)
    ensures
        bytes == stored_bytes(spec, frames as nat),
{
    let samples: u64 = match frames.checked_mul(spec.channels as u64) {
        Some(samples) => samples,
        None => u64::MAX,
    };
    let bytes: u64 = match samples.checked_mul(spec.bytes_per_sample as u64) {
        Some(bytes) => bytes,
        None => u64::MAX,
    };
    proof {
        let exact = frames as nat * spec.channels as nat;
        let width = spec.bytes_per_sample as nat;
        if exact > u64::MAX && width > 0 {
            assert(exact * width > u64::MAX) by (nonlinear_arith)
                requires
                    exact > u64::MAX,
                    width > 0,
            ;
            assert(u64::MAX * width >= u64::MAX) by (nonlinear_arith)
                requires
                    width > 0,
            ;
        }
        if width == 0 {
            assert(exact * width == 0) by (nonlinear_arith)
                requires
                    width == 0,
            ;
            assert(samples * width == 0) by (nonlinear_arith)
                requires
                    width == 0,
            ;
        }
    }
    bytes
}

/// A stream that counts the bytes that its samples took.
#[derive(Debug, Clone)]
pub struct CountedEncodePcmStream<S> {
    stream: S,
    input_bytes_processed: u64,
}

impl<S> CountedEncodePcmStream<S> {
    /// The stream whose samples are counted.
    pub closed spec fn inner(&self) -> S {
        self.stream
    }

    /// The bytes counted so far.
    pub closed spec fn counted(&self) -> nat {
        self.input_bytes_processed as nat
    }

    /// Starts to count the bytes of a stream.
    pub fn new(stream: S) -> (counted: Self)
        ensures
            counted.inner() == stream,
            counted.counted() == 0,
    {
        CountedEncodePcmStream { stream, input_bytes_processed: 0 }
    }

    /// The bytes counted so far.
    pub fn input_bytes_processed(&self) -> (bytes: u64)
        ensures
            bytes == self.counted(),
    {
        self.input_bytes_processed
    }
}

/// Starts to count the bytes of a stream.
pub fn counted_encode_pcm_stream<S>(stream: S) -> (counted: CountedEncodePcmStream<S>)
    ensures
        counted.inner() == stream,
        counted.counted() == 0,
{
    CountedEncodePcmStream::new(stream)
}

/// The count after more bytes, as far as 64 bits hold it.
pub open spec fn count_after(before: nat, bytes: nat) -> nat {
    if before + bytes > u64::MAX {
        u64::MAX as nat
    } else {
        before + bytes
    }
}

impl<S: EncodePcmStream> EncodePcmStream for CountedEncodePcmStream<S> {
    closed spec fn is_valid(&self) -> bool {
        self.stream.is_valid()
    }

    closed spec fn description(&self) -> PcmSpec {
        self.stream.description()
    }

    closed spec fn upcoming(&self) -> Seq<i32> {
        self.stream.upcoming()
    }

    closed spec fn delivers(&self) -> bool {
        self.stream.delivers()
    }

    closed spec fn failed(&self) -> Option<ErrorView> {
        self.stream.failed()
    }

    closed spec fn breaks_off(&self) -> Option<ErrorView> {
        self.stream.breaks_off()
    }

    closed spec fn chunk_wishes(&self) -> (Option<usize>, Option<usize>) {
        self.stream.chunk_wishes()
    }

    fn spec(&self) -> (spec: PcmSpec) {
        self.stream.spec()
    }

    fn read_chunk(&mut self, max_frames: usize, output: &mut Vec<i32>) -> (read: Result<usize>)
        ensures
            final(self).counted() == match read {
                Ok(frames) => count_after(
                    old(self).counted(),
                    stored_bytes(old(self).description(), frames as nat),
                ),
                Err(_) => old(self).counted(),
            },
    {
        match self.stream.read_chunk(max_frames, output) {
            Ok(frames) => {
                let bytes: u64 = pcm_bytes_for_frames(self.stream.spec(), frames);
                self.input_bytes_processed = self.input_bytes_processed.saturating_add(bytes);
                Ok(frames)
            },
            Err(error) => Err(error),
        }
    }

    fn read_chunk_payload(&mut self, max_frames: usize, reuse: Option<EncodeChunkPayload>)
        -> (payload: Result<EncodeChunkPayload>)
        ensures
            final(self).counted() == match payload {
                Ok(chunk) => count_after(
                    old(self).counted(),
                    stored_bytes(
                        old(self).description(),
                        chunk.frames(old(self).description().channels as nat),
                    ),
                ),
                Err(_) => old(self).counted(),
            },
    {
        match self.stream.read_chunk_payload(max_frames, reuse) {
            Ok(payload) => {
                let spec = self.stream.spec();
                let frames: usize = payload.pcm_frames(spec.channels as usize);
                let bytes: u64 = pcm_bytes_for_frames(spec, frames);
                self.input_bytes_processed = self.input_bytes_processed.saturating_add(bytes);
                Ok(payload)
            },
            Err(error) => Err(error),
        }
    }

    fn update_streaminfo_md5(&mut self, md5: &mut StreaminfoMd5, samples: &[i32]) -> (result:
        Result<()>) {
        self.stream.update_streaminfo_md5(md5, samples)
    }

    fn update_streaminfo_md5_for_payload(
        &mut self,
        md5: &mut StreaminfoMd5,
        payload: &EncodeChunkPayload,
    ) -> (result: Result<()>) {
        self.stream.update_streaminfo_md5_for_payload(md5, payload)
    }

    fn finish_streaminfo_md5(&mut self, md5: StreaminfoMd5) -> (digest: Result<Vec<u8>>) {
        self.stream.finish_streaminfo_md5(md5)
    }

    fn preferred_encode_chunk_max_frames(&self) -> (wish: Option<usize>) {
        self.stream.preferred_encode_chunk_max_frames()
    }

    fn preferred_encode_chunk_target_pcm_frames(&self) -> (wish: Option<usize>) {
        self.stream.preferred_encode_chunk_target_pcm_frames()
    }
}

impl<S: EncodePcmStream> CountedEncodePcmStream<S> {
    /// A counted stream is the stream whose samples are counted.
    pub proof fn lemma_counted(&self)
        ensures
            self.is_valid() == self.inner().is_valid(),
            self.description() == self.inner().description(),
            self.upcoming() == self.inner().upcoming(),
            self.delivers() == self.inner().delivers(),
            self.breaks_off() == self.inner().breaks_off(),
            self.chunk_wishes() == self.inner().chunk_wishes(),
    {
    }
}

} // verus!
