//! Headerless PCM.

use vstd::prelude::*;

use crate::byte_reader::{end_of_file, ByteReader};
use crate::error::{Error, ErrorView, Result};
use crate::pcm::{is_container, mask_is_supported, is_supported_channel_mask, ByteOrder, PcmEnvelope, PcmSpec};
use crate::sample_source::{bytes_from, frame_size, frames_asked, held_samples, is_storable, lemma_complete_source, lemma_read_hands_out, lemma_short_source, read_failure, shortage, SampleSource};
use crate::stream::{count_after, EncodePcmStream};
use crate::text::{decimal, labelled, numbered};

verus! {

/// Byte order of raw PCM samples.
#[derive(Debug, Clone, Copy, PartialEq, Eq, Structural)]
pub enum RawPcmByteOrder {
    LittleEndian,
    BigEndian,
}

/// Explicit description of raw signed integer PCM.
#[derive(Debug, Clone, Copy, PartialEq, Eq, Structural)]
pub struct RawPcmDescriptor {
    /// Samples per second.
    pub sample_rate: u32,
    /// Number of interleaved channels.
    pub channels: u8,
    /// Valid bits carried by each sample.
    pub valid_bits_per_sample: u8,
    /// Bits that each sample takes.
    pub container_bits_per_sample: u8,
    /// Byte order of each sample.
    pub byte_order: RawPcmByteOrder,
    /// Speaker positions of the channels, where they are known.
    pub channel_mask: Option<u32>,
}

/// The order of the bytes of a sample.
pub open spec fn order_of(byte_order: RawPcmByteOrder) -> ByteOrder {
    match byte_order {
        RawPcmByteOrder::LittleEndian => ByteOrder::Little,
        RawPcmByteOrder::BigEndian => ByteOrder::Big,
    }
}

/// The order of the bytes of a sample.
pub fn byte_order_of(byte_order: RawPcmByteOrder) -> (order: ByteOrder)
    ensures
        order == order_of(byte_order),
{
    match byte_order {
        RawPcmByteOrder::LittleEndian => ByteOrder::Little,
        RawPcmByteOrder::BigEndian => ByteOrder::Big,
    }
}

/// The speaker positions of a descriptor, 0 where they are not known.
pub open spec fn mask_or_zero(mask: Option<u32>) -> u32 {
    match mask {
        Some(mask) => mask,
        None => 0,
    }
}

/// How described samples are stored, or why they are not supported.
pub open spec fn raw_envelope(descriptor: RawPcmDescriptor) -> std::result::Result<
    PcmEnvelope,
    ErrorView,
> {
    let channels = descriptor.channels;
    let valid = descriptor.valid_bits_per_sample;
    let container = descriptor.container_bits_per_sample;
    if descriptor.sample_rate == 0 {
        Err(ErrorView::UnsupportedPcmContainer("sample rate 0 is not allowed"@))
    } else if !(1 <= channels <= 8) {
        Err(
            ErrorView::UnsupportedPcmContainer(
                "raw PCM only supports 1..8 channels, found "@ + decimal(channels as nat)
                    + " channels"@,
            ),
        )
    } else if !(4 <= valid <= 32) {
        Err(
            ErrorView::UnsupportedPcmContainer(
                "valid bits must be in the FLAC-native 4..32 range, found "@ + decimal(
                    valid as nat,
                ),
            ),
        )
    } else if !is_container(container as u16) {
        Err(
            ErrorView::UnsupportedPcmContainer(
                "only byte-aligned PCM containers are supported, found "@ + decimal(
                    container as nat,
                ) + " bits/sample"@,
            ),
        )
    } else if valid > container {
        Err(ErrorView::InvalidPcmContainer("valid bits cannot exceed container bits"@))
    } else if descriptor.channel_mask is Some && !mask_is_supported(
        channels as u16,
        descriptor.channel_mask->Some_0,
    ) {
        Err(
            ErrorView::UnsupportedPcmContainer(
                "channel mask does not match the channel count"@,
            ),
        )
    } else {
        Ok(
            PcmEnvelope {
                channels: channels as u16,
                valid_bits_per_sample: valid as u16,
                container_bits_per_sample: container as u16,
                channel_mask: mask_or_zero(descriptor.channel_mask),
            },
        )
    }
}

/// How described samples are stored, or why they are not supported.
pub fn envelope_from_descriptor(descriptor: RawPcmDescriptor) -> (envelope: Result<PcmEnvelope>)
    ensures
        match raw_envelope(descriptor) {
            Ok(expected) => envelope == Ok::<PcmEnvelope, Error>(expected) && is_storable(expected),
            Err(expected) => envelope matches Err(error) && error@ == expected,
        },
{
    let channels: u8 = descriptor.channels;
    let valid: u8 = descriptor.valid_bits_per_sample;
    let container: u8 = descriptor.container_bits_per_sample;
    if descriptor.sample_rate == 0 {
        return Err(Error::UnsupportedPcmContainer("sample rate 0 is not allowed".to_owned()));
    }
    if !(1 <= channels && channels <= 8) {
        return Err(
            Error::UnsupportedPcmContainer(
                numbered("raw PCM only supports 1..8 channels, found ", channels as u64, " channels"),
            ),
        );
    }
    if !(4 <= valid && valid <= 32) {
        return Err(
            Error::UnsupportedPcmContainer(
                labelled("valid bits must be in the FLAC-native 4..32 range, found ", valid as u64),
            ),
        );
    }
    if !(container == 8 || container == 16 || container == 24 || container == 32) {
        return Err(
            Error::UnsupportedPcmContainer(
                numbered(
                    "only byte-aligned PCM containers are supported, found ",
                    container as u64,
                    " bits/sample",
                ),
            ),
        );
    }
    if valid > container {
        return Err(Error::InvalidPcmContainer("valid bits cannot exceed container bits"));
    }
    let channel_mask: u32 = match descriptor.channel_mask {
        Some(mask) => {
            if !is_supported_channel_mask(channels as u16, mask) {
                return Err(
                    Error::UnsupportedPcmContainer(
                        "channel mask does not match the channel count".to_owned(),
                    ),
                );
            }
            mask
        },
        None => 0,
    };
    Ok(
        PcmEnvelope {
            channels: channels as u16,
            valid_bits_per_sample: valid as u16,
            container_bits_per_sample: container as u16,
            channel_mask,
        },
    )
}

/// The frames that a number of bytes hold, or why they hold none.
pub open spec fn frames_in_bytes(byte_len: u64, descriptor: RawPcmDescriptor)
    -> std::result::Result<u64, ErrorView> {
    match raw_envelope(descriptor) {
        Err(error) => Err(error),
        Ok(envelope) => if byte_len as nat % frame_size(envelope) != 0 {
            Err(
                ErrorView::InvalidPcmContainer(
                    "PCM payload is not aligned to the sample frame size"@,
                ),
            )
        } else {
            Ok((byte_len as nat / frame_size(envelope)) as u64)
        },
    }
}

/// The frames that a number of bytes hold, or why they hold none.
pub fn total_samples_from_byte_len_with_descriptor(byte_len: u64, descriptor: RawPcmDescriptor)
    -> (frames: Result<u64>)
    ensures
        match frames_in_bytes(byte_len, descriptor) {
            Ok(expected) => frames == Ok::<u64, Error>(expected),
            Err(expected) => frames matches Err(error) && error@ == expected,
        },
{
    let envelope = match envelope_from_descriptor(descriptor) {
        Ok(envelope) => envelope,
        Err(error) => return Err(error),
    };
    let channels: u64 = envelope.channels as u64;
    let width: u64 = (envelope.container_bits_per_sample / 8) as u64;
    assert(1 <= channels * width <= 32) by (nonlinear_arith)
        requires
            1 <= channels <= 8,
            1 <= width <= 4,
    ;
    let frame_bytes: u64 = channels * width;
    if byte_len % frame_bytes != 0 {
        return Err(
            Error::InvalidPcmContainer("PCM payload is not aligned to the sample frame size"),
        );
    }
    Ok(byte_len / frame_bytes)
}

/// The description of a stream of stored samples.
pub open spec fn stream_spec(sample_rate: u32, total_samples: u64, envelope: PcmEnvelope) -> PcmSpec {
    PcmSpec {
        sample_rate,
        channels: envelope.channels as u8,
        bits_per_sample: envelope.valid_bits_per_sample as u8,
        total_samples,
        bytes_per_sample: (envelope.container_bits_per_sample / 8) as u16,
        channel_mask: envelope.channel_mask,
    }
}

/// The description of a stream of stored samples.
pub fn spec_from_envelope(sample_rate: u32, total_samples: u64, envelope: PcmEnvelope) -> (spec:
    PcmSpec)
    ensures
        spec == stream_spec(sample_rate, total_samples, envelope),
{
    PcmSpec {
        sample_rate,
        channels: envelope.channels as u8,
        bits_per_sample: envelope.valid_bits_per_sample as u8,
        total_samples,
        bytes_per_sample: envelope.container_bits_per_sample / 8,
        channel_mask: envelope.channel_mask,
    }
}

/// How a read of stored samples failed.
#[derive(Debug, Clone, Copy, PartialEq, Eq)]
pub enum ReadFailure {
    /// The bytes of the frames cannot be counted.
    TooLong,
    /// The bytes ended too early.
    Ended,
}

/// Single-pass stream of raw PCM.
#[derive(Debug, Clone)]
pub struct RawPcmStream {
    source: SampleSource,
    spec: PcmSpec,
    overflow: &'static str,
    input_bytes_processed: u64,
    failure: Option<ReadFailure>,
}

impl RawPcmStream {
    /// The stored samples and their number.
    pub closed spec fn stored(&self) -> SampleSource {
        self.source
    }

    /// What tells of frames whose bytes cannot be counted.
    pub closed spec fn overflow_text(&self) -> Seq<char> {
        self.overflow@
    }

    /// The bytes read so far, as far as 64 bits count them.
    pub closed spec fn processed(&self) -> nat {
        self.input_bytes_processed as nat
    }

    /// The bytes read so far, as far as 64 bits count them.
    pub fn input_bytes_processed(&self) -> (bytes: u64)
        ensures
            bytes == self.processed(),
    {
        self.input_bytes_processed
    }

    /// A stream of samples at a reader's position.
    pub fn from_parts(
        reader: ByteReader,
        spec: PcmSpec,
        envelope: PcmEnvelope,
        order: ByteOrder,
        overflow: &'static str,
    ) -> (stream: Self)
        requires
            is_storable(envelope),
            spec.channels == envelope.channels,
        ensures
            stream.is_valid(),
            stream.description() == spec,
            stream.overflow_text() == overflow@,
            stream.processed() == 0,
            stream.stored().bytes() == bytes_from(reader.contents(), reader.at()),
            stream.stored().left() == spec.total_samples,
            stream.stored().layout() == envelope,
            stream.stored().byte_order() == order,
    {
        RawPcmStream {
            source: SampleSource::new(reader, envelope, order, spec.total_samples),
            spec,
            overflow,
            input_bytes_processed: 0,
            failure: None,
        }
    }

    /// A stream of described samples at a reader's position.
    pub fn new(reader: ByteReader, descriptor: RawPcmDescriptor, total_samples: u64) -> (stream:
        Result<Self>)
        ensures
            match raw_envelope(descriptor) {
                Ok(envelope) => stream matches Ok(raw) && {
                    &&& raw.is_valid()
                    &&& raw.description() == stream_spec(
                        descriptor.sample_rate,
                        total_samples,
                        envelope,
                    )
                    &&& raw.stored().bytes() == bytes_from(reader.contents(), reader.at())
                    &&& raw.stored().left() == total_samples
                    &&& raw.stored().layout() == envelope
                    &&& raw.stored().byte_order() == order_of(descriptor.byte_order)
                    &&& raw.overflow_text() == "raw PCM chunk size overflows"@
                    &&& raw.processed() == 0
                },
                Err(expected) => stream matches Err(error) && error@ == expected,
            },
    {
        match envelope_from_descriptor(descriptor) {
            Ok(envelope) => {
                let spec = spec_from_envelope(descriptor.sample_rate, total_samples, envelope);
                Ok(
                    RawPcmStream::from_parts(
                        reader,
                        spec,
                        envelope,
                        byte_order_of(descriptor.byte_order),
                        "raw PCM chunk size overflows",
                    ),
                )
            },
            Err(error) => Err(error),
        }
    }
}

impl EncodePcmStream for RawPcmStream {
    closed spec fn is_valid(&self) -> bool {
        is_storable(self.source.layout()) && self.spec.channels == self.source.layout().channels
    }

    closed spec fn description(&self) -> PcmSpec {
        self.spec
    }

    closed spec fn upcoming(&self) -> Seq<i32> {
        self.source.upcoming()
    }

    closed spec fn delivers(&self) -> bool {
        self.source.is_complete()
    }

    closed spec fn failed(&self) -> Option<ErrorView> {
        match self.failure {
            None => None,
            Some(ReadFailure::TooLong) => Some(
                ErrorView::UnsupportedPcmContainer(self.overflow@),
            ),
            Some(ReadFailure::Ended) => Some(end_of_file()),
        }
    }

    closed spec fn breaks_off(&self) -> Option<ErrorView> {
        shortage(self.source.bytes().len(), self.source.left(), self.source.layout())
    }

    closed spec fn chunk_wishes(&self) -> (Option<usize>, Option<usize>) {
        (None, None)
    }

    fn spec(&self) -> (spec: PcmSpec) {
        self.spec
    }

    fn read_chunk(&mut self, max_frames: usize, output: &mut Vec<i32>) -> (read: Result<usize>)
        ensures
            final(self).overflow_text() == old(self).overflow_text(),
            final(self).stored().layout() == old(self).stored().layout(),
            final(self).stored().byte_order() == old(self).stored().byte_order(),
            ({
                let frames = frames_asked(old(self).stored().left(), max_frames as nat);
                match read_failure(
                    old(self).stored().bytes(),
                    frames,
                    old(self).stored().layout(),
                    old(self).overflow_text(),
                ) {
                    Some(expected) => {
                        &&& read matches Err(error) && error@ == expected
                        &&& final(self).processed() == old(self).processed()
                        &&& final(self).stored().bytes() == old(self).stored().bytes()
                        &&& final(self).stored().left() == old(self).stored().left()
                    },
                    None => {
                        let size = frames * frame_size(old(self).stored().layout());
                        &&& read matches Ok(count) && count == frames
                        &&& final(self).processed() == count_after(old(self).processed(), size)
                        &&& final(self).stored().bytes() == old(self).stored().bytes().skip(
                            size as int,
                        )
                        &&& final(self).stored().left() == old(self).stored().left() - frames
                    },
                }
            }),
    {
        let ghost source = self.source;
        let ghost frames = frames_asked(source.left(), max_frames as nat);
        let ghost before = output@;
        let read = self.source.read_frames(max_frames, self.overflow, output);
        proof {
            let envelope = source.layout();
            let order = source.byte_order();
            if source.is_complete() {
                lemma_complete_source(
                    source.bytes(),
                    source.left(),
                    envelope,
                    order,
                    max_frames as nat,
                );
            }
            if old(self).breaks_off() is Some {
                lemma_short_source(
                    source.bytes(),
                    source.left(),
                    envelope,
                    order,
                    max_frames as nat,
                    self.overflow@,
                );
            }
            if read is Ok {
                lemma_read_hands_out(source.bytes(), source.left(), envelope, order, frames);
            }
        }
        match read {
            Ok(count) => {
                let bytes: u64 = count as u64 * self.source.frame_bytes() as u64;
                self.input_bytes_processed = self.input_bytes_processed.saturating_add(bytes);
                Ok(count)
            },
            Err(error) => {
                self.failure = match &error {
                    Error::UnsupportedPcmContainer(_) => Some(ReadFailure::TooLong),
                    _ => Some(ReadFailure::Ended),
                };
                Err(error)
            },
        }
    }

    fn preferred_encode_chunk_max_frames(&self) -> (wish: Option<usize>) {
        None
    }

    fn preferred_encode_chunk_target_pcm_frames(&self) -> (wish: Option<usize>) {
        None
    }
}

/// The samples of a stream are those that its bytes hold.
pub proof fn lemma_raw_stream(stream: RawPcmStream)
    ensures
        stream.upcoming() == held_samples(
            stream.stored().bytes(),
            stream.stored().left(),
            stream.stored().layout(),
            stream.stored().byte_order(),
        ),
        stream.delivers() == stream.stored().is_complete(),
        stream.breaks_off() == shortage(
            stream.stored().bytes().len(),
            stream.stored().left(),
            stream.stored().layout(),
        ),
        stream.chunk_wishes() == (None::<usize>, None::<usize>),
{
}

} // verus!
