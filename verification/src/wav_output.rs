//! Writing RIFF/WAVE, RF64 and Wave64 files.

use vstd::prelude::*;

use crate::aiff_output::{optional_chunk, payload_view, push_optional};
use crate::bytes::{append_bytes, le_bytes, push_le_bytes};
use crate::error::{Error, ErrorView, Result};
use crate::fxmd::fxmd_payload;
use crate::md5::{digest_envelope, streaminfo_digest, streaminfo_md5};
use crate::metadata::{cue_payload, list_info_payload, Metadata, MetadataView, DATA_ID};
use crate::pcm::{append_ordered_samples, container_bits, container_bits_from_valid_bits, encoded_samples, is_supported_channel_mask, mask_is_supported, ordinary_channel_mask, ordinary_mask, stored_front, ByteOrder, PcmEnvelope, PcmSpec};
use crate::riff_chunks::{chunk_views, Chunk, ChunkView};
use crate::sample_source::{frame_size, is_storable};
use crate::wav::{chunk_header_size, chunk_padding, preamble_size, unsupported_wav, WaveKind, CUE_ID, DS64_ID, EXTENSIBLE_FORMAT_TAG, FMT_ID, FXMD_ID, LIST_ID, LONG_SIZE, PCM_FORMAT_TAG, PCM_GUID, RF64_ID, RIFF_ID, WAVE64_CHUNK_TAIL, WAVE64_RIFF_GUID, WAVE64_WAVE_GUID, WAVE_ID};

verus! {

/// The most frames that a file is written for.
pub const MAX_WAVE_FRAMES: u64 = 0xff_ffff_ffff_ffff;

/// How the samples of an output are stored, or why it is not supported.
pub open spec fn wave_envelope(spec: PcmSpec) -> std::result::Result<PcmEnvelope, ErrorView> {
    if !(1 <= spec.channels <= 8) {
        unsupported_wav("unsupported wav: only 1..8 channels can be written"@)
    } else if spec.channel_mask != 0 && !mask_is_supported(
        spec.channels as u16,
        spec.channel_mask,
    ) {
        unsupported_wav("unsupported wav: channel mask does not match the channel count"@)
    } else if !(4 <= spec.bits_per_sample <= 32) {
        unsupported_wav("unsupported wav: only 4..32 valid bits/sample can be written"@)
    } else if spec.bytes_per_sample * 8 != container_bits(spec.bits_per_sample as u16) {
        unsupported_wav("unsupported wav: bytes/sample does not match the container width"@)
    } else if spec.total_samples > MAX_WAVE_FRAMES {
        unsupported_wav("unsupported wav: output size exceeds supported range"@)
    } else {
        Ok(
            PcmEnvelope {
                channels: spec.channels as u16,
                valid_bits_per_sample: spec.bits_per_sample as u16,
                container_bits_per_sample: container_bits(spec.bits_per_sample as u16),
                channel_mask: spec.channel_mask,
            },
        )
    }
}

fn unsupported(message: &'static str) -> (error: Error)
    ensures
        error@ == ErrorView::UnsupportedPcmContainer(message@),
{
    Error::UnsupportedPcmContainer(message.to_owned())
}

/// How the samples of an output are stored.
pub fn validate_wave_spec(spec: PcmSpec) -> (envelope: Result<PcmEnvelope>)
    ensures
        match wave_envelope(spec) {
            Ok(expected) => envelope == Ok::<PcmEnvelope, Error>(expected) && is_storable(expected),
            Err(expected) => envelope matches Err(error) && error@ == expected,
        },
{
    if spec.channels < 1 || spec.channels > 8 {
        return Err(unsupported("unsupported wav: only 1..8 channels can be written"));
    }
    if spec.channel_mask != 0 && !is_supported_channel_mask(
        spec.channels as u16,
        spec.channel_mask,
    ) {
        return Err(
            unsupported("unsupported wav: channel mask does not match the channel count"),
        );
    }
    if spec.bits_per_sample < 4 || spec.bits_per_sample > 32 {
        return Err(unsupported("unsupported wav: only 4..32 valid bits/sample can be written"));
    }
    let container_bits_per_sample: u16 = container_bits_from_valid_bits(
        spec.bits_per_sample as u16,
    );
    if spec.bytes_per_sample as u32 * 8 != container_bits_per_sample as u32 {
        return Err(
            unsupported("unsupported wav: bytes/sample does not match the container width"),
        );
    }
    if spec.total_samples > MAX_WAVE_FRAMES {
        return Err(unsupported("unsupported wav: output size exceeds supported range"));
    }
    Ok(
        PcmEnvelope {
            channels: spec.channels as u16,
            valid_bits_per_sample: spec.bits_per_sample as u16,
            container_bits_per_sample,
            channel_mask: spec.channel_mask,
        },
    )
}

/// A plain description says all of the samples: mono or stereo by convention, in samples
/// that fill their bytes.
pub open spec fn is_plain(envelope: PcmEnvelope) -> bool {
    &&& envelope.channels <= 2
    &&& ordinary_mask(envelope.channels) == Some(envelope.channel_mask)
    &&& envelope.valid_bits_per_sample == envelope.container_bits_per_sample
}

/// The payload of a `fmt ` chunk.
pub open spec fn format_payload(sample_rate: u32, envelope: PcmEnvelope) -> Seq<u8> {
    let frame = frame_size(envelope);
    let numbers = le_bytes(envelope.channels as nat, 2) + le_bytes(sample_rate as nat, 4)
        + le_bytes(((sample_rate * frame) % 0x1_0000_0000) as nat, 4) + le_bytes(frame, 2)
        + le_bytes(envelope.container_bits_per_sample as nat, 2);
    if is_plain(envelope) {
        le_bytes(PCM_FORMAT_TAG as nat, 2) + numbers
    } else {
        le_bytes(EXTENSIBLE_FORMAT_TAG as nat, 2) + numbers + le_bytes(22, 2) + le_bytes(
            envelope.valid_bits_per_sample as nat,
            2,
        ) + le_bytes(envelope.channel_mask as nat, 4) + PCM_GUID@
    }
}

/// The payload of a `fmt ` chunk.
fn format_chunk_payload(sample_rate: u32, envelope: PcmEnvelope) -> (payload: Vec<u8>)
    requires
        is_storable(envelope),
        envelope.channels <= 8,
    ensures
        payload@ == format_payload(sample_rate, envelope),
{
    let channels: u64 = envelope.channels as u64;
    let width: u64 = (envelope.container_bits_per_sample / 8) as u64;
    assert(1 <= channels * width <= 32) by (nonlinear_arith)
        requires
            1 <= channels <= 8,
            1 <= width <= 4,
    ;
    let frame: u64 = channels * width;
    assert(sample_rate * frame <= 0xffff_ffff * 32) by (nonlinear_arith)
        requires
            sample_rate <= 0xffff_ffff,
            frame <= 32,
    ;
    let ordinary = match ordinary_channel_mask(envelope.channels) {
        Some(mask) => mask == envelope.channel_mask,
        None => false,
    };
    let plain = envelope.channels <= 2 && ordinary && envelope.valid_bits_per_sample
        == envelope.container_bits_per_sample;
    let mut payload: Vec<u8> = Vec::new();
    let tag: u16 = if plain {
        PCM_FORMAT_TAG
    } else {
        EXTENSIBLE_FORMAT_TAG
    };
    push_le_bytes(&mut payload, tag as u64, 2);
    push_le_bytes(&mut payload, channels, 2);
    push_le_bytes(&mut payload, sample_rate as u64, 4);
    push_le_bytes(&mut payload, (sample_rate as u64 * frame) % 0x1_0000_0000, 4);
    push_le_bytes(&mut payload, frame, 2);
    push_le_bytes(&mut payload, envelope.container_bits_per_sample as u64, 2);
    if !plain {
        push_le_bytes(&mut payload, 22, 2);
        push_le_bytes(&mut payload, envelope.valid_bits_per_sample as u64, 2);
        push_le_bytes(&mut payload, envelope.channel_mask as u64, 4);
        append_bytes(&mut payload, PCM_GUID.as_slice());
    }
    assert(payload@ == format_payload(sample_rate, envelope));
    payload
}

/// Zeros that fill up a payload.
pub open spec fn zeros(count: nat) -> Seq<u8> {
    Seq::new(count, |i: int| 0u8)
}

/// What stands in front of a payload.
pub open spec fn wave_chunk_header(kind: WaveKind, id: Seq<u8>, size: nat) -> Seq<u8> {
    if kind == WaveKind::Wave64 {
        id + WAVE64_CHUNK_TAIL@ + le_bytes(size + 24, 8)
    } else {
        id + le_bytes(size, 4)
    }
}

/// A chunk with its header and padding.
pub open spec fn wave_chunk(kind: WaveKind, chunk: ChunkView) -> Seq<u8> {
    wave_chunk_header(kind, chunk.id, chunk.payload.len()) + chunk.payload + zeros(
        chunk_padding(kind, chunk.payload.len()),
    )
}

/// Chunks with their headers and padding, one after the other.
pub open spec fn wave_chunks(kind: WaveKind, chunks: Seq<ChunkView>) -> Seq<u8>
    decreases chunks.len(),
{
    if chunks.len() == 0 {
        Seq::empty()
    } else {
        wave_chunks(kind, chunks.drop_last()) + wave_chunk(kind, chunks.last())
    }
}

/// The chunks that describe the samples and carry metadata.
pub open spec fn wave_body(sample_rate: u32, envelope: PcmEnvelope, metadata: MetadataView) -> Seq<
    ChunkView,
> {
    seq![ChunkView { id: FMT_ID@, payload: format_payload(sample_rate, envelope) }]
        + optional_chunk(LIST_ID@, list_info_payload(metadata)) + optional_chunk(
        CUE_ID@,
        cue_payload(metadata.cue_points),
    ) + optional_chunk(FXMD_ID@, fxmd_payload(metadata.preserved))
}

/// The bytes of a file in front of its samples and behind its preamble, and those of the
/// samples with their header and padding.
pub open spec fn wave_size(kind: WaveKind, body: nat, data: nat) -> nat {
    preamble_size(kind) + (if kind == WaveKind::Rf64 {
        36nat
    } else {
        0nat
    }) + body + chunk_header_size(kind) + data + chunk_padding(kind, data)
}

/// What a file starts with.
pub open spec fn wave_preamble(kind: WaveKind, size: nat, data: nat, frames: nat) -> Seq<u8> {
    match kind {
        WaveKind::Riff => RIFF_ID@ + le_bytes((size - 8) as nat, 4) + WAVE_ID@,
        WaveKind::Rf64 => RF64_ID@ + le_bytes(LONG_SIZE as nat, 4) + WAVE_ID@ + wave_chunk_header(
            kind,
            DS64_ID@,
            28,
        ) + le_bytes((size - 8) as nat, 8) + le_bytes(data, 8) + le_bytes(frames, 8) + le_bytes(
            0,
            4,
        ),
        WaveKind::Wave64 => WAVE64_RIFF_GUID@ + le_bytes(size, 8) + WAVE64_WAVE_GUID@,
    }
}

/// The header of the samples.
pub open spec fn data_header(kind: WaveKind, data: nat) -> Seq<u8> {
    wave_chunk_header(
        kind,
        DATA_ID@,
        if kind == WaveKind::Rf64 {
            LONG_SIZE as nat
        } else {
            data
        },
    )
}

/// Every payload has a length that its header can tell.
pub open spec fn payloads_fit(chunks: Seq<ChunkView>) -> bool {
    forall|i: int| 0 <= i < chunks.len() ==> (#[trigger] chunks[i]).payload.len() < LONG_SIZE
}

/// What stands in front of `data` bytes of samples, or why there is no file that holds them.
#[verifier::opaque]
pub open spec fn wave_head(
    kind: WaveKind,
    spec: PcmSpec,
    envelope: PcmEnvelope,
    metadata: MetadataView,
    data: nat,
) -> std::result::Result<Seq<u8>, ErrorView> {
    let chunks = wave_body(spec.sample_rate, envelope, metadata);
    let body = wave_chunks(kind, chunks);
    let size = wave_size(kind, body.len(), data);
    if !payloads_fit(chunks) {
        unsupported_wav("unsupported wav: metadata chunk exceeds 4 GiB"@)
    } else if kind == WaveKind::Riff && size - 8 > u32::MAX {
        unsupported_wav("unsupported wav: output exceeds 4 GiB"@)
    } else {
        Ok(
            wave_preamble(kind, size, data, spec.total_samples as nat) + body + data_header(
                kind,
                data,
            ),
        )
    }
}

fn push_chunk_header(output: &mut Vec<u8>, kind: WaveKind, id: &[u8; 4], size: u64)
    requires
        size <= 0x7fff_ffff_ffff_ffff,
    ensures
        final(output)@ == old(output)@ + wave_chunk_header(kind, id@, size as nat),
{
    append_bytes(output, id.as_slice());
    if kind == WaveKind::Wave64 {
        append_bytes(output, WAVE64_CHUNK_TAIL.as_slice());
        push_le_bytes(output, size + 24, 8);
    } else {
        push_le_bytes(output, size, 4);
    }
    assert(output@ == old(output)@ + wave_chunk_header(kind, id@, size as nat));
}

fn push_zeros(output: &mut Vec<u8>, count: u64)
    requires
        count <= 8,
    ensures
        final(output)@ == old(output)@ + zeros(count as nat),
{
    let ghost before = output@;
    let mut done: u64 = 0;
    while done < count
        invariant
            done <= count,
            output@ == before + zeros(done as nat),
        decreases count - done,
    {
        output.push(0);
        done = done + 1;
        assert(output@ == before + zeros(done as nat));
    }
    assert(output@ == before + zeros(count as nat));
}

fn padding_of(kind: WaveKind, size: u64) -> (padding: u64)
    ensures
        padding == chunk_padding(kind, size as nat),
        padding < 8,
{
    if kind == WaveKind::Wave64 {
        (8 - size % 8) % 8
    } else {
        size % 2
    }
}

/// The chunks that describe the samples and carry metadata.
fn body_chunks(sample_rate: u32, envelope: PcmEnvelope, metadata: &Metadata) -> (chunks: Vec<Chunk>)
    requires
        is_storable(envelope),
        envelope.channels <= 8,
    ensures
        chunk_views(chunks@) == wave_body(sample_rate, envelope, metadata@),
{
    let mut chunks: Vec<Chunk> = Vec::new();
    chunks.push(Chunk { id: FMT_ID, payload: format_chunk_payload(sample_rate, envelope) });
    assert(chunk_views(chunks@) == seq![
        ChunkView { id: FMT_ID@, payload: format_payload(sample_rate, envelope) },
    ]);
    let list = metadata.list_info_chunk_payload();
    assert(payload_view(list) == list_info_payload(metadata@));
    push_optional(&mut chunks, LIST_ID, list);
    let cues = metadata.cue_chunk_payload();
    assert(payload_view(cues) == cue_payload(metadata@.cue_points));
    push_optional(&mut chunks, CUE_ID, cues);
    let kept = metadata.unified_chunk_payload();
    assert(payload_view(kept) == fxmd_payload(metadata@.preserved));
    push_optional(&mut chunks, FXMD_ID, kept);
    chunks
}

/// The bytes of chunks.
fn chunk_bytes(kind: WaveKind, chunks: &Vec<Chunk>) -> (bytes: Option<Vec<u8>>)
    ensures
        match bytes {
            Some(found) => payloads_fit(chunk_views(chunks@)) && found@ == wave_chunks(
                kind,
                chunk_views(chunks@),
            ),
            None => !payloads_fit(chunk_views(chunks@)),
        },
{
    let ghost views = chunk_views(chunks@);
    let mut bytes: Vec<u8> = Vec::new();
    let mut index: usize = 0;
    assert(views.take(0) == Seq::<ChunkView>::empty());
    while index < chunks.len()
        invariant
            index <= chunks@.len(),
            views == chunk_views(chunks@),
            forall|i: int| 0 <= i < index ==> (#[trigger] views[i]).payload.len() < LONG_SIZE,
            bytes@ == wave_chunks(kind, views.take(index as int)),
        decreases chunks.len() - index,
    {
        let chunk = &chunks[index];
        assert(views[index as int] == chunk@);
        let size: u64 = chunk.payload.len() as u64;
        if size >= LONG_SIZE as u64 {
            return None;
        }
        let ghost before = bytes@;
        push_chunk_header(&mut bytes, kind, &chunk.id, size);
        append_bytes(&mut bytes, chunk.payload.as_slice());
        push_zeros(&mut bytes, padding_of(kind, size));
        proof {
            assert(views.take(index + 1).drop_last() == views.take(index as int));
            assert(bytes@ == before + wave_chunk(kind, chunk@));
        }
        index = index + 1;
    }
    assert(views.take(index as int) == views);
    Some(bytes)
}

/// What stands in front of the samples.
fn head_bytes(
    kind: WaveKind,
    spec: PcmSpec,
    envelope: PcmEnvelope,
    metadata: &Metadata,
    data: u64,
) -> (head: Result<Vec<u8>>)
    requires
        is_storable(envelope),
        envelope.channels <= 8,
        data <= 0x1fff_ffff_ffff_ffff,
    ensures
        match wave_head(kind, spec, envelope, metadata@, data as nat) {
            Ok(expected) => head matches Ok(bytes) && bytes@ == expected,
            Err(expected) => head matches Err(error) && error@ == expected,
        },
{
    reveal(wave_head);
    let chunks = body_chunks(spec.sample_rate, envelope, metadata);
    let body = match chunk_bytes(kind, &chunks) {
        Some(body) => body,
        None => return Err(unsupported("unsupported wav: metadata chunk exceeds 4 GiB")),
    };
    let padding: u64 = padding_of(kind, data);
    let ghost size = wave_size(kind, body@.len(), data as nat);
    let mut head: Vec<u8> = Vec::new();
    let rest: u128 = body.len() as u128 + data as u128 + padding as u128;
    match kind {
        WaveKind::Riff => {
            assert(size == rest + 20);
            if rest + 12 > 0xffff_ffff {
                return Err(unsupported("unsupported wav: output exceeds 4 GiB"));
            }
            append_bytes(&mut head, RIFF_ID.as_slice());
            push_le_bytes(&mut head, (rest + 12) as u64, 4);
            append_bytes(&mut head, WAVE_ID.as_slice());
        },
        WaveKind::Rf64 => {
            assert(size == rest + 56);
            append_bytes(&mut head, RF64_ID.as_slice());
            push_le_bytes(&mut head, LONG_SIZE as u64, 4);
            append_bytes(&mut head, WAVE_ID.as_slice());
            push_chunk_header(&mut head, kind, &DS64_ID, 28);
            push_size(&mut head, rest + 48);
            push_le_bytes(&mut head, data, 8);
            push_le_bytes(&mut head, spec.total_samples, 8);
            push_le_bytes(&mut head, 0, 4);
        },
        WaveKind::Wave64 => {
            assert(size == rest + 64);
            append_bytes(&mut head, WAVE64_RIFF_GUID.as_slice());
            push_size(&mut head, rest + 64);
            append_bytes(&mut head, WAVE64_WAVE_GUID.as_slice());
        },
    }
    assert(head@ == wave_preamble(kind, size, data as nat, spec.total_samples as nat));
    append_bytes(&mut head, body.as_slice());
    let told: u64 = if kind == WaveKind::Rf64 {
        LONG_SIZE as u64
    } else {
        data
    };
    push_chunk_header(&mut head, kind, &DATA_ID, told);
    Ok(head)
}

/// Appends the lowest eight bytes of a size.
fn push_size(output: &mut Vec<u8>, size: u128)
    requires
        size < 0x2_0000_0000_0000_0000,
    ensures
        final(output)@ == old(output)@ + le_bytes(size as nat, 8),
{
    let low: u64 = (size % 256) as u64;
    let rest: u64 = (size / 256) as u64;
    output.push(low as u8);
    push_le_bytes(output, rest, 7);
    assert(output@ == old(output)@ + le_bytes(size as nat, 8));
}

/// How the given samples of an output are stored, or why they cannot be.
pub open spec fn wave_shape(spec: PcmSpec, samples: nat) -> std::result::Result<
    PcmEnvelope,
    ErrorView,
> {
    match wave_envelope(spec) {
        Err(error) => Err(error),
        Ok(envelope) => if samples % (spec.channels as nat) != 0 {
            Err(ErrorView::Decode("decoded samples are not aligned to the channel count"@))
        } else if samples / (spec.channels as nat) != spec.total_samples {
            Err(
                ErrorView::Decode(
                    "decoded samples do not match the declared total sample count"@,
                ),
            )
        } else {
            Ok(envelope)
        },
    }
}

/// The file with the given samples, or why there is none.
pub open spec fn wav_file(
    kind: WaveKind,
    spec: PcmSpec,
    samples: Seq<i32>,
    metadata: MetadataView,
) -> std::result::Result<Seq<u8>, ErrorView> {
    match wave_shape(spec, samples.len()) {
        Err(error) => Err(error),
        Ok(envelope) => match encoded_samples(samples, digest_envelope(spec), ByteOrder::Little) {
            Err(error) => Err(error),
            Ok(_) => {
                let size = samples.len() * (envelope.container_bits_per_sample / 8) as nat;
                match wave_head(kind, spec, envelope, metadata, size) {
                    Err(error) => Err(error),
                    Ok(head) => match encoded_samples(samples, envelope, ByteOrder::Wave) {
                        Err(error) => Err(error),
                        Ok(data) => Ok(head + data + zeros(chunk_padding(kind, size))),
                    },
                }
            },
        },
    }
}

/// Appends the file with the given samples, and returns the digest of the samples.
pub fn write_wav_with_metadata_and_md5(
    output: &mut Vec<u8>,
    kind: WaveKind,
    spec: PcmSpec,
    samples: &[i32],
    metadata: &Metadata,
) -> (digest: Result<Vec<u8>>)
    requires
        samples@.len() * 32 <= u64::MAX,
    ensures
        match wav_file(kind, spec, samples@, metadata@) {
            Ok(file) => {
                &&& final(output)@ == old(output)@ + file
                &&& digest matches Ok(bytes) && streaminfo_digest(spec, samples@) == Ok::<
                    Seq<u8>,
                    ErrorView,
                >(bytes@)
            },
            Err(expected) => {
                &&& final(output)@ == old(output)@
                &&& digest matches Err(error) && error@ == expected
            },
        },
{
    let envelope = match validate_wave_spec(spec) {
        Ok(envelope) => envelope,
        Err(error) => return Err(error),
    };
    if samples.len() % spec.channels as usize != 0 {
        return Err(
            Error::Decode("decoded samples are not aligned to the channel count".to_owned()),
        );
    }
    if (samples.len() / spec.channels as usize) as u64 != spec.total_samples {
        return Err(
            Error::Decode(
                "decoded samples do not match the declared total sample count".to_owned(),
            ),
        );
    }
    let digest = match streaminfo_md5(spec, samples) {
        Ok(digest) => digest,
        Err(error) => return Err(error),
    };
    let width: u64 = (envelope.container_bits_per_sample / 8) as u64;
    assert(samples@.len() * width <= 0x1fff_ffff_ffff_ffff) by (nonlinear_arith)
        requires
            samples@.len() * 32 <= 0xffff_ffff_ffff_ffff,
            1 <= width <= 4,
            samples@.len() >= 0,
    ;
    let size: u64 = samples.len() as u64 * width;
    let mut file = match head_bytes(kind, spec, envelope, metadata, size) {
        Ok(head) => head,
        Err(error) => return Err(error),
    };
    match append_ordered_samples(&mut file, samples, envelope, ByteOrder::Wave) {
        Ok(()) => {},
        Err(error) => return Err(error),
    }
    push_zeros(&mut file, padding_of(kind, size));
    append_bytes(output, file.as_slice());
    Ok(digest)
}

/// What a file whose samples come piece by piece starts with, or why there is none.
pub open spec fn streamed_wave_head(kind: WaveKind, spec: PcmSpec, metadata: MetadataView)
    -> std::result::Result<Seq<u8>, ErrorView> {
    match wave_envelope(spec) {
        Err(error) => Err(error),
        Ok(envelope) => wave_head(
            kind,
            spec,
            envelope,
            metadata,
            (spec.total_samples * frame_size(envelope)) as nat,
        ),
    }
}

/// Writes a file whose samples come piece by piece.
#[derive(Debug, Clone)]
pub struct WavStreamWriter {
    writer: Vec<u8>,
    envelope: PcmEnvelope,
    padding: u64,
}

impl WavStreamWriter {
    /// The bytes written so far.
    pub closed spec fn written(&self) -> Seq<u8> {
        self.writer@
    }

    /// How the samples are stored.
    pub closed spec fn layout(&self) -> PcmEnvelope {
        self.envelope
    }

    /// The number of bytes that are to follow the samples.
    pub closed spec fn pads(&self) -> nat {
        self.padding as nat
    }

    /// Starts a file behind the bytes that `writer` holds.
    pub fn new(writer: Vec<u8>, kind: WaveKind, spec: PcmSpec, metadata: &Metadata) -> (stream:
        Result<Self>)
        ensures
            match streamed_wave_head(kind, spec, metadata@) {
                Err(expected) => stream matches Err(error) && error@ == expected,
                Ok(head) => stream matches Ok(found) && {
                    &&& found.written() == writer@ + head
                    &&& wave_envelope(spec) == Ok::<PcmEnvelope, ErrorView>(found.layout())
                    &&& found.pads() == chunk_padding(
                        kind,
                        (spec.total_samples * frame_size(found.layout())) as nat,
                    )
                    &&& found.pads() < 8
                },
            },
    {
        let envelope = match validate_wave_spec(spec) {
            Ok(envelope) => envelope,
            Err(error) => return Err(error),
        };
        let channels: u64 = envelope.channels as u64;
        let width: u64 = (envelope.container_bits_per_sample / 8) as u64;
        assert(channels * width <= 32) by (nonlinear_arith)
            requires
                channels <= 8,
                width <= 4,
        ;
        let frame: u64 = channels * width;
        assert(spec.total_samples * frame <= 0x1fff_ffff_ffff_ffe0) by (nonlinear_arith)
            requires
                spec.total_samples <= 0xff_ffff_ffff_ffff,
                frame <= 32,
        ;
        let size: u64 = spec.total_samples * frame;
        let head = match head_bytes(kind, spec, envelope, metadata, size) {
            Ok(head) => head,
            Err(error) => return Err(error),
        };
        let mut writer = writer;
        append_bytes(&mut writer, head.as_slice());
        Ok(WavStreamWriter { writer, envelope, padding: padding_of(kind, size) })
    }

    /// Writes the next samples.
    pub fn write_samples(&mut self, samples: &[i32]) -> (result: Result<()>)
        ensures
            final(self).layout() == old(self).layout(),
            final(self).pads() == old(self).pads(),
            match encoded_samples(samples@, old(self).layout(), ByteOrder::Wave) {
                Ok(bytes) => result is Ok && final(self).written() == old(self).written() + bytes,
                Err(expected) => {
                    &&& result matches Err(error) && error@ == expected
                    &&& final(self).written() == old(self).written() + stored_front(
                        samples@,
                        old(self).layout(),
                        ByteOrder::Wave,
                    )
                },
            },
    {
        append_ordered_samples(&mut self.writer, samples, self.envelope, ByteOrder::Wave)
    }

    /// The number of bytes written so far.
    pub fn bytes_written(&self) -> (count: usize)
        ensures
            count == self.written().len(),
    {
        self.writer.len()
    }

    /// Gives up the file and returns what was written of it.
    pub fn into_unfinished(self) -> (bytes: Vec<u8>)
        ensures
            bytes@ == self.written(),
    {
        self.writer
    }

    /// Ends the file and returns all bytes.
    pub fn finish(self) -> (file: Result<Vec<u8>>)
        requires
            self.pads() < 8,
        ensures
            file matches Ok(bytes) && bytes@ == self.written() + zeros(self.pads()),
    {
        let mut writer = self.writer;
        push_zeros(&mut writer, self.padding);
        Ok(writer)
    }
}

} // verus!
