//! Reading Core Audio Format files.

use vstd::prelude::*;
use vstd::slice::slice_subrange;
use vstd::string::*;

use crate::aiff::{invalid, unsupported, unsupported_error};
use crate::byte_reader::{available, be_at, bytes_at, end_of_file, ByteReader};
use crate::bytes::{lemma_byte_ranges, read_be};
use crate::error::{Error, ErrorView, Result};
use crate::float::{read_double, whole_double, DoubleKind};
use crate::fourcc::{is_id, FourCc};
use crate::hex::{append_hex, hex_digits};
use crate::pcm::{is_supported_channel_mask, mask_is_supported};
use crate::raw::{RawPcmByteOrder, RawPcmDescriptor};
use crate::text::{concat, decimal, labelled, lossy_string, lossy_text, numbered};

verus! {

/// `caff`
pub const CAF_MAGIC: FourCc = [0x63, 0x61, 0x66, 0x66];

/// The only version of the format.
pub const CAF_VERSION: u16 = 1;

/// `desc`
pub const DESC_CHUNK_ID: FourCc = [0x64, 0x65, 0x73, 0x63];

/// `data`
pub const DATA_CHUNK_ID: FourCc = [0x64, 0x61, 0x74, 0x61];

/// `chan`
pub const CHAN_CHUNK_ID: FourCc = [0x63, 0x68, 0x61, 0x6e];

/// `pakt`
pub const PAKT_CHUNK_ID: FourCc = [0x70, 0x61, 0x6b, 0x74];

/// `lpcm`
pub const LPCM_FORMAT_ID: FourCc = [0x6c, 0x70, 0x63, 0x6d];

/// The layout tag of a channel layout that is given by a bitmap.
pub const CAF_LAYOUT_TAG_USE_CHANNEL_BITMAP: u32 = 0x0001_0000;

/// The largest size that a chunk header can hold.
pub const MAX_CHUNK_SIZE: u64 = 0x7fff_ffff_ffff_ffff;

/// The channel layout of a file.
#[derive(Debug, Clone, Copy, PartialEq, Eq, Structural)]
pub struct CafChannelLayout {
    pub layout_tag: u32,
    pub channel_bitmap: u32,
    pub number_channel_descriptions: u32,
}

/// Where the audio data of a file lies and how it is stored.
#[derive(Debug, Clone, Copy, PartialEq, Eq, Structural)]
pub struct ParsedCaf {
    pub descriptor: RawPcmDescriptor,
    pub data_offset: u64,
    pub data_size: u64,
}

/// What was found in the chunks so far: the place and size of the audio data, and the
/// channel layout.
#[derive(Debug, Clone, Copy, PartialEq, Eq)]
pub struct CafParts {
    pub data: Option<(u64, u64)>,
    pub layout: Option<CafChannelLayout>,
}

/// The sample rate that a float stands for, or why it is not supported.
pub open spec fn float_rate(pattern: nat) -> std::result::Result<u32, ErrorView> {
    match whole_double(pattern) {
        None => unsupported("CAF sample rates must be positive whole numbers"@),
        Some(rate) => if rate > u32::MAX {
            unsupported("CAF sample rate exceeds supported range"@)
        } else {
            Ok(rate as u32)
        },
    }
}

/// How the packets of a linear PCM stream are laid out, or why it is not supported.
pub open spec fn packet_layout(
    sample_rate: u32,
    format_flags: nat,
    bytes_per_packet: nat,
    frames_per_packet: nat,
    channels: nat,
    bits_per_channel: nat,
) -> std::result::Result<RawPcmDescriptor, ErrorView> {
    if frames_per_packet != 1 {
        unsupported(
            "CAF frames/packet must be 1 for Stage 3 linear PCM, found "@ + decimal(
                frames_per_packet,
            ),
        )
    } else if channels == 0 {
        invalid("CAF channel count must be non-zero"@)
    } else if bytes_per_packet == 0 {
        unsupported("CAF bytes/packet must be non-zero for Stage 3 linear PCM"@)
    } else if bytes_per_packet % channels != 0 {
        invalid("CAF bytes/packet does not align to the channel count"@)
    } else if (bytes_per_packet / channels) * 8 > u32::MAX {
        unsupported("CAF container width overflows"@)
    } else if channels > u8::MAX {
        unsupported("CAF channel count exceeds supported range"@)
    } else if bits_per_channel > u8::MAX {
        unsupported("CAF bits/channel exceeds supported range"@)
    } else if (bytes_per_packet / channels) * 8 > u8::MAX {
        unsupported("CAF container width exceeds supported range"@)
    } else {
        Ok(
            RawPcmDescriptor {
                sample_rate,
                channels: channels as u8,
                valid_bits_per_sample: bits_per_channel as u8,
                container_bits_per_sample: ((bytes_per_packet / channels) * 8) as u8,
                byte_order: if format_flags == 2 {
                    RawPcmByteOrder::LittleEndian
                } else {
                    RawPcmByteOrder::BigEndian
                },
                channel_mask: None,
            },
        )
    }
}

/// The stream description of an Audio Description chunk, or why there is none. The
/// flags are 1 for floats and 2 for little-endian samples.
pub open spec fn audio_description(bytes: Seq<u8>, start: nat, size: nat) -> std::result::Result<
    RawPcmDescriptor,
    ErrorView,
> {
    if size < 32 || size > MAX_CHUNK_SIZE {
        invalid("CAF Audio Description chunk is too short"@)
    } else if !available(bytes, start, 8) {
        Err(end_of_file())
    } else {
        match float_rate(be_at(bytes, start, 8)) {
            Err(error) => Err(error),
            Ok(sample_rate) => {
                let format_id = bytes_at(bytes, start + 8, 4);
                let flags = be_at(bytes, start + 12, 4);
                if !available(bytes, start + 8, 4) {
                    Err(end_of_file())
                } else if format_id != LPCM_FORMAT_ID@ {
                    unsupported(
                        "CAF format '"@ + lossy_text(format_id)
                            + "' is not supported in Stage 3"@,
                    )
                } else if !available(bytes, start + 12, 4) {
                    Err(end_of_file())
                } else if flags % 2 == 1 {
                    unsupported("float CAF is not supported"@)
                } else if flags > 2 {
                    unsupported(
                        "CAF format flags 0x"@ + hex_digits(flags, 8) + " are not supported"@,
                    )
                } else if !available(bytes, start + 16, 16) {
                    Err(end_of_file())
                } else {
                    packet_layout(
                        sample_rate,
                        flags,
                        be_at(bytes, start + 16, 4),
                        be_at(bytes, start + 20, 4),
                        be_at(bytes, start + 24, 4),
                        be_at(bytes, start + 28, 4),
                    )
                }
            },
        }
    }
}

/// The channel layout of a chunk, or why there is none.
pub open spec fn channel_layout(bytes: Seq<u8>, start: nat, size: nat) -> std::result::Result<
    CafChannelLayout,
    ErrorView,
> {
    if size < 12 {
        invalid("CAF channel layout chunk is too short"@)
    } else if !available(bytes, start, 12) {
        Err(end_of_file())
    } else {
        Ok(
            CafChannelLayout {
                layout_tag: be_at(bytes, start, 4) as u32,
                channel_bitmap: be_at(bytes, start + 4, 4) as u32,
                number_channel_descriptions: be_at(bytes, start + 8, 4) as u32,
            },
        )
    }
}

/// The position after a chunk.
pub open spec fn chunk_end(start: nat, size: nat) -> std::result::Result<nat, ErrorView> {
    if start + size > u64::MAX {
        invalid("chunk length overflows the file cursor"@)
    } else {
        Ok(start + size)
    }
}

/// What is known once the chunk at `start` has been read.
pub open spec fn with_caf_chunk(
    bytes: Seq<u8>,
    id: Seq<u8>,
    start: nat,
    size: nat,
    parts: CafParts,
) -> std::result::Result<CafParts, ErrorView> {
    if size > MAX_CHUNK_SIZE {
        unsupported("negative CAF chunk sizes are not supported"@)
    } else if id == DATA_CHUNK_ID@ {
        if size < 4 {
            invalid("CAF data chunk is too short"@)
        } else if !available(bytes, start, 4) {
            Err(end_of_file())
        } else {
            Ok(CafParts { data: Some(((start + 4) as u64, (size - 4) as u64)), ..parts })
        }
    } else if id == CHAN_CHUNK_ID@ {
        match channel_layout(bytes, start, size) {
            Err(error) => Err(error),
            Ok(layout) => Ok(CafParts { layout: Some(layout), ..parts }),
        }
    } else if id == PAKT_CHUNK_ID@ {
        unsupported("CAF packet table chunks are not supported in Stage 3"@)
    } else {
        Ok(parts)
    }
}

/// What the chunks from a position on hold. The walk ends where no whole chunk
/// header is left.
pub open spec fn walk_caf_chunks(bytes: Seq<u8>, position: nat, parts: CafParts)
    -> std::result::Result<CafParts, ErrorView>
    decreases
            if position <= bytes.len() {
                bytes.len() - position
            } else {
                0
            },
{
    if !available(bytes, position, 12) {
        Ok(parts)
    } else {
        let size = be_at(bytes, position + 4, 8);
        match with_caf_chunk(bytes, bytes_at(bytes, position, 4), position + 12, size, parts) {
            Err(error) => Err(error),
            Ok(found) => match chunk_end(position + 12, size) {
                Err(error) => Err(error),
                Ok(next) => if next > position {
                    walk_caf_chunks(bytes, next, found)
                } else {
                    Ok(found)
                },
            },
        }
    }
}

/// The speaker positions of channels, where a layout gives them, or why they are not
/// supported.
pub open spec fn resolved_mask(channels: u8, layout: Option<CafChannelLayout>)
    -> std::result::Result<Option<u32>, ErrorView> {
    match layout {
        None => if channels <= 2 {
            Ok(None)
        } else {
            unsupported("CAF 3..8 channel inputs require a supported channel layout mapping"@)
        },
        Some(layout) => if layout.layout_tag != CAF_LAYOUT_TAG_USE_CHANNEL_BITMAP
            || layout.number_channel_descriptions != 0 {
            if channels <= 2 {
                Ok(None)
            } else {
                unsupported(
                    "CAF channel layout mappings must use a supported channel bitmap in Stage 3"@,
                )
            }
        } else if !mask_is_supported(channels as u16, layout.channel_bitmap) {
            unsupported("CAF channel bitmap does not map to a supported channel layout"@)
        } else {
            Ok(Some(layout.channel_bitmap))
        },
    }
}

/// What the file at a position says of its samples, or why it cannot be read.
pub open spec fn parsed_caf(bytes: Seq<u8>, position: nat) -> std::result::Result<
    ParsedCaf,
    ErrorView,
> {
    let version = be_at(bytes, position + 4, 2);
    let flags = be_at(bytes, position + 6, 2);
    if !available(bytes, position, 8) {
        Err(end_of_file())
    } else if bytes_at(bytes, position, 4) != CAF_MAGIC@ {
        invalid("expected CAF header"@)
    } else if version != CAF_VERSION {
        unsupported("CAF version "@ + decimal(version) + " is not supported"@)
    } else if flags != 0 {
        unsupported("CAF header flags 0x"@ + hex_digits(flags, 4) + " are not supported"@)
    } else if !available(bytes, position + 8, 12) {
        Err(end_of_file())
    } else if bytes_at(bytes, position + 8, 4) != DESC_CHUNK_ID@ {
        invalid("CAF Audio Description chunk must follow the file header"@)
    } else {
        let size = be_at(bytes, position + 12, 8);
        match audio_description(bytes, position + 20, size) {
            Err(error) => Err(error),
            Ok(descriptor) => match chunk_end(position + 20, size) {
                Err(error) => Err(error),
                Ok(next) => match walk_caf_chunks(
                    bytes,
                    next,
                    CafParts { data: None, layout: None },
                ) {
                    Err(error) => Err(error),
                    Ok(parts) => caf_of_parts(descriptor, parts),
                },
            },
        }
    }
}

/// What the chunks of a file say of its samples, or why they say nothing.
pub open spec fn caf_of_parts(descriptor: RawPcmDescriptor, parts: CafParts)
    -> std::result::Result<ParsedCaf, ErrorView> {
    match resolved_mask(descriptor.channels, parts.layout) {
        Err(error) => Err(error),
        Ok(channel_mask) => match parts.data {
            None => invalid("missing CAF data chunk"@),
            Some((data_offset, data_size)) => Ok(
                ParsedCaf {
                    descriptor: RawPcmDescriptor { channel_mask, ..descriptor },
                    data_offset,
                    data_size,
                },
            ),
        },
    }
}

/// Reads an Audio Description chunk.
pub fn read_audio_description_chunk(reader: &mut ByteReader, chunk_size: u64) -> (descriptor: Result<
    RawPcmDescriptor,
>)
    ensures
        final(reader).contents() == old(reader).contents(),
        match audio_description(old(reader).contents(), old(reader).at(), chunk_size as nat) {
            Ok(expected) => descriptor == Ok::<RawPcmDescriptor, Error>(expected),
            Err(expected) => descriptor matches Err(error) && error@ == expected,
        },
{
    if chunk_size < 32 || chunk_size > MAX_CHUNK_SIZE {
        return Err(Error::InvalidPcmContainer("CAF Audio Description chunk is too short"));
    }
    let pattern: u64 = match reader.read_u64_be() {
        Ok(pattern) => pattern,
        Err(error) => return Err(error),
    };
    let sample_rate: u32 = match read_double(pattern) {
        DoubleKind::Whole(rate) => rate,
        DoubleKind::Large => {
            return Err(unsupported_error("CAF sample rate exceeds supported range"));
        },
        DoubleKind::Other => {
            return Err(unsupported_error("CAF sample rates must be positive whole numbers"));
        },
    };
    let format_id = match reader.read_exact(4) {
        Ok(format_id) => format_id,
        Err(error) => return Err(error),
    };
    if !is_id(format_id.as_slice(), &LPCM_FORMAT_ID) {
        let name = lossy_string(format_id.as_slice());
        let opening = concat("CAF format '", name.as_str());
        return Err(
            Error::UnsupportedPcmContainer(
                concat(opening.as_str(), "' is not supported in Stage 3"),
            ),
        );
    }
    let format_flags: u32 = match reader.read_u32_be() {
        Ok(flags) => flags,
        Err(error) => return Err(error),
    };
    if format_flags % 2 == 1 {
        return Err(unsupported_error("float CAF is not supported"));
    }
    if format_flags > 2 {
        return Err(
            Error::UnsupportedPcmContainer(
                flags_text("CAF format flags 0x", format_flags, 8, " are not supported"),
            ),
        );
    }
    read_packet_layout(reader, sample_rate, format_flags)
}

/// A text with a hexadecimal number in it.
fn flags_text(before: &str, flags: u32, width: u8, after: &str) -> (text: String)
    ensures
        text@ == before@ + hex_digits(flags as nat, width as nat) + after@,
{
    let mut text = before.to_owned();
    append_hex(&mut text, flags, width);
    concat(text.as_str(), after)
}

/// Reads how the packets are laid out.
fn read_packet_layout(reader: &mut ByteReader, sample_rate: u32, format_flags: u32) -> (descriptor:
    Result<RawPcmDescriptor>)
    requires
        format_flags == 0 || format_flags == 2,
    ensures
        final(reader).contents() == old(reader).contents(),
        ({
            let bytes = old(reader).contents();
            let start = old(reader).at();
            if available(bytes, start, 16) {
                match packet_layout(
                    sample_rate,
                    format_flags as nat,
                    be_at(bytes, start, 4),
                    be_at(bytes, start + 4, 4),
                    be_at(bytes, start + 8, 4),
                    be_at(bytes, start + 12, 4),
                ) {
                    Ok(expected) => descriptor == Ok::<RawPcmDescriptor, Error>(expected),
                    Err(expected) => descriptor matches Err(error) && error@ == expected,
                }
            } else {
                descriptor matches Err(error) && error@ == end_of_file()
            }
        }),
{
    let bytes_per_packet: u32 = match reader.read_u32_be() {
        Ok(value) => value,
        Err(error) => return Err(error),
    };
    let frames_per_packet: u32 = match reader.read_u32_be() {
        Ok(value) => value,
        Err(error) => return Err(error),
    };
    let channels: u32 = match reader.read_u32_be() {
        Ok(value) => value,
        Err(error) => return Err(error),
    };
    let bits_per_channel: u32 = match reader.read_u32_be() {
        Ok(value) => value,
        Err(error) => return Err(error),
    };
    if frames_per_packet != 1 {
        return Err(
            Error::UnsupportedPcmContainer(
                labelled(
                    "CAF frames/packet must be 1 for Stage 3 linear PCM, found ",
                    frames_per_packet as u64,
                ),
            ),
        );
    }
    if channels == 0 {
        return Err(Error::InvalidPcmContainer("CAF channel count must be non-zero"));
    }
    if bytes_per_packet == 0 {
        return Err(
            unsupported_error("CAF bytes/packet must be non-zero for Stage 3 linear PCM"),
        );
    }
    if bytes_per_packet % channels != 0 {
        return Err(
            Error::InvalidPcmContainer("CAF bytes/packet does not align to the channel count"),
        );
    }
    let bytes_per_sample: u32 = bytes_per_packet / channels;
    let container_bits: u32 = match bytes_per_sample.checked_mul(8) {
        Some(bits) => bits,
        None => return Err(unsupported_error("CAF container width overflows")),
    };
    if channels > 255 {
        return Err(unsupported_error("CAF channel count exceeds supported range"));
    }
    if bits_per_channel > 255 {
        return Err(unsupported_error("CAF bits/channel exceeds supported range"));
    }
    if container_bits > 255 {
        return Err(unsupported_error("CAF container width exceeds supported range"));
    }
    let byte_order = if format_flags == 2 {
        RawPcmByteOrder::LittleEndian
    } else {
        RawPcmByteOrder::BigEndian
    };
    Ok(
        RawPcmDescriptor {
            sample_rate,
            channels: channels as u8,
            valid_bits_per_sample: bits_per_channel as u8,
            container_bits_per_sample: container_bits as u8,
            byte_order,
            channel_mask: None,
        },
    )
}

/// Reads a channel layout chunk.
pub fn read_channel_layout_chunk(reader: &mut ByteReader, chunk_size: u64) -> (layout: Result<
    CafChannelLayout,
>)
    ensures
        final(reader).contents() == old(reader).contents(),
        match channel_layout(old(reader).contents(), old(reader).at(), chunk_size as nat) {
            Ok(expected) => layout == Ok::<CafChannelLayout, Error>(expected),
            Err(expected) => layout matches Err(error) && error@ == expected,
        },
{
    if chunk_size < 12 {
        return Err(Error::InvalidPcmContainer("CAF channel layout chunk is too short"));
    }
    let layout_tag: u32 = match reader.read_u32_be() {
        Ok(value) => value,
        Err(error) => return Err(error),
    };
    let channel_bitmap: u32 = match reader.read_u32_be() {
        Ok(value) => value,
        Err(error) => return Err(error),
    };
    let number_channel_descriptions: u32 = match reader.read_u32_be() {
        Ok(value) => value,
        Err(error) => return Err(error),
    };
    Ok(CafChannelLayout { layout_tag, channel_bitmap, number_channel_descriptions })
}

/// The speaker positions of channels, where a layout gives them, or why they are not
/// supported.
pub fn resolve_channel_mask(channels: u8, channel_layout: Option<CafChannelLayout>) -> (mask: Result<
    Option<u32>,
>)
    ensures
        match resolved_mask(channels, channel_layout) {
            Ok(expected) => mask == Ok::<Option<u32>, Error>(expected),
            Err(expected) => mask matches Err(error) && error@ == expected,
        },
{
    let layout = match channel_layout {
        Some(layout) => layout,
        None => {
            return if channels <= 2 {
                Ok(None)
            } else {
                Err(
                    unsupported_error(
                        "CAF 3..8 channel inputs require a supported channel layout mapping",
                    ),
                )
            };
        },
    };
    if layout.layout_tag != CAF_LAYOUT_TAG_USE_CHANNEL_BITMAP || layout.number_channel_descriptions
        != 0 {
        return if channels <= 2 {
            Ok(None)
        } else {
            Err(
                unsupported_error(
                    "CAF channel layout mappings must use a supported channel bitmap in Stage 3",
                ),
            )
        };
    }
    if !is_supported_channel_mask(channels as u16, layout.channel_bitmap) {
        return Err(
            unsupported_error("CAF channel bitmap does not map to a supported channel layout"),
        );
    }
    Ok(Some(layout.channel_bitmap))
}

/// A chunk header.
#[derive(Debug, Clone, Copy)]
pub struct ChunkHeader {
    pub chunk_id: FourCc,
    /// The size, as a number without a sign.
    pub size: u64,
}

/// Reads a chunk header.
pub fn read_chunk_header(reader: &mut ByteReader) -> (header: Result<ChunkHeader>)
    ensures
        final(reader).contents() == old(reader).contents(),
        header is Ok <==> available(old(reader).contents(), old(reader).at(), 12),
        header matches Ok(found) ==> {
            &&& found.chunk_id@ == bytes_at(old(reader).contents(), old(reader).at(), 4)
            &&& found.size == be_at(old(reader).contents(), old(reader).at() + 4, 8)
            &&& final(reader).at() == old(reader).at() + 12
        },
        header matches Err(error) ==> error@ == end_of_file() && final(reader).at()
            == old(reader).at(),
{
    let header = match reader.read_exact(12) {
        Ok(header) => header,
        Err(error) => return Err(error),
    };
    let chunk_id: FourCc = [header[0], header[1], header[2], header[3]];
    proof {
        assert(chunk_id@ == bytes_at(old(reader).contents(), old(reader).at(), 4));
        assert(header@.subrange(4, 12) == bytes_at(
            old(reader).contents(),
            old(reader).at() + 4,
            8,
        ));
    }
    Ok(ChunkHeader { chunk_id, size: read_be(header.as_slice(), 4, 8) })
}

/// Moves a reader behind a chunk.
fn seek_forward(reader: &mut ByteReader, chunk_start: u64, chunk_size: u64) -> (result: Result<()>)
    ensures
        final(reader).contents() == old(reader).contents(),
        match chunk_end(chunk_start as nat, chunk_size as nat) {
            Ok(next) => result is Ok && final(reader).at() == next,
            Err(expected) => result matches Err(error) && error@ == expected,
        },
{
    match chunk_start.checked_add(chunk_size) {
        Some(target) => {
            reader.seek(target);
            Ok(())
        },
        None => Err(Error::InvalidPcmContainer("chunk length overflows the file cursor")),
    }
}

/// Reads what a chunk tells.
fn read_caf_chunk(reader: &mut ByteReader, header: &ChunkHeader, parts: CafParts) -> (found: Result<
    CafParts,
>)
    requires
        old(reader).at() <= old(reader).contents().len(),
    ensures
        final(reader).contents() == old(reader).contents(),
        match with_caf_chunk(
            old(reader).contents(),
            header.chunk_id@,
            old(reader).at(),
            header.size as nat,
            parts,
        ) {
            Ok(expected) => found == Ok::<CafParts, Error>(expected),
            Err(expected) => found matches Err(error) && error@ == expected,
        },
{
    if header.size > MAX_CHUNK_SIZE {
        return Err(unsupported_error("negative CAF chunk sizes are not supported"));
    }
    let length: usize = reader.len();
    let start: u64 = reader.position();
    if is_id(header.chunk_id.as_slice(), &DATA_CHUNK_ID) {
        if header.size < 4 {
            return Err(Error::InvalidPcmContainer("CAF data chunk is too short"));
        }
        match reader.read_u32_be() {
            Ok(_) => {},
            Err(error) => return Err(error),
        }
        assert(start + 4 <= length);
        return Ok(CafParts { data: Some((start + 4, header.size - 4)), layout: parts.layout });
    }
    if is_id(header.chunk_id.as_slice(), &CHAN_CHUNK_ID) {
        return match read_channel_layout_chunk(reader, header.size) {
            Ok(layout) => Ok(CafParts { data: parts.data, layout: Some(layout) }),
            Err(error) => Err(error),
        };
    }
    if is_id(header.chunk_id.as_slice(), &PAKT_CHUNK_ID) {
        return Err(unsupported_error("CAF packet table chunks are not supported in Stage 3"));
    }
    Ok(parts)
}

/// Reads what the chunks of a file tell.
fn read_caf_chunks(reader: &mut ByteReader) -> (found: Result<CafParts>)
    ensures
        final(reader).contents() == old(reader).contents(),
        match walk_caf_chunks(
            old(reader).contents(),
            old(reader).at(),
            CafParts { data: None, layout: None },
        ) {
            Ok(expected) => found == Ok::<CafParts, Error>(expected),
            Err(expected) => found matches Err(error) && error@ == expected,
        },
{
    let mut parts = CafParts { data: None, layout: None };
    let ghost bytes = reader.contents();
    let ghost whole = walk_caf_chunks(bytes, reader.at(), parts);
    loop
        invariant
            reader.contents() == bytes,
            bytes == old(reader).contents(),
            walk_caf_chunks(bytes, reader.at(), parts) == whole,
            whole == walk_caf_chunks(
                old(reader).contents(),
                old(reader).at(),
                CafParts { data: None, layout: None },
            ),
        ensures
            reader.contents() == bytes,
            whole == Ok::<CafParts, ErrorView>(parts),
        decreases
                (if reader.at() <= bytes.len() {
                    bytes.len() - reader.at()
                } else {
                    0
                }),
    {
        let header = match read_chunk_header(reader) {
            Ok(header) => header,
            Err(_) => {
                break ;
            },
        };
        let start: u64 = reader.position();
        parts = match read_caf_chunk(reader, &header, parts) {
            Ok(found) => found,
            Err(error) => return Err(error),
        };
        match seek_forward(reader, start, header.size) {
            Ok(()) => {},
            Err(error) => return Err(error),
        }
    }
    Ok(parts)
}

/// Reads the file header and the header of the Audio Description chunk. It returns the
/// size of that chunk.
fn read_caf_header(reader: &mut ByteReader) -> (size: Result<u64>)
    ensures
        final(reader).contents() == old(reader).contents(),
        ({
            let bytes = old(reader).contents();
            let position = old(reader).at();
            let found = parsed_caf(bytes, position);
            match size {
                Ok(size) => {
                    &&& available(bytes, position + 8, 12)
                    &&& final(reader).at() == position + 20
                    &&& size == be_at(bytes, position + 12, 8)
                    &&& bytes_at(bytes, position, 4) == CAF_MAGIC@
                    &&& be_at(bytes, position + 4, 2) == CAF_VERSION
                    &&& be_at(bytes, position + 6, 2) == 0
                    &&& bytes_at(bytes, position + 8, 4) == DESC_CHUNK_ID@
                },
                Err(error) => found == Err::<ParsedCaf, ErrorView>(error@),
            }
        }),
{
    let ghost bytes = reader.contents();
    let ghost position = reader.at();
    let header = match reader.read_exact(8) {
        Ok(header) => header,
        Err(error) => return Err(error),
    };
    let magic = slice_subrange(header.as_slice(), 0, 4);
    proof {
        lemma_byte_ranges();
        assert(magic@ == bytes_at(bytes, position, 4));
        assert(header@.subrange(4, 6) == bytes_at(bytes, position + 4, 2));
        assert(header@.subrange(6, 8) == bytes_at(bytes, position + 6, 2));
    }
    if !is_id(magic, &CAF_MAGIC) {
        return Err(Error::InvalidPcmContainer("expected CAF header"));
    }
    let version: u64 = read_be(header.as_slice(), 4, 2);
    if version != CAF_VERSION as u64 {
        return Err(
            Error::UnsupportedPcmContainer(numbered("CAF version ", version, " is not supported")),
        );
    }
    let flags: u64 = read_be(header.as_slice(), 6, 2);
    if flags != 0 {
        return Err(
            Error::UnsupportedPcmContainer(
                flags_text("CAF header flags 0x", flags as u32, 4, " are not supported"),
            ),
        );
    }
    let chunk = match read_chunk_header(reader) {
        Ok(chunk) => chunk,
        Err(error) => return Err(error),
    };
    if !is_id(chunk.chunk_id.as_slice(), &DESC_CHUNK_ID) {
        return Err(
            Error::InvalidPcmContainer("CAF Audio Description chunk must follow the file header"),
        );
    }
    Ok(chunk.size)
}

/// Finds the samples of a file and how they are stored.
pub fn parse_caf(reader: &mut ByteReader) -> (parsed: Result<ParsedCaf>)
    ensures
        final(reader).contents() == old(reader).contents(),
        match parsed_caf(old(reader).contents(), old(reader).at()) {
            Ok(expected) => parsed == Ok::<ParsedCaf, Error>(expected),
            Err(expected) => parsed matches Err(error) && error@ == expected,
        },
{
    let size: u64 = match read_caf_header(reader) {
        Ok(size) => size,
        Err(error) => return Err(error),
    };
    let start: u64 = reader.position();
    let descriptor = match read_audio_description_chunk(reader, size) {
        Ok(descriptor) => descriptor,
        Err(error) => return Err(error),
    };
    match seek_forward(reader, start, size) {
        Ok(()) => {},
        Err(error) => return Err(error),
    }
    let parts = match read_caf_chunks(reader) {
        Ok(parts) => parts,
        Err(error) => return Err(error),
    };
    let channel_mask: Option<u32> = match resolve_channel_mask(descriptor.channels, parts.layout) {
        Ok(mask) => mask,
        Err(error) => return Err(error),
    };
    match parts.data {
        Some((data_offset, data_size)) => Ok(
            ParsedCaf {
                descriptor: RawPcmDescriptor {
                    sample_rate: descriptor.sample_rate,
                    channels: descriptor.channels,
                    valid_bits_per_sample: descriptor.valid_bits_per_sample,
                    container_bits_per_sample: descriptor.container_bits_per_sample,
                    byte_order: descriptor.byte_order,
                    channel_mask,
                },
                data_offset,
                data_size,
            },
        ),
        None => Err(Error::InvalidPcmContainer("missing CAF data chunk")),
    }
}

} // verus!
