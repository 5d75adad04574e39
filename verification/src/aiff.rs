//! Reading AIFF and AIFC files.

use vstd::arithmetic::power2::pow2;
use vstd::prelude::*;
use vstd::slice::slice_subrange;
use vstd::string::*;

use crate::bits::power_of_two;
use crate::byte_reader::{available, be_at, bytes_at, end_of_file, ByteReader};
use crate::bytes::{be_value, lemma_byte_ranges, read_be};
use crate::error::{Error, ErrorView, IoErrorKind, Result};
use crate::fourcc::{is_id, FourCc};
use crate::pcm::{container_bits, container_bits_from_valid_bits, ordinary_channel_mask, ordinary_mask, ByteOrder, PcmEnvelope};
use crate::text::{concat, decimal, labelled, lossy_string, lossy_text, numbered};

verus! {

/// `FORM`
pub const FORM_ID: FourCc = [0x46, 0x4f, 0x52, 0x4d];

/// `AIFF`
pub const AIFF_FORM_TYPE: FourCc = [0x41, 0x49, 0x46, 0x46];

/// `AIFC`
pub const AIFC_FORM_TYPE: FourCc = [0x41, 0x49, 0x46, 0x43];

/// `COMM`
pub const COMM_CHUNK_ID: FourCc = [0x43, 0x4f, 0x4d, 0x4d];

/// `SSND`
pub const SSND_CHUNK_ID: FourCc = [0x53, 0x53, 0x4e, 0x44];

/// `NONE`
pub const AIFC_NONE: FourCc = [0x4e, 0x4f, 0x4e, 0x45];

/// `sowt`
pub const AIFC_SOWT: FourCc = [0x73, 0x6f, 0x77, 0x74];

/// `fl32`
pub const AIFC_FL32: FourCc = [0x66, 0x6c, 0x33, 0x32];

/// `fl64`
pub const AIFC_FL64: FourCc = [0x66, 0x6c, 0x36, 0x34];

/// The stream description of a COMM chunk.
#[derive(Debug, Clone, Copy, PartialEq, Eq, Structural)]
pub struct CommonChunk {
    pub channels: u16,
    pub sample_frames: u64,
    pub valid_bits_per_sample: u16,
    pub sample_rate: u32,
    pub byte_order: ByteOrder,
}

/// Where the audio data of a file lies and how it is stored.
#[derive(Debug, Clone, Copy, PartialEq, Eq, Structural)]
pub struct ParsedAiffLayout {
    pub envelope: PcmEnvelope,
    pub sample_rate: u32,
    pub total_samples: u64,
    pub data_offset: u64,
    pub data_size: u64,
    pub byte_order: ByteOrder,
}

/// What was found in the chunks so far.
#[derive(Debug, Clone, Copy, PartialEq, Eq, Structural)]
pub struct AiffParts {
    pub common: Option<CommonChunk>,
    pub data_offset: Option<u64>,
    pub data_size: Option<u64>,
}

pub open spec fn unsupported<T>(text: Seq<char>) -> std::result::Result<T, ErrorView> {
    Err(ErrorView::UnsupportedPcmContainer(text))
}

pub open spec fn invalid<T>(text: Seq<char>) -> std::result::Result<T, ErrorView> {
    Err(ErrorView::InvalidPcmContainer(text))
}

/// The whole number that an 80-bit extended float stands for, or why there is none
/// in 32 bits. Bits that a large exponent moves out of 64 bits are lost.
pub open spec fn extended_rate(bytes: Seq<u8>) -> std::result::Result<u32, ErrorView> {
    let word = be_value(bytes.subrange(0, 2));
    let exponent = word % 0x8000;
    let mantissa = be_value(bytes.subrange(2, 10));
    let shift = 63 - (exponent - 16_383);
    if word >= 0x8000 {
        unsupported("negative AIFF sample rates are not supported"@)
    } else if exponent == 0x7fff {
        unsupported("non-finite AIFF sample rates are not supported"@)
    } else if exponent == 0 || mantissa == 0 {
        Ok(0)
    } else if shift >= 64 {
        unsupported("fractional AIFF sample rates are not supported"@)
    } else if shift >= 0 {
        if mantissa % pow2(shift as nat) != 0 {
            unsupported("fractional AIFF sample rates are not supported"@)
        } else if mantissa / pow2(shift as nat) > u32::MAX {
            unsupported("AIFF sample rate exceeds supported range"@)
        } else {
            Ok((mantissa / pow2(shift as nat)) as u32)
        }
    } else if shift <= -64 || (mantissa * pow2((-shift) as nat)) % 0x1_0000_0000_0000_0000
        > u32::MAX {
        unsupported("AIFF sample rate exceeds supported range"@)
    } else {
        Ok(((mantissa * pow2((-shift) as nat)) % 0x1_0000_0000_0000_0000) as u32)
    }
}

/// The byte order that a compression type of an AIFC file stands for, or why it is
/// not supported.
pub open spec fn compression_order(id: Seq<u8>, valid_bits: u16) -> std::result::Result<
    ByteOrder,
    ErrorView,
> {
    if id == AIFC_NONE@ {
        Ok(ByteOrder::Big)
    } else if id == AIFC_SOWT@ {
        if valid_bits != 16 {
            unsupported("AIFC compression 'sowt' is only supported for 16-bit signed PCM"@)
        } else {
            Ok(ByteOrder::Little)
        }
    } else if id == AIFC_FL32@ || id == AIFC_FL64@ {
        unsupported("float AIFC compression '"@ + lossy_text(id) + "' is not supported"@)
    } else {
        unsupported("AIFC compression '"@ + lossy_text(id) + "' is not supported"@)
    }
}

/// The stream description of a COMM chunk, or why there is none.
pub open spec fn common_chunk(bytes: Seq<u8>, start: nat, size: nat, is_aifc: bool)
    -> std::result::Result<CommonChunk, ErrorView> {
    if is_aifc && size < 23 {
        invalid("AIFC COMM chunk is too short"@)
    } else if !is_aifc && size < 18 {
        invalid("AIFF COMM chunk is too short"@)
    } else if !available(bytes, start, 18) {
        Err(end_of_file())
    } else {
        let valid_bits = be_at(bytes, start + 6, 2) as u16;
        match extended_rate(bytes_at(bytes, start + 8, 10)) {
            Err(error) => Err(error),
            Ok(sample_rate) => {
                let order = if !is_aifc {
                    Ok(ByteOrder::Big)
                } else if !available(bytes, start + 18, 4) {
                    Err(end_of_file())
                } else {
                    compression_order(bytes_at(bytes, start + 18, 4), valid_bits)
                };
                match order {
                    Err(error) => Err(error),
                    Ok(byte_order) => Ok(
                        CommonChunk {
                            channels: be_at(bytes, start, 2) as u16,
                            sample_frames: be_at(bytes, start + 2, 4) as u64,
                            valid_bits_per_sample: valid_bits,
                            sample_rate,
                            byte_order,
                        },
                    ),
                }
            },
        }
    }
}

/// The place and size of the audio data of a SSND chunk, or why there is none.
pub open spec fn sound_data(bytes: Seq<u8>, start: nat, size: nat) -> std::result::Result<
    (u64, u64),
    ErrorView,
> {
    if size < 8 {
        invalid("AIFF SSND chunk is too short"@)
    } else if !available(bytes, start, 8) {
        Err(end_of_file())
    } else {
        let offset = be_at(bytes, start, 4);
        if size < 8 + offset {
            invalid("AIFF SSND offset exceeds the chunk payload"@)
        } else if start + 8 + offset > u64::MAX {
            invalid("AIFF SSND offset overflows the file cursor"@)
        } else {
            Ok(((start + 8 + offset) as u64, (size - 8 - offset) as u64))
        }
    }
}

/// What is known once the chunk at `start` has been read.
pub open spec fn with_chunk(
    bytes: Seq<u8>,
    id: Seq<u8>,
    start: nat,
    size: nat,
    is_aifc: bool,
    parts: AiffParts,
) -> std::result::Result<AiffParts, ErrorView> {
    if id == COMM_CHUNK_ID@ {
        match common_chunk(bytes, start, size, is_aifc) {
            Err(error) => Err(error),
            Ok(common) => Ok(AiffParts { common: Some(common), ..parts }),
        }
    } else if id == SSND_CHUNK_ID@ {
        match sound_data(bytes, start, size) {
            Err(error) => Err(error),
            Ok((offset, length)) => Ok(
                AiffParts { data_offset: Some(offset), data_size: Some(length), ..parts },
            ),
        }
    } else {
        Ok(parts)
    }
}

/// The position after a chunk, which is padded to an even size.
pub open spec fn after_chunk(start: nat, size: nat) -> std::result::Result<nat, ErrorView> {
    if start + size > u64::MAX {
        invalid("chunk length overflows the file cursor"@)
    } else if size % 2 == 0 {
        Ok(start + size)
    } else if start + size == u64::MAX {
        Err(ErrorView::Io(IoErrorKind::InvalidInput))
    } else {
        Ok(start + size + 1)
    }
}

/// What the chunks from a position on hold. The walk ends where no whole chunk
/// header is left.
pub open spec fn walk_chunks(bytes: Seq<u8>, position: nat, is_aifc: bool, parts: AiffParts)
    -> std::result::Result<AiffParts, ErrorView>
    decreases
            if position <= bytes.len() {
                bytes.len() - position
            } else {
                0
            },
{
    if !available(bytes, position, 8) {
        Ok(parts)
    } else {
        let size = be_at(bytes, position + 4, 4);
        match with_chunk(
            bytes,
            bytes_at(bytes, position, 4),
            position + 8,
            size,
            is_aifc,
            parts,
        ) {
            Err(error) => Err(error),
            Ok(found) => match after_chunk(position + 8, size) {
                Err(error) => Err(error),
                Ok(next) => if next > position {
                    walk_chunks(bytes, next, is_aifc, found)
                } else {
                    Ok(found)
                },
            },
        }
    }
}

/// How the samples of a described stream are stored, or why it is not supported.
pub open spec fn common_envelope(common: CommonChunk) -> std::result::Result<
    PcmEnvelope,
    ErrorView,
> {
    if common.sample_rate == 0 {
        unsupported("sample rate 0 is not allowed"@)
    } else if !(1 <= common.channels <= 8) {
        unsupported(
            "AIFF/AIFC input only supports ordinary 1..8 channel layouts, found "@ + decimal(
                common.channels as nat,
            ) + " channels"@,
        )
    } else if !(4 <= common.valid_bits_per_sample <= 32) {
        unsupported(
            "valid bits must be in the FLAC-native 4..32 range, found "@ + decimal(
                common.valid_bits_per_sample as nat,
            ),
        )
    } else {
        Ok(
            PcmEnvelope {
                channels: common.channels,
                valid_bits_per_sample: common.valid_bits_per_sample,
                container_bits_per_sample: container_bits(common.valid_bits_per_sample),
                channel_mask: ordinary_mask(common.channels).unwrap(),
            },
        )
    }
}

/// The layout that the chunks of a file describe, or why they describe none.
pub open spec fn layout_of_parts(parts: AiffParts) -> std::result::Result<
    ParsedAiffLayout,
    ErrorView,
> {
    match (parts.common, parts.data_offset, parts.data_size) {
        (None, _, _) => invalid("missing COMM chunk"@),
        (Some(_), None, _) => invalid("missing SSND chunk"@),
        (Some(_), Some(_), None) => invalid("missing SSND data size"@),
        (Some(common), Some(data_offset), Some(data_size)) => match common_envelope(common) {
            Err(error) => Err(error),
            Ok(envelope) => {
                let frame = (envelope.channels * (envelope.container_bits_per_sample / 8)) as nat;
                if data_size as nat % frame != 0 {
                    invalid("SSND audio data is not aligned to the sample frame size"@)
                } else if data_size as nat / frame != common.sample_frames {
                    invalid("COMM sample frame count does not match SSND audio payload size"@)
                } else {
                    Ok(
                        ParsedAiffLayout {
                            envelope,
                            sample_rate: common.sample_rate,
                            total_samples: (data_size as nat / frame) as u64,
                            data_offset,
                            data_size,
                            byte_order: common.byte_order,
                        },
                    )
                }
            },
        },
    }
}

/// The layout of an AIFF or AIFC file from a position on, or why there is none.
pub open spec fn aiff_layout(bytes: Seq<u8>, position: nat) -> std::result::Result<
    ParsedAiffLayout,
    ErrorView,
> {
    if !available(bytes, position, 12) {
        Err(end_of_file())
    } else if bytes_at(bytes, position, 4) != FORM_ID@ {
        invalid("expected FORM header"@)
    } else {
        let form_type = bytes_at(bytes, position + 8, 4);
        if form_type != AIFF_FORM_TYPE@ && form_type != AIFC_FORM_TYPE@ {
            invalid("expected AIFF or AIFC form type"@)
        } else {
            match walk_chunks(
                bytes,
                position + 12,
                form_type == AIFC_FORM_TYPE@,
                AiffParts { common: None, data_offset: None, data_size: None },
            ) {
                Err(error) => Err(error),
                Ok(parts) => layout_of_parts(parts),
            }
        }
    }
}

/// The error of an unsupported file.
pub fn unsupported_error(text: &str) -> (error: Error)
    ensures
        error@ == ErrorView::UnsupportedPcmContainer(text@),
{
    Error::UnsupportedPcmContainer(text.to_owned())
}

/// Reads an 80-bit extended float that stands for a whole number of 32 bits.
pub fn read_extended_sample_rate(reader: &mut ByteReader) -> (rate: Result<u32>)
    ensures
        final(reader).contents() == old(reader).contents(),
        available(old(reader).contents(), old(reader).at(), 10) ==> final(reader).at()
            == old(reader).at() + 10,
        match rate {
            Ok(value) => available(old(reader).contents(), old(reader).at(), 10) && extended_rate(
                bytes_at(old(reader).contents(), old(reader).at(), 10),
            ) == Ok::<u32, ErrorView>(value),
            Err(error) => if available(old(reader).contents(), old(reader).at(), 10) {
                extended_rate(bytes_at(old(reader).contents(), old(reader).at(), 10)) == Err::<
                    u32,
                    ErrorView,
                >(error@)
            } else {
                error@ == end_of_file()
            },
        },
{
    let bytes = match reader.read_exact(10) {
        Ok(bytes) => bytes,
        Err(error) => return Err(error),
    };
    let word: u64 = read_be(bytes.as_slice(), 0, 2);
    let mantissa: u64 = read_be(bytes.as_slice(), 2, 8);
    proof {
        lemma_byte_ranges();
    }
    if word >= 0x8000 {
        return Err(unsupported_error("negative AIFF sample rates are not supported"));
    }
    let exponent: u64 = word % 0x8000;
    if exponent == 0x7fff {
        return Err(unsupported_error("non-finite AIFF sample rates are not supported"));
    }
    if exponent == 0 || mantissa == 0 {
        return Ok(0);
    }
    let value: u64 = if exponent <= 16_446 {
        let shift: u64 = 16_446 - exponent;
        if shift >= 64 {
            return Err(unsupported_error("fractional AIFF sample rates are not supported"));
        }
        let divisor: u64 = power_of_two(shift as u8);
        if mantissa % divisor != 0 {
            return Err(unsupported_error("fractional AIFF sample rates are not supported"));
        }
        mantissa / divisor
    } else {
        let shift: u64 = exponent - 16_446;
        if shift >= 64 {
            return Err(unsupported_error("AIFF sample rate exceeds supported range"));
        }
        let factor: u64 = power_of_two(shift as u8);
        assert(mantissa * factor < 0x1_0000_0000_0000_0000 * 0x1_0000_0000_0000_0000)
            by (nonlinear_arith)
            requires
                mantissa < 0x1_0000_0000_0000_0000,
                factor < 0x1_0000_0000_0000_0000,
        ;
        let product: u128 = mantissa as u128 * factor as u128;
        (product % 0x1_0000_0000_0000_0000) as u64
    };
    if value > 0xffff_ffff {
        return Err(unsupported_error("AIFF sample rate exceeds supported range"));
    }
    Ok(value as u32)
}

/// The byte order of a compression type.
fn read_compression(id: &[u8], valid_bits: u16) -> (order: Result<ByteOrder>)
    ensures
        match compression_order(id@, valid_bits) {
            Ok(expected) => order == Ok::<ByteOrder, Error>(expected),
            Err(expected) => order matches Err(error) && error@ == expected,
        },
{
    if is_id(id, &AIFC_NONE) {
        Ok(ByteOrder::Big)
    } else if is_id(id, &AIFC_SOWT) {
        if valid_bits != 16 {
            Err(
                unsupported_error(
                    "AIFC compression 'sowt' is only supported for 16-bit signed PCM",
                ),
            )
        } else {
            Ok(ByteOrder::Little)
        }
    } else {
        let prefix = if is_id(id, &AIFC_FL32) || is_id(id, &AIFC_FL64) {
            "float AIFC compression '"
        } else {
            "AIFC compression '"
        };
        let mut text = concat(prefix, lossy_string(id).as_str());
        text.append("' is not supported");
        Err(Error::UnsupportedPcmContainer(text))
    }
}

/// Reads a COMM chunk.
pub fn read_common_chunk(reader: &mut ByteReader, chunk_size: u32, is_aifc: bool) -> (common:
    Result<CommonChunk>)
    ensures
        final(reader).contents() == old(reader).contents(),
        match common_chunk(
            old(reader).contents(),
            old(reader).at(),
            chunk_size as nat,
            is_aifc,
        ) {
            Ok(expected) => common == Ok::<CommonChunk, Error>(expected),
            Err(expected) => common matches Err(error) && error@ == expected,
        },
{
    if is_aifc && chunk_size < 23 {
        return Err(Error::InvalidPcmContainer("AIFC COMM chunk is too short"));
    }
    if !is_aifc && chunk_size < 18 {
        return Err(Error::InvalidPcmContainer("AIFF COMM chunk is too short"));
    }
    let channels: u16 = match reader.read_u16_be() {
        Ok(value) => value,
        Err(error) => return Err(error),
    };
    let sample_frames: u32 = match reader.read_u32_be() {
        Ok(value) => value,
        Err(error) => return Err(error),
    };
    let valid_bits_per_sample: u16 = match reader.read_u16_be() {
        Ok(value) => value,
        Err(error) => return Err(error),
    };
    let sample_rate: u32 = match read_extended_sample_rate(reader) {
        Ok(value) => value,
        Err(error) => return Err(error),
    };
    let byte_order = if is_aifc {
        let id = match reader.read_exact(4) {
            Ok(id) => id,
            Err(error) => return Err(error),
        };
        match read_compression(id.as_slice(), valid_bits_per_sample) {
            Ok(order) => order,
            Err(error) => return Err(error),
        }
    } else {
        ByteOrder::Big
    };
    Ok(
        CommonChunk {
            channels,
            sample_frames: sample_frames as u64,
            valid_bits_per_sample,
            sample_rate,
            byte_order,
        },
    )
}

/// Reads the head of a SSND chunk.
fn read_sound_data(reader: &mut ByteReader, chunk_size: u32) -> (data: Result<(u64, u64)>)
    ensures
        final(reader).contents() == old(reader).contents(),
        match sound_data(old(reader).contents(), old(reader).at(), chunk_size as nat) {
            Ok(expected) => data == Ok::<(u64, u64), Error>(expected),
            Err(expected) => data matches Err(error) && error@ == expected,
        },
{
    if chunk_size < 8 {
        return Err(Error::InvalidPcmContainer("AIFF SSND chunk is too short"));
    }
    let offset: u32 = match reader.read_u32_be() {
        Ok(value) => value,
        Err(error) => return Err(error),
    };
    match reader.read_u32_be() {
        Ok(_) => {},
        Err(error) => return Err(error),
    }
    if ((chunk_size - 8) as u64) < offset as u64 {
        return Err(Error::InvalidPcmContainer("AIFF SSND offset exceeds the chunk payload"));
    }
    match reader.position().checked_add(offset as u64) {
        Some(start) => Ok((start, (chunk_size - 8) as u64 - offset as u64)),
        None => Err(Error::InvalidPcmContainer("AIFF SSND offset overflows the file cursor")),
    }
}

/// Moves behind a chunk.
fn skip_chunk(reader: &mut ByteReader, start: u64, size: u32) -> (result: Result<()>)
    ensures
        final(reader).contents() == old(reader).contents(),
        match after_chunk(start as nat, size as nat) {
            Ok(next) => result is Ok && final(reader).at() == next,
            Err(expected) => result matches Err(error) && error@ == expected,
        },
{
    match start.checked_add(size as u64) {
        Some(target) => reader.seek(target),
        None => {
            return Err(Error::InvalidPcmContainer("chunk length overflows the file cursor"));
        },
    }
    if size % 2 != 0 {
        return reader.skip_byte();
    }
    Ok(())
}

/// Checks the description of a stream.
pub fn validate_common_chunk(common: CommonChunk) -> (envelope: Result<PcmEnvelope>)
    ensures
        match common_envelope(common) {
            Ok(expected) => envelope == Ok::<PcmEnvelope, Error>(expected),
            Err(expected) => envelope matches Err(error) && error@ == expected,
        },
{
    if common.sample_rate == 0 {
        return Err(unsupported_error("sample rate 0 is not allowed"));
    }
    if !(1 <= common.channels && common.channels <= 8) {
        return Err(
            Error::UnsupportedPcmContainer(
                numbered(
                    "AIFF/AIFC input only supports ordinary 1..8 channel layouts, found ",
                    common.channels as u64,
                    " channels",
                ),
            ),
        );
    }
    if !(4 <= common.valid_bits_per_sample && common.valid_bits_per_sample <= 32) {
        return Err(
            Error::UnsupportedPcmContainer(
                labelled(
                    "valid bits must be in the FLAC-native 4..32 range, found ",
                    common.valid_bits_per_sample as u64,
                ),
            ),
        );
    }
    let channel_mask: u32 = match ordinary_channel_mask(common.channels) {
        Some(mask) => mask,
        None => 0,
    };
    Ok(
        PcmEnvelope {
            channels: common.channels,
            valid_bits_per_sample: common.valid_bits_per_sample,
            container_bits_per_sample: container_bits_from_valid_bits(
                common.valid_bits_per_sample,
            ),
            channel_mask,
        },
    )
}

/// Checks what the chunks hold against each other.
fn finish_layout(parts: AiffParts) -> (layout: Result<ParsedAiffLayout>)
    ensures
        match layout_of_parts(parts) {
            Ok(expected) => layout == Ok::<ParsedAiffLayout, Error>(expected),
            Err(expected) => layout matches Err(error) && error@ == expected,
        },
{
    let common = match parts.common {
        Some(common) => common,
        None => return Err(Error::InvalidPcmContainer("missing COMM chunk")),
    };
    let data_offset: u64 = match parts.data_offset {
        Some(offset) => offset,
        None => return Err(Error::InvalidPcmContainer("missing SSND chunk")),
    };
    let data_size: u64 = match parts.data_size {
        Some(size) => size,
        None => return Err(Error::InvalidPcmContainer("missing SSND data size")),
    };
    let envelope = match validate_common_chunk(common) {
        Ok(envelope) => envelope,
        Err(error) => return Err(error),
    };
    let width: u64 = (envelope.container_bits_per_sample / 8) as u64;
    assert(1 <= envelope.channels * width <= 32) by (nonlinear_arith)
        requires
            1 <= envelope.channels <= 8,
            1 <= width <= 4,
    ;
    let frame: u64 = envelope.channels as u64 * width;
    if data_size % frame != 0 {
        return Err(
            Error::InvalidPcmContainer("SSND audio data is not aligned to the sample frame size"),
        );
    }
    let total_samples: u64 = data_size / frame;
    if total_samples != common.sample_frames {
        return Err(
            Error::InvalidPcmContainer(
                "COMM sample frame count does not match SSND audio payload size",
            ),
        );
    }
    Ok(
        ParsedAiffLayout {
            envelope,
            sample_rate: common.sample_rate,
            total_samples,
            data_offset,
            data_size,
            byte_order: common.byte_order,
        },
    )
}

/// Reads the chunks up to the end of the file.
fn read_chunks(reader: &mut ByteReader, is_aifc: bool) -> (found: Result<AiffParts>)
    ensures
        final(reader).contents() == old(reader).contents(),
        match walk_chunks(
            old(reader).contents(),
            old(reader).at(),
            is_aifc,
            AiffParts { common: None, data_offset: None, data_size: None },
        ) {
            Ok(expected) => found == Ok::<AiffParts, Error>(expected),
            Err(expected) => found matches Err(error) && error@ == expected,
        },
{
    let mut parts = AiffParts { common: None, data_offset: None, data_size: None };
    let ghost bytes = reader.contents();
    let ghost whole = walk_chunks(bytes, reader.at(), is_aifc, parts);
    loop
        invariant
            reader.contents() == bytes,
            bytes == old(reader).contents(),
            walk_chunks(bytes, reader.at(), is_aifc, parts) == whole,
            whole == walk_chunks(
                old(reader).contents(),
                old(reader).at(),
                is_aifc,
                AiffParts { common: None, data_offset: None, data_size: None },
            ),
        ensures
            reader.contents() == bytes,
            whole == Ok::<AiffParts, ErrorView>(parts),
        decreases
                (if reader.at() <= bytes.len() {
                    bytes.len() - reader.at()
                } else {
                    0
                }),
    {
        let ghost position = reader.at();
        let header = match reader.read_exact(8) {
            Ok(header) => header,
            Err(_) => {
                break ;
            },
        };
        let id = slice_subrange(header.as_slice(), 0, 4);
        let chunk_size: u32 = {
            proof {
                lemma_byte_ranges();
            }
            read_be(header.as_slice(), 4, 4) as u32
        };
        proof {
            assert(id@ == bytes_at(bytes, position, 4));
            assert(header@.subrange(4, 8) == bytes_at(bytes, position + 4, 4));
        }
        let start: u64 = reader.position();
        if is_id(id, &COMM_CHUNK_ID) {
            match read_common_chunk(reader, chunk_size, is_aifc) {
                Ok(common) => {
                    parts.common = Some(common);
                },
                Err(error) => return Err(error),
            }
        } else if is_id(id, &SSND_CHUNK_ID) {
            match read_sound_data(reader, chunk_size) {
                Ok((offset, size)) => {
                    parts.data_offset = Some(offset);
                    parts.data_size = Some(size);
                },
                Err(error) => return Err(error),
            }
        }
        match skip_chunk(reader, start, chunk_size) {
            Ok(()) => {},
            Err(error) => return Err(error),
        }
    }
    Ok(parts)
}

/// Reads the layout of an AIFF or AIFC file. The reader may be left anywhere.
pub fn parse_aiff_layout(reader: &mut ByteReader) -> (layout: Result<ParsedAiffLayout>)
    ensures
        final(reader).contents() == old(reader).contents(),
        match aiff_layout(old(reader).contents(), old(reader).at()) {
            Ok(expected) => layout == Ok::<ParsedAiffLayout, Error>(expected),
            Err(expected) => layout matches Err(error) && error@ == expected,
        },
{
    let ghost bytes = reader.contents();
    let ghost position = reader.at();
    let header = match reader.read_exact(12) {
        Ok(header) => header,
        Err(error) => return Err(error),
    };
    let id = slice_subrange(header.as_slice(), 0, 4);
    assert(id@ == bytes_at(bytes, position, 4));
    if !is_id(id, &FORM_ID) {
        return Err(Error::InvalidPcmContainer("expected FORM header"));
    }
    let form_type = slice_subrange(header.as_slice(), 8, 12);
    assert(form_type@ == bytes_at(bytes, position + 8, 4));
    let is_aifc = is_id(form_type, &AIFC_FORM_TYPE);
    if !is_aifc && !is_id(form_type, &AIFF_FORM_TYPE) {
        return Err(Error::InvalidPcmContainer("expected AIFF or AIFC form type"));
    }
    match read_chunks(reader, is_aifc) {
        Ok(parts) => finish_layout(parts),
        Err(error) => Err(error),
    }
}

} // verus!
