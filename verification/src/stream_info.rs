//! The STREAMINFO block of a FLAC stream.

use vstd::prelude::*;

use crate::bytes::{append_bytes, be_bytes, be_value, law_be_bytes_read_back, lemma_byte_ranges, push_be_bytes};
use crate::pcm::PcmSpec;

verus! {

/// What a FLAC stream says of itself.
#[derive(Debug, Clone, Copy, PartialEq, Eq)]
pub struct StreamInfo {
    /// Smallest block size in samples.
    pub min_block_size: u16,
    /// Largest block size in samples.
    pub max_block_size: u16,
    /// Smallest frame size in bytes, 0 where it is not known.
    pub min_frame_size: u32,
    /// Largest frame size in bytes, 0 where it is not known.
    pub max_frame_size: u32,
    /// Samples per second.
    pub sample_rate: u32,
    /// Number of channels.
    pub channels: u8,
    /// Bits of each sample.
    pub bits_per_sample: u8,
    /// Samples per channel.
    pub total_samples: u64,
    /// Digest of the samples.
    pub md5: [u8; 16],
}

/// The fields of a STREAMINFO block can hold the values.
pub open spec fn info_fits(info: StreamInfo) -> bool {
    &&& info.sample_rate < 0x10_0000
    &&& 1 <= info.channels <= 8
    &&& 1 <= info.bits_per_sample <= 32
    &&& info.total_samples < 0x10_0000_0000
}

/// The sample rate, channels, sample width and length as one number.
pub open spec fn info_word(info: StreamInfo) -> nat {
    (info.sample_rate * 0x1000_0000_0000 + (info.channels - 1) * 0x200_0000_0000 + (
    info.bits_per_sample - 1) * 0x10_0000_0000 + info.total_samples) as nat
}

/// The payload of a STREAMINFO block up to the digest.
pub open spec fn info_numbers(info: StreamInfo) -> Seq<u8> {
    be_bytes(info.min_block_size as nat, 2) + be_bytes(info.max_block_size as nat, 2) + be_bytes(
        info.min_frame_size as nat,
        3,
    ) + be_bytes(info.max_frame_size as nat, 3) + be_bytes(info_word(info), 8)
}

/// The payload of a STREAMINFO block.
pub open spec fn info_bytes(info: StreamInfo) -> Seq<u8> {
    info_numbers(info) + info.md5@
}

/// The smaller of two frame sizes, of which the first may be unknown.
pub open spec fn smaller_size(known: u32, size: u32) -> u32 {
    if known == 0 || size < known {
        size
    } else {
        known
    }
}

/// The larger of two frame sizes.
pub open spec fn larger_size(known: u32, size: u32) -> u32 {
    if size > known {
        size
    } else {
        known
    }
}

/// What is known of a stream after one more frame.
pub open spec fn with_frame_size(info: StreamInfo, size: u32) -> StreamInfo {
    StreamInfo {
        min_frame_size: smaller_size(info.min_frame_size, size),
        max_frame_size: larger_size(info.max_frame_size, size),
        ..info
    }
}

impl StreamInfo {
    /// What is known of a stream before its first frame.
    pub fn new(spec: PcmSpec, min_block_size: u16, max_block_size: u16) -> (info: Self)
        ensures
            info == new_info(spec, min_block_size, max_block_size),
    {
        let info = StreamInfo {
            min_block_size,
            max_block_size,
            min_frame_size: 0,
            max_frame_size: 0,
            sample_rate: spec.sample_rate,
            channels: spec.channels,
            bits_per_sample: spec.bits_per_sample,
            total_samples: spec.total_samples,
            md5: [0, 0, 0, 0, 0, 0, 0, 0, 0, 0, 0, 0, 0, 0, 0, 0],
        };
        info
    }

    /// Takes in the size of one more frame.
    pub fn update_frame_size(&mut self, size: u32)
        ensures
            *final(self) == with_frame_size(*old(self), size),
    {
        if self.min_frame_size == 0 || size < self.min_frame_size {
            self.min_frame_size = size;
        }
        if size > self.max_frame_size {
            self.max_frame_size = size;
        }
    }

    /// The payload of a STREAMINFO block.
    pub fn to_bytes(&self) -> (bytes: Vec<u8>)
        requires
            info_fits(*self),
        ensures
            bytes@ == info_bytes(*self),
    {
        let mut bytes: Vec<u8> = Vec::new();
        push_be_bytes(&mut bytes, self.min_block_size as u64, 2);
        push_be_bytes(&mut bytes, self.max_block_size as u64, 2);
        push_be_bytes(&mut bytes, self.min_frame_size as u64, 3);
        push_be_bytes(&mut bytes, self.max_frame_size as u64, 3);
        let word: u64 = self.sample_rate as u64 * 0x1000_0000_0000 + (self.channels as u64 - 1)
            * 0x200_0000_0000 + (self.bits_per_sample as u64 - 1) * 0x10_0000_0000
            + self.total_samples;
        push_be_bytes(&mut bytes, word, 8);
        append_bytes(&mut bytes, self.md5.as_slice());
        bytes
    }
}

/// What is known of a stream before its first frame.
pub open spec fn new_info(spec: PcmSpec, min_block_size: u16, max_block_size: u16) -> StreamInfo {
    StreamInfo {
        min_block_size,
        max_block_size,
        min_frame_size: 0,
        max_frame_size: 0,
        sample_rate: spec.sample_rate,
        channels: spec.channels,
        bits_per_sample: spec.bits_per_sample,
        total_samples: spec.total_samples,
        md5: [0, 0, 0, 0, 0, 0, 0, 0, 0, 0, 0, 0, 0, 0, 0, 0],
    }
}

/// A digest as an array.
pub fn digest_array(digest: &[u8]) -> (array: [u8; 16])
    requires
        digest@.len() == 16,
    ensures
        array@ == digest@,
{
    let array: [u8; 16] = [
        digest[0],
        digest[1],
        digest[2],
        digest[3],
        digest[4],
        digest[5],
        digest[6],
        digest[7],
        digest[8],
        digest[9],
        digest[10],
        digest[11],
        digest[12],
        digest[13],
        digest[14],
        digest[15],
    ];
    assert(array@ == digest@);
    array
}

/// The numbers of a STREAMINFO payload.
pub struct InfoFields {
    pub min_block_size: nat,
    pub max_block_size: nat,
    pub min_frame_size: nat,
    pub max_frame_size: nat,
    pub sample_rate: nat,
    pub channels: nat,
    pub bits_per_sample: nat,
    pub total_samples: nat,
    pub md5: Seq<u8>,
}

/// Reads the numbers of a STREAMINFO payload.
pub open spec fn read_info(bytes: Seq<u8>) -> InfoFields {
    let word = be_value(bytes.subrange(10, 18));
    InfoFields {
        min_block_size: be_value(bytes.subrange(0, 2)),
        max_block_size: be_value(bytes.subrange(2, 4)),
        min_frame_size: be_value(bytes.subrange(4, 7)),
        max_frame_size: be_value(bytes.subrange(7, 10)),
        sample_rate: word / 0x1000_0000_0000,
        channels: (word / 0x200_0000_0000) % 8 + 1,
        bits_per_sample: (word / 0x10_0000_0000) % 32 + 1,
        total_samples: word % 0x10_0000_0000,
        md5: bytes.skip(18),
    }
}

/// What a STREAMINFO block says is read back from its payload.
pub proof fn law_stream_info_reads_back(info: StreamInfo)
    requires
        info_fits(info),
        info.min_frame_size < 0x100_0000,
        info.max_frame_size < 0x100_0000,
    ensures
        info_bytes(info).len() == 34,
        read_info(info_bytes(info)) == (InfoFields {
            min_block_size: info.min_block_size as nat,
            max_block_size: info.max_block_size as nat,
            min_frame_size: info.min_frame_size as nat,
            max_frame_size: info.max_frame_size as nat,
            sample_rate: info.sample_rate as nat,
            channels: info.channels as nat,
            bits_per_sample: info.bits_per_sample as nat,
            total_samples: info.total_samples as nat,
            md5: info.md5@,
        }),
{
    lemma_word(info);
    lemma_fields(info);
}

/// The numbers that share a word are told apart.
pub proof fn lemma_word(info: StreamInfo)
    requires
        info_fits(info),
    ensures
        ({
            let word = info_word(info);
            &&& word < 0x1_0000_0000_0000_0000
            &&& word / 0x1000_0000_0000 == info.sample_rate
            &&& (word / 0x200_0000_0000) % 8 + 1 == info.channels
            &&& (word / 0x10_0000_0000) % 32 + 1 == info.bits_per_sample
            &&& word % 0x10_0000_0000 == info.total_samples
        }),
{
}

/// The bytes of each number.
proof fn lemma_fields(info: StreamInfo)
    requires
        info_word(info) < 0x1_0000_0000_0000_0000,
        info.min_frame_size < 0x100_0000,
        info.max_frame_size < 0x100_0000,
    ensures
        ({
            let bytes = info_bytes(info);
            &&& bytes.len() == 34
            &&& be_value(bytes.subrange(0, 2)) == info.min_block_size
            &&& be_value(bytes.subrange(2, 4)) == info.max_block_size
            &&& be_value(bytes.subrange(4, 7)) == info.min_frame_size
            &&& be_value(bytes.subrange(7, 10)) == info.max_frame_size
            &&& be_value(bytes.subrange(10, 18)) == info_word(info)
            &&& bytes.skip(18) == info.md5@
        }),
{
    let bytes = info_bytes(info);
    let word = info_word(info);
    lemma_byte_ranges();
    law_be_bytes_read_back(info.min_block_size as nat, 2);
    law_be_bytes_read_back(info.max_block_size as nat, 2);
    law_be_bytes_read_back(info.min_frame_size as nat, 3);
    law_be_bytes_read_back(info.max_frame_size as nat, 3);
    law_be_bytes_read_back(word, 8);
    lemma_five_pieces(
        be_bytes(info.min_block_size as nat, 2),
        be_bytes(info.max_block_size as nat, 2),
        be_bytes(info.min_frame_size as nat, 3),
        be_bytes(info.max_frame_size as nat, 3),
        be_bytes(word, 8),
        info.md5@,
    );
}

proof fn lemma_five_pieces(
    first: Seq<u8>,
    second: Seq<u8>,
    third: Seq<u8>,
    fourth: Seq<u8>,
    fifth: Seq<u8>,
    rest: Seq<u8>,
)
    requires
        first.len() == 2,
        second.len() == 2,
        third.len() == 3,
        fourth.len() == 3,
        fifth.len() == 8,
    ensures
        ({
            let bytes = first + second + third + fourth + fifth + rest;
            &&& bytes.subrange(0, 2) == first
            &&& bytes.subrange(2, 4) == second
            &&& bytes.subrange(4, 7) == third
            &&& bytes.subrange(7, 10) == fourth
            &&& bytes.subrange(10, 18) == fifth
            &&& bytes.skip(18) == rest
        }),
{
    let bytes = first + second + third + fourth + fifth + rest;
    assert(bytes.subrange(0, 2) == first);
    assert(bytes.subrange(2, 4) == second);
    assert(bytes.subrange(4, 7) == third);
    assert(bytes.subrange(7, 10) == fourth);
    assert(bytes.subrange(10, 18) == fifth);
    assert(bytes.skip(18) == rest);
}

} // verus!
