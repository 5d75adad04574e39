//! The MD5 digest of a stream, and its check.

use vstd::prelude::*;

use crate::bytes::{bytes_equal, le_bytes, le_value, push_le_bytes, read_le};
use crate::error::{Error, ErrorView, Result};
use crate::pcm::{append_ordered_samples, container_bits_from_valid_bits, encoded_samples, lemma_encoded_samples_len, ByteOrder, PcmEnvelope, PcmSpec};

verus! {

/// The four words of the digest state.
#[derive(Debug, Clone, Copy, PartialEq, Eq, Structural)]
pub struct Md5State {
    pub a: u32,
    pub b: u32,
    pub c: u32,
    pub d: u32,
}

pub open spec fn initial_state() -> Md5State {
    Md5State { a: 0x6745_2301, b: 0xefcd_ab89, c: 0x98ba_dcfe, d: 0x1032_5476 }
}

/// The constant of a step: the integer part of 2^32 times the sine of its number.
pub open spec fn sine_constant(step: u8) -> u32 {
    match step {
        0 => 0xd76a_a478,
        1 => 0xe8c7_b756,
        2 => 0x2420_70db,
        3 => 0xc1bd_ceee,
        4 => 0xf57c_0faf,
        5 => 0x4787_c62a,
        6 => 0xa830_4613,
        7 => 0xfd46_9501,
        8 => 0x6980_98d8,
        9 => 0x8b44_f7af,
        10 => 0xffff_5bb1,
        11 => 0x895c_d7be,
        12 => 0x6b90_1122,
        13 => 0xfd98_7193,
        14 => 0xa679_438e,
        15 => 0x49b4_0821,
        16 => 0xf61e_2562,
        17 => 0xc040_b340,
        18 => 0x265e_5a51,
        19 => 0xe9b6_c7aa,
        20 => 0xd62f_105d,
        21 => 0x0244_1453,
        22 => 0xd8a1_e681,
        23 => 0xe7d3_fbc8,
        24 => 0x21e1_cde6,
        25 => 0xc337_07d6,
        26 => 0xf4d5_0d87,
        27 => 0x455a_14ed,
        28 => 0xa9e3_e905,
        29 => 0xfcef_a3f8,
        30 => 0x676f_02d9,
        31 => 0x8d2a_4c8a,
        32 => 0xfffa_3942,
        33 => 0x8771_f681,
        34 => 0x6d9d_6122,
        35 => 0xfde5_380c,
        36 => 0xa4be_ea44,
        37 => 0x4bde_cfa9,
        38 => 0xf6bb_4b60,
        39 => 0xbebf_bc70,
        40 => 0x289b_7ec6,
        41 => 0xeaa1_27fa,
        42 => 0xd4ef_3085,
        43 => 0x0488_1d05,
        44 => 0xd9d4_d039,
        45 => 0xe6db_99e5,
        46 => 0x1fa2_7cf8,
        47 => 0xc4ac_5665,
        48 => 0xf429_2244,
        49 => 0x432a_ff97,
        50 => 0xab94_23a7,
        51 => 0xfc93_a039,
        52 => 0x655b_59c3,
        53 => 0x8f0c_cc92,
        54 => 0xffef_f47d,
        55 => 0x8584_5dd1,
        56 => 0x6fa8_7e4f,
        57 => 0xfe2c_e6e0,
        58 => 0xa301_4314,
        59 => 0x4e08_11a1,
        60 => 0xf753_7e82,
        61 => 0xbd3a_f235,
        62 => 0x2ad7_d2bb,
        63 => 0xeb86_d391,
        _ => 0,
    }
}

/// The rotation of a step.
pub open spec fn rotation(step: u8) -> u32 {
    let turn = step % 4;
    if step < 16 {
        if turn == 0 {
            7
        } else if turn == 1 {
            12
        } else if turn == 2 {
            17
        } else {
            22
        }
    } else if step < 32 {
        if turn == 0 {
            5
        } else if turn == 1 {
            9
        } else if turn == 2 {
            14
        } else {
            20
        }
    } else if step < 48 {
        if turn == 0 {
            4
        } else if turn == 1 {
            11
        } else if turn == 2 {
            16
        } else {
            23
        }
    } else {
        if turn == 0 {
            6
        } else if turn == 1 {
            10
        } else if turn == 2 {
            15
        } else {
            21
        }
    }
}

/// The word of the block that a step mixes in.
pub open spec fn word_index(step: u8) -> int {
    if step < 16 {
        step as int
    } else if step < 32 {
        (5 * step + 1) % 16
    } else if step < 48 {
        (3 * step + 5) % 16
    } else {
        (7 * step) % 16
    }
}

/// The mixing function of a step.
pub open spec fn mixed(state: Md5State, step: u8) -> u32 {
    if step < 16 {
        (state.b & state.c) | ((!state.b) & state.d)
    } else if step < 32 {
        (state.d & state.b) | ((!state.d) & state.c)
    } else if step < 48 {
        state.b ^ state.c ^ state.d
    } else {
        state.c ^ (state.b | !state.d)
    }
}

pub open spec fn rotated_left(value: u32, count: u32) -> u32 {
    (value << count) | (value >> ((32 - count) as u32))
}

/// The words of a block.
pub open spec fn block_words(block: Seq<u8>) -> Seq<u32> {
    Seq::new(16, |i: int| le_value(block.subrange(4 * i, 4 * i + 4)) as u32)
}

/// One step of the compression.
pub open spec fn md5_step(state: Md5State, words: Seq<u32>, step: u8) -> Md5State {
    let sum = state.a.wrapping_add(mixed(state, step)).wrapping_add(
        sine_constant(step),
    ).wrapping_add(words[word_index(step)]);
    Md5State {
        a: state.d,
        b: state.b.wrapping_add(rotated_left(sum, rotation(step))),
        c: state.b,
        d: state.c,
    }
}

/// The first `count` steps of the compression.
pub open spec fn md5_steps(state: Md5State, words: Seq<u32>, count: nat) -> Md5State
    decreases count,
{
    if count == 0 {
        state
    } else {
        md5_step(md5_steps(state, words, (count - 1) as nat), words, (count - 1) as u8)
    }
}

/// The state after a block.
pub open spec fn compressed(state: Md5State, block: Seq<u8>) -> Md5State {
    let mixed = md5_steps(state, block_words(block), 64);
    Md5State {
        a: state.a.wrapping_add(mixed.a),
        b: state.b.wrapping_add(mixed.b),
        c: state.c.wrapping_add(mixed.c),
        d: state.d.wrapping_add(mixed.d),
    }
}

/// The state after the whole blocks of a message.
pub open spec fn state_after(message: Seq<u8>) -> Md5State
    decreases message.len(),
{
    if message.len() < 64 {
        initial_state()
    } else {
        let rest = (message.len() % 64) as int;
        let end = message.len() - rest;
        compressed(state_after(message.take(end - 64)), message.subrange(end - 64, end))
    }
}

/// What is appended to a message: a one bit, zero bits up to eight bytes before
/// the end of a block, and the length of the message in bits.
pub open spec fn md5_padding(length: nat) -> Seq<u8> {
    seq![0x80u8] + Seq::new(((119 - length % 64) % 64) as nat, |i: int| 0u8) + le_bytes(8 * length, 8)
}

/// The digest of a message.
pub open spec fn md5_of(message: Seq<u8>) -> Seq<u8> {
    let state = state_after(message + md5_padding(message.len()));
    le_bytes(state.a as nat, 4) + le_bytes(state.b as nat, 4) + le_bytes(state.c as nat, 4)
        + le_bytes(state.d as nat, 4)
}

fn sine(step: u8) -> (constant: u32)
    ensures
        constant == sine_constant(step),
{
    match step {
        0 => 0xd76a_a478,
        1 => 0xe8c7_b756,
        2 => 0x2420_70db,
        3 => 0xc1bd_ceee,
        4 => 0xf57c_0faf,
        5 => 0x4787_c62a,
        6 => 0xa830_4613,
        7 => 0xfd46_9501,
        8 => 0x6980_98d8,
        9 => 0x8b44_f7af,
        10 => 0xffff_5bb1,
        11 => 0x895c_d7be,
        12 => 0x6b90_1122,
        13 => 0xfd98_7193,
        14 => 0xa679_438e,
        15 => 0x49b4_0821,
        16 => 0xf61e_2562,
        17 => 0xc040_b340,
        18 => 0x265e_5a51,
        19 => 0xe9b6_c7aa,
        20 => 0xd62f_105d,
        21 => 0x0244_1453,
        22 => 0xd8a1_e681,
        23 => 0xe7d3_fbc8,
        24 => 0x21e1_cde6,
        25 => 0xc337_07d6,
        26 => 0xf4d5_0d87,
        27 => 0x455a_14ed,
        28 => 0xa9e3_e905,
        29 => 0xfcef_a3f8,
        30 => 0x676f_02d9,
        31 => 0x8d2a_4c8a,
        32 => 0xfffa_3942,
        33 => 0x8771_f681,
        34 => 0x6d9d_6122,
        35 => 0xfde5_380c,
        36 => 0xa4be_ea44,
        37 => 0x4bde_cfa9,
        38 => 0xf6bb_4b60,
        39 => 0xbebf_bc70,
        40 => 0x289b_7ec6,
        41 => 0xeaa1_27fa,
        42 => 0xd4ef_3085,
        43 => 0x0488_1d05,
        44 => 0xd9d4_d039,
        45 => 0xe6db_99e5,
        46 => 0x1fa2_7cf8,
        47 => 0xc4ac_5665,
        48 => 0xf429_2244,
        49 => 0x432a_ff97,
        50 => 0xab94_23a7,
        51 => 0xfc93_a039,
        52 => 0x655b_59c3,
        53 => 0x8f0c_cc92,
        54 => 0xffef_f47d,
        55 => 0x8584_5dd1,
        56 => 0x6fa8_7e4f,
        57 => 0xfe2c_e6e0,
        58 => 0xa301_4314,
        59 => 0x4e08_11a1,
        60 => 0xf753_7e82,
        61 => 0xbd3a_f235,
        62 => 0x2ad7_d2bb,
        63 => 0xeb86_d391,
        _ => 0,
    }
}

fn rotation_of(step: u8) -> (count: u32)
    ensures
        count == rotation(step),
        1 <= count <= 31,
{
    let turn: u8 = step % 4;
    if step < 16 {
        if turn == 0 {
            7
        } else if turn == 1 {
            12
        } else if turn == 2 {
            17
        } else {
            22
        }
    } else if step < 32 {
        if turn == 0 {
            5
        } else if turn == 1 {
            9
        } else if turn == 2 {
            14
        } else {
            20
        }
    } else if step < 48 {
        if turn == 0 {
            4
        } else if turn == 1 {
            11
        } else if turn == 2 {
            16
        } else {
            23
        }
    } else {
        if turn == 0 {
            6
        } else if turn == 1 {
            10
        } else if turn == 2 {
            15
        } else {
            21
        }
    }
}

fn word_of_step(step: u8) -> (index: usize)
    requires
        step < 64,
    ensures
        index == word_index(step),
        index < 16,
{
    let wide: usize = step as usize;
    if step < 16 {
        wide
    } else if step < 32 {
        (5 * wide + 1) % 16
    } else if step < 48 {
        (3 * wide + 5) % 16
    } else {
        (7 * wide) % 16
    }
}

fn mix(state: Md5State, step: u8) -> (value: u32)
    ensures
        value == mixed(state, step),
{
    if step < 16 {
        (state.b & state.c) | ((!state.b) & state.d)
    } else if step < 32 {
        (state.d & state.b) | ((!state.d) & state.c)
    } else if step < 48 {
        state.b ^ state.c ^ state.d
    } else {
        state.c ^ (state.b | !state.d)
    }
}

/// The state after a block.
fn compress(state: Md5State, block: &[u8]) -> (next: Md5State)
    requires
        block@.len() == 64,
    ensures
        next == compressed(state, block@),
{
    let mut words: Vec<u32> = Vec::new();
    let mut index: usize = 0;
    while index < 16
        invariant
            index <= 16,
            block@.len() == 64,
            words@.len() == index,
            forall|i: int| 0 <= i < index ==> #[trigger] words@[i] == block_words(block@)[i],
        decreases 16 - index,
    {
        proof {
            crate::bytes::lemma_byte_ranges();
        }
        words.push(read_le(block, 4 * index, 4) as u32);
        index = index + 1;
    }
    assert(words@ == block_words(block@));
    let mut current: Md5State = state;
    let mut step: u8 = 0;
    while step < 64
        invariant
            step <= 64,
            words@.len() == 16,
            words@ == block_words(block@),
            current == md5_steps(state, words@, step as nat),
        decreases 64 - step,
    {
        let sum: u32 = current.a.wrapping_add(mix(current, step)).wrapping_add(
            sine(step),
        ).wrapping_add(words[word_of_step(step)]);
        let count: u32 = rotation_of(step);
        let turned: u32 = (sum << count) | (sum >> (32 - count));
        current = Md5State {
            a: current.d,
            b: current.b.wrapping_add(turned),
            c: current.b,
            d: current.c,
        };
        step = step + 1;
    }
    Md5State {
        a: state.a.wrapping_add(current.a),
        b: state.b.wrapping_add(current.b),
        c: state.c.wrapping_add(current.c),
        d: state.d.wrapping_add(current.d),
    }
}

/// A running MD5 digest.
pub struct Md5 {
    state: Md5State,
    buffer: Vec<u8>,
    processed_bytes: u64,
    message: Ghost<Seq<u8>>,
}

impl View for Md5 {
    type V = Seq<u8>;

    /// The bytes that were digested so far.
    closed spec fn view(&self) -> Seq<u8> {
        self.message@
    }
}

impl Md5 {
    /// The state covers the whole blocks of the message, and the buffer the rest.
    closed spec fn holds(&self) -> bool {
        let length = self@.len() as int;
        &&& self.state == state_after(self@)
        &&& self.buffer@ == self@.skip(length - length % 64)
    }

    /// The digest is consistent with the bytes that it was given.
    pub closed spec fn is_valid(&self) -> bool {
        self.holds() && self.processed_bytes == self@.len()
    }

    /// A digest of nothing so far.
    pub fn new() -> (md5: Self)
        ensures
            md5.is_valid(),
            md5@ == Seq::<u8>::empty(),
    {
        let md5 = Md5 {
            state: Md5State {
                a: 0x6745_2301,
                b: 0xefcd_ab89,
                c: 0x98ba_dcfe,
                d: 0x1032_5476,
            },
            buffer: Vec::new(),
            processed_bytes: 0,
            message: Ghost(Seq::empty()),
        };
        assert(md5.buffer@ == md5@.skip(0));
        md5
    }

    /// Digests one more byte.
    fn absorb(&mut self, byte: u8)
        requires
            old(self).holds(),
        ensures
            final(self).holds(),
            final(self)@ == old(self)@.push(byte),
            final(self).processed_bytes == old(self).processed_bytes,
    {
        let ghost before = self@;
        let ghost after = before.push(byte);
        self.message = Ghost(after);
        self.buffer.push(byte);
        let ghost full = (after.len() - after.len() % 64) as int;
        proof {
            lemma_state_of_blocks(before);
            lemma_state_of_blocks(after);
        }
        if self.buffer.len() == 64 {
            self.state = compress(self.state, self.buffer.as_slice());
            proof {
                assert(after.len() % 64 == 0);
                assert(self.buffer@ == after.subrange(after.len() - 64, after.len() as int));
                assert(before.take(before.len() - before.len() % 64) == after.take(
                    after.len() - 64,
                ));
            }
            self.buffer = Vec::new();
            assert(self.buffer@ == after.skip(after.len() as int));
        } else {
            proof {
                assert(before.take(before.len() - before.len() % 64) == after.take(full));
                assert(self.buffer@ == after.skip(full));
            }
        }
    }

    /// Digests more bytes.
    pub fn update(&mut self, input: &[u8])
        requires
            old(self).is_valid(),
            old(self)@.len() + input@.len() <= u64::MAX,
        ensures
            final(self).is_valid(),
            final(self)@ == old(self)@ + input@,
    {
        self.processed_bytes = self.processed_bytes + input.len() as u64;
        let mut index: usize = 0;
        assert(self@ + input@.take(0) == self@);
        while index < input.len()
            invariant
                index <= input@.len(),
                self.holds(),
                self@ == old(self)@ + input@.take(index as int),
                self.processed_bytes == old(self)@.len() + input@.len(),
            decreases input.len() - index,
        {
            assert(input@.take(index as int).push(input@[index as int]) == input@.take(index + 1));
            self.absorb(input[index]);
            assert(self@ == old(self)@ + input@.take(index + 1));
            index = index + 1;
        }
        assert(input@.take(index as int) == input@);
    }

    /// The digest of everything that was given.
    pub fn finalize(self) -> (digest: Vec<u8>)
        requires
            self.is_valid(),
            self@.len() * 8 <= u64::MAX,
        ensures
            digest@ == md5_of(self@),
            digest@.len() == 16,
    {
        let mut md5 = self;
        let ghost message = self@;
        let length: u64 = md5.processed_bytes;
        let mut padding: Vec<u8> = Vec::new();
        padding.push(0x80);
        let zeros: u64 = (119 - length % 64) % 64;
        let mut index: u64 = 0;
        while index < zeros
            invariant
                index <= zeros < 64,
                padding@ == seq![0x80u8] + Seq::new(index as nat, |i: int| 0u8),
            decreases zeros - index,
        {
            padding.push(0);
            index = index + 1;
            assert(padding@ == seq![0x80u8] + Seq::new(index as nat, |i: int| 0u8));
        }
        push_le_bytes(&mut padding, length * 8, 8);
        proof {
            crate::bytes::lemma_byte_ranges();
            crate::bytes::law_le_bytes_read_back((length * 8) as nat, 8);
        }
        assert(padding@ == md5_padding(message.len()));
        let mut place: usize = 0;
        assert(md5@ + padding@.take(0) == md5@);
        while place < padding.len()
            invariant
                place <= padding@.len(),
                md5.holds(),
                md5@ == message + padding@.take(place as int),
            decreases padding.len() - place,
        {
            assert(padding@.take(place as int).push(padding@[place as int]) == padding@.take(
                place + 1,
            ));
            md5.absorb(padding[place]);
            assert(md5@ == message + padding@.take(place + 1));
            place = place + 1;
        }
        assert(padding@.take(place as int) == padding@);
        let state = md5.state;
        proof {
            crate::bytes::law_le_bytes_read_back(state.a as nat, 4);
            crate::bytes::law_le_bytes_read_back(state.b as nat, 4);
            crate::bytes::law_le_bytes_read_back(state.c as nat, 4);
            crate::bytes::law_le_bytes_read_back(state.d as nat, 4);
        }
        let mut digest: Vec<u8> = Vec::new();
        push_le_bytes(&mut digest, state.a as u64, 4);
        push_le_bytes(&mut digest, state.b as u64, 4);
        push_le_bytes(&mut digest, state.c as u64, 4);
        push_le_bytes(&mut digest, state.d as u64, 4);
        assert(digest@ == md5_of(message));
        digest
    }
}

/// The state depends only on the whole blocks.
proof fn lemma_state_of_blocks(message: Seq<u8>)
    ensures
        state_after(message.take(message.len() - message.len() % 64)) == state_after(message),
{
    let end = (message.len() - message.len() % 64) as int;
    let whole = message.take(end);
    if message.len() >= 64 {
        assert(whole.take(end - 64) == message.take(end - 64));
        assert(whole.subrange(end - 64, end) == message.subrange(end - 64, end));
    }
}

/// The digest of a byte string.
pub fn digest_bytes(bytes: &[u8]) -> (digest: Vec<u8>)
    requires
        bytes@.len() * 8 <= u64::MAX,
    ensures
        digest@ == md5_of(bytes@),
        digest@.len() == 16,
{
    let mut md5 = Md5::new();
    assert(Seq::<u8>::empty() + bytes@ == bytes@);
    md5.update(bytes);
    md5.finalize()
}

/// The digest of an empty stream.
pub const EMPTY_STREAM_MD5: [u8; 16] = [
    0xd4,
    0x1d,
    0x8c,
    0xd9,
    0x8f,
    0x00,
    0xb2,
    0x04,
    0xe9,
    0x80,
    0x09,
    0x98,
    0xec,
    0xf8,
    0x42,
    0x7e,
];

/// How the samples of a stream are laid out for its digest.
pub open spec fn digest_envelope(spec: PcmSpec) -> PcmEnvelope {
    PcmEnvelope {
        channels: spec.channels as u16,
        valid_bits_per_sample: spec.bits_per_sample as u16,
        container_bits_per_sample: crate::pcm::container_bits(spec.bits_per_sample as u16),
        channel_mask: spec.channel_mask,
    }
}

fn envelope_for_digest(spec: PcmSpec) -> (envelope: PcmEnvelope)
    ensures
        envelope == digest_envelope(spec),
{
    PcmEnvelope {
        channels: spec.channels as u16,
        valid_bits_per_sample: spec.bits_per_sample as u16,
        container_bits_per_sample: container_bits_from_valid_bits(spec.bits_per_sample as u16),
        channel_mask: spec.channel_mask,
    }
}

/// A running digest of the samples of a stream.
pub struct StreaminfoMd5 {
    md5: Md5,
    envelope: PcmEnvelope,
}

impl StreaminfoMd5 {
    /// The bytes that were digested so far.
    pub closed spec fn digested(&self) -> Seq<u8> {
        self.md5@
    }

    /// How samples are laid out.
    pub closed spec fn layout(&self) -> PcmEnvelope {
        self.envelope
    }

    /// The digest is consistent with the bytes that it was given.
    pub closed spec fn is_valid(&self) -> bool {
        self.md5.is_valid()
    }

    /// A digest of no samples so far.
    pub fn new(spec: PcmSpec) -> (md5: Self)
        ensures
            md5.is_valid(),
            md5.digested() == Seq::<u8>::empty(),
            md5.layout() == digest_envelope(spec),
    {
        StreaminfoMd5 { md5: Md5::new(), envelope: envelope_for_digest(spec) }
    }

    /// Digests samples. It fails where a sample does not fit in its width, and
    /// then digests none of them.
    pub fn update_samples(&mut self, samples: &[i32]) -> (result: Result<()>)
        requires
            old(self).is_valid(),
            old(self).digested().len() + 4 * samples@.len() <= u64::MAX,
        ensures
            final(self).is_valid(),
            final(self).layout() == old(self).layout(),
            match encoded_samples(samples@, old(self).layout(), ByteOrder::Little) {
                Ok(bytes) => result is Ok && final(self).digested() == old(self).digested()
                    + bytes,
                Err(expected) => result matches Err(error) && error@ == expected
                    && final(self).digested() == old(self).digested(),
            },
    {
        let mut buffer: Vec<u8> = Vec::new();
        match append_ordered_samples(&mut buffer, samples, self.envelope, ByteOrder::Little) {
            Ok(()) => {},
            Err(error) => return Err(error),
        }
        proof {
            lemma_encoded_samples_len(samples@, self.envelope, ByteOrder::Little);
            let width = (self.envelope.container_bits_per_sample / 8) as int;
            assert(samples@.len() * width <= 4 * samples@.len()) by (nonlinear_arith)
                requires
                    samples@.len() == 0 || width <= 4,
                    samples@.len() >= 0,
            ;
            assert(buffer@ == encoded_samples(
                samples@,
                self.envelope,
                ByteOrder::Little,
            )->Ok_0);
        }
        self.md5.update(buffer.as_slice());
        Ok(())
    }

    /// Digests bytes that already have the layout of the stream.
    pub fn update_bytes(&mut self, bytes: &[u8])
        requires
            old(self).is_valid(),
            old(self).digested().len() + bytes@.len() <= u64::MAX,
        ensures
            final(self).is_valid(),
            final(self).layout() == old(self).layout(),
            final(self).digested() == old(self).digested() + bytes@,
    {
        self.md5.update(bytes);
    }

    /// The digest of everything that was given.
    pub fn finalize(self) -> (digest: Result<Vec<u8>>)
        requires
            self.is_valid(),
            self.digested().len() * 8 <= u64::MAX,
        ensures
            digest matches Ok(bytes) && bytes@ == md5_of(self.digested()),
    {
        Ok(self.md5.finalize())
    }
}

/// The digest that a stream header carries for samples, or why there is none.
pub open spec fn streaminfo_digest(spec: PcmSpec, samples: Seq<i32>) -> std::result::Result<
    Seq<u8>,
    ErrorView,
> {
    match encoded_samples(samples, digest_envelope(spec), ByteOrder::Little) {
        Ok(bytes) => Ok(md5_of(bytes)),
        Err(error) => Err(error),
    }
}

/// The digest that a stream header carries for samples.
pub fn streaminfo_md5(spec: PcmSpec, samples: &[i32]) -> (digest: Result<Vec<u8>>)
    requires
        samples@.len() * 32 <= u64::MAX,
    ensures
        match streaminfo_digest(spec, samples@) {
            Ok(expected) => digest matches Ok(bytes) && bytes@ == expected,
            Err(expected) => digest matches Err(error) && error@ == expected,
        },
{
    let mut md5 = StreaminfoMd5::new(spec);
    match md5.update_samples(samples) {
        Ok(()) => {},
        Err(error) => return Err(error),
    }
    proof {
        let envelope = digest_envelope(spec);
        lemma_encoded_samples_len(samples@, envelope, ByteOrder::Little);
        let bytes = encoded_samples(samples@, envelope, ByteOrder::Little)->Ok_0;
        assert(Seq::<u8>::empty() + bytes == bytes);
        let width = (envelope.container_bits_per_sample / 8) as int;
        assert(samples@.len() * width <= 4 * samples@.len()) by (nonlinear_arith)
            requires
                samples@.len() == 0 || width <= 4,
                samples@.len() >= 0,
        ;
    }
    md5.finalize()
}

/// A digest of zeros stands for an unknown digest.
pub open spec fn is_unknown_digest(digest: Seq<u8>) -> bool {
    digest == Seq::new(16, |i: int| 0u8)
}

/// Checks the digest of decoded samples against the one in the stream header,
/// which is taken as it is where it is unknown.
pub fn verify_streaminfo_digest(actual_md5: &[u8], expected_md5: &[u8]) -> (result: Result<()>)
    ensures
        result is Ok <==> is_unknown_digest(expected_md5@) || actual_md5@ == expected_md5@,
        result matches Err(error) ==> error@ == ErrorView::InvalidFlac(
            "STREAMINFO MD5 mismatch"@,
        ),
{
    let mut zeros: Vec<u8> = Vec::new();
    while zeros.len() < 16
        invariant
            zeros@.len() <= 16,
            zeros@ == Seq::new(zeros@.len(), |i: int| 0u8),
        decreases 16 - zeros@.len(),
    {
        zeros.push(0);
        assert(zeros@ == Seq::new(zeros@.len(), |i: int| 0u8));
    }
    if bytes_equal(expected_md5, zeros.as_slice()) || bytes_equal(actual_md5, expected_md5) {
        Ok(())
    } else {
        Err(Error::InvalidFlac("STREAMINFO MD5 mismatch"))
    }
}

/// Checks the digest of samples against the one in the stream header.
pub fn verify_streaminfo_md5(spec: PcmSpec, samples: &[i32], expected_md5: &[u8]) -> (result:
    Result<()>)
    requires
        samples@.len() * 32 <= u64::MAX,
    ensures
        match streaminfo_digest(spec, samples@) {
            Ok(digest) => {
                &&& result is Ok <==> is_unknown_digest(expected_md5@) || digest == expected_md5@
                &&& result matches Err(error) ==> error@ == ErrorView::InvalidFlac(
                    "STREAMINFO MD5 mismatch"@,
                )
            },
            Err(expected) => result matches Err(error) && error@ == expected,
        },
{
    match streaminfo_md5(spec, samples) {
        Ok(digest) => verify_streaminfo_digest(digest.as_slice(), expected_md5),
        Err(error) => Err(error),
    }
}

} // verus!
