//! Stored samples that are read frame by frame.

use vstd::arithmetic::div_mod::{lemma_div_by_multiple, lemma_div_is_ordered, lemma_fundamental_div_mod, lemma_mod_bound};
use vstd::arithmetic::mul::{lemma_mul_inequality, lemma_mul_is_associative, lemma_mul_is_commutative, lemma_mul_is_distributive_sub_other_way};
use vstd::prelude::*;

use crate::byte_reader::{end_of_file, ByteReader};
use crate::error::{Error, ErrorView, Result};
use crate::pcm::{decode_samples, is_container, stored_samples, ByteOrder, PcmEnvelope};
use crate::stream::{frames_due, handed_out};

verus! {

/// A reader at stored samples, and the number of frames that it is to hand out.
#[derive(Debug, Clone)]
pub struct SampleSource {
    reader: ByteReader,
    envelope: PcmEnvelope,
    order: ByteOrder,
    remaining_frames: u64,
}

/// The bytes that a frame takes.
pub open spec fn frame_size(envelope: PcmEnvelope) -> nat {
    (envelope.channels * (envelope.container_bits_per_sample / 8)) as nat
}

/// Samples can be stored this way.
pub open spec fn is_storable(envelope: PcmEnvelope) -> bool {
    &&& envelope.channels >= 1
    &&& is_container(envelope.container_bits_per_sample)
    &&& 1 <= envelope.valid_bits_per_sample <= envelope.container_bits_per_sample
}

/// What lies behind a position in bytes.
pub open spec fn bytes_from(bytes: Seq<u8>, position: nat) -> Seq<u8> {
    if position <= bytes.len() {
        bytes.skip(position as int)
    } else {
        Seq::empty()
    }
}

/// The samples of at most `frames` frames that bytes hold.
pub open spec fn held_samples(
    bytes: Seq<u8>,
    frames: nat,
    envelope: PcmEnvelope,
    order: ByteOrder,
) -> Seq<i32> {
    stored_samples(
        if frames * frame_size(envelope) <= bytes.len() {
            bytes.take((frames * frame_size(envelope)) as int)
        } else {
            bytes
        },
        envelope,
        order,
    )
}

/// The number of frames that are asked for and still to be handed out.
pub open spec fn frames_asked(left: nat, max_frames: nat) -> nat {
    if left <= max_frames {
        left
    } else {
        max_frames
    }
}

/// Why a number of frames cannot be read from bytes, if they cannot.
pub open spec fn read_failure(
    bytes: Seq<u8>,
    frames: nat,
    envelope: PcmEnvelope,
    overflow: Seq<char>,
) -> Option<ErrorView> {
    let count = frames * frame_size(envelope);
    if count > usize::MAX {
        Some(ErrorView::UnsupportedPcmContainer(overflow))
    } else if count > bytes.len() {
        Some(end_of_file())
    } else {
        None
    }
}

/// The error of a read of frames for which there are no bytes, where there are such frames
/// and their bytes can be counted.
pub open spec fn shortage(bytes: nat, left: nat, envelope: PcmEnvelope) -> Option<ErrorView> {
    let size = left * frame_size(envelope);
    if size <= bytes || size > usize::MAX {
        None
    } else {
        Some(end_of_file())
    }
}

/// Where there are not bytes for all frames, the frames for which there are can be read, and
/// no others.
pub proof fn lemma_short_source(
    bytes: Seq<u8>,
    left: nat,
    envelope: PcmEnvelope,
    order: ByteOrder,
    max_frames: nat,
    overflow: Seq<char>,
)
    requires
        is_storable(envelope),
        shortage(bytes.len(), left, envelope) is Some,
    ensures
        ({
            let frames = frames_asked(left, max_frames);
            let size = (frames * frame_size(envelope)) as int;
            if max_frames * envelope.channels <= held_samples(bytes, left, envelope, order).len() {
                &&& frames == max_frames
                &&& read_failure(bytes, frames, envelope, overflow) is None
                &&& shortage((bytes.len() - size) as nat, (left - frames) as nat, envelope)
                    == shortage(bytes.len(), left, envelope)
            } else {
                read_failure(bytes, frames, envelope, overflow) == shortage(
                    bytes.len(),
                    left,
                    envelope,
                )
            }
        }),
{
    let width = (envelope.container_bits_per_sample / 8) as int;
    let channels = envelope.channels as int;
    let unit = frame_size(envelope) as int;
    let frames = frames_asked(left, max_frames);
    let held = bytes.len() as int / width;
    lemma_fundamental_div_mod(bytes.len() as int, width);
    lemma_mod_bound(bytes.len() as int, width);
    lemma_mul_is_commutative(width, held);
    lemma_mul_is_associative(max_frames as int, channels, width);
    lemma_mul_inequality(frames as int, left as int, unit);
    assert(max_frames * channels * width == max_frames * unit);
    if max_frames * channels <= held {
        lemma_mul_inequality(max_frames * channels, held, width);
        assert(max_frames * unit <= bytes.len());
        if max_frames >= left {
            lemma_mul_inequality(left as int, max_frames as int, unit);
            assert(false);
        }
        lemma_mul_is_distributive_sub_other_way(unit, left as int, frames as int);
        assert(frames * unit >= 0) by (nonlinear_arith)
            requires
                frames >= 0,
                unit >= 0,
        ;
    } else {
        lemma_mul_inequality(held + 1, max_frames * channels, width);
        assert((held + 1) * width == held * width + width) by (nonlinear_arith);
        assert(max_frames * unit > bytes.len());
    }
}

/// The first samples of stored samples are those of their first bytes, and the others
/// those of the bytes behind.
proof fn lemma_stored_prefix(data: Seq<u8>, count: nat, envelope: PcmEnvelope, order: ByteOrder)
    requires
        is_storable(envelope),
        count * (envelope.container_bits_per_sample / 8) <= data.len(),
    ensures
        ({
            let size = (count * (envelope.container_bits_per_sample / 8)) as int;
            let samples = stored_samples(data, envelope, order);
            &&& count <= samples.len()
            &&& stored_samples(data.take(size), envelope, order) == samples.take(count as int)
            &&& stored_samples(data.skip(size), envelope, order) == samples.skip(count as int)
        }),
{
    let width = (envelope.container_bits_per_sample / 8) as int;
    let size = (count * width) as int;
    let samples = stored_samples(data, envelope, order);
    lemma_div_by_multiple(count as int, width);
    lemma_div_is_ordered(size, data.len() as int, width);
    let head = stored_samples(data.take(size), envelope, order);
    let tail = stored_samples(data.skip(size), envelope, order);
    assert forall|i: int| 0 <= i < count implies head[i] == samples[i] by {
        lemma_mul_inequality(i + 1, count as int, width);
        assert((i + 1) * width == i * width + width) by (nonlinear_arith);
        assert(i * width >= 0) by (nonlinear_arith)
            requires
                i >= 0,
                width >= 0,
        ;
        assert(data.take(size).subrange(i * width, i * width + width) == data.subrange(
            i * width,
            i * width + width,
        ));
    }
    assert(head == samples.take(count as int));
    assert((data.len() - size) / width == data.len() as int / width - count) by {
        vstd::arithmetic::div_mod::lemma_hoist_over_denominator(
            data.len() as int,
            -(count as int),
            width as nat,
        );
        assert(-(count as int) * width == -size) by (nonlinear_arith)
            requires
                size == count * width,
        ;
    }
    assert forall|i: int| 0 <= i < samples.len() - count implies tail[i] == samples[i + count] by {
        assert((i + count) * width == i * width + size) by (nonlinear_arith)
            requires
                size == count * width,
        ;
        lemma_fundamental_div_mod(data.len() as int, width);
        lemma_mul_inequality(i + count + 1, data.len() as int / width, width);
        lemma_mul_is_commutative(width, data.len() as int / width);
        assert((i + count + 1) * width == i * width + size + width) by (nonlinear_arith)
            requires
                size == count * width,
        ;
        assert(i * width >= 0) by (nonlinear_arith)
            requires
                i >= 0,
                width >= 0,
        ;
        assert(data.skip(size).subrange(i * width, i * width + width) == data.subrange(
            (i + count) * width,
            (i + count) * width + width,
        ));
    }
    assert(tail == samples.skip(count as int));
}

impl SampleSource {
    /// The bytes behind the reader's position.
    pub closed spec fn bytes(&self) -> Seq<u8> {
        bytes_from(self.reader.contents(), self.reader.at())
    }

    /// The number of frames still to be handed out.
    pub closed spec fn left(&self) -> nat {
        self.remaining_frames as nat
    }

    /// How the samples are stored.
    pub closed spec fn layout(&self) -> PcmEnvelope {
        self.envelope
    }

    /// The order of the bytes of a sample.
    pub closed spec fn byte_order(&self) -> ByteOrder {
        self.order
    }

    /// The samples still to be handed out, as far as there are bytes for them.
    pub open spec fn upcoming(&self) -> Seq<i32> {
        held_samples(self.bytes(), self.left(), self.layout(), self.byte_order())
    }

    /// There are bytes for all frames.
    pub open spec fn is_complete(&self) -> bool {
        self.left() * frame_size(self.layout()) <= self.bytes().len()
    }

    /// A source of `frames` frames that are stored at a reader's position.
    pub fn new(reader: ByteReader, envelope: PcmEnvelope, order: ByteOrder, frames: u64) -> (source:
        Self)
        ensures
            source.bytes() == bytes_from(reader.contents(), reader.at()),
            source.left() == frames,
            source.layout() == envelope,
            source.byte_order() == order,
    {
        SampleSource { reader, envelope, order, remaining_frames: frames }
    }

    /// The bytes that a frame takes.
    pub fn frame_bytes(&self) -> (bytes: usize)
        requires
            is_storable(self.layout()),
        ensures
            bytes == frame_size(self.layout()),
            bytes >= 1,
    {
        assert(envelope_fits(self.envelope)) by {
            lemma_frame_size(self.envelope);
        }
        self.envelope.channels as usize * (self.envelope.container_bits_per_sample / 8) as usize
    }

    /// Reads at most `max_frames` frames. The text `overflow` tells of frames whose
    /// bytes cannot be counted.
    pub fn read_frames(&mut self, max_frames: usize, overflow: &str, output: &mut Vec<i32>) -> (read:
        Result<usize>)
        requires
            is_storable(old(self).layout()),
        ensures
            final(self).layout() == old(self).layout(),
            final(self).byte_order() == old(self).byte_order(),
            old(self).bytes().len() <= usize::MAX,
            ({
                let frames = frames_asked(old(self).left(), max_frames as nat);
                let size = frames * frame_size(old(self).layout());
                match read_failure(old(self).bytes(), frames, old(self).layout(), overflow@) {
                    Some(expected) => {
                        &&& read matches Err(error) && error@ == expected
                        &&& final(self).bytes() == old(self).bytes()
                        &&& final(self).left() == old(self).left()
                        &&& final(output)@ == old(output)@
                    },
                    None => {
                        &&& read matches Ok(count) && count == frames
                        &&& final(self).bytes() == old(self).bytes().skip(size as int)
                        &&& final(self).left() == old(self).left() - frames
                        &&& final(output)@ == old(output)@ + stored_samples(
                            old(self).bytes().take(size as int),
                            old(self).layout(),
                            old(self).byte_order(),
                        )
                    },
                }
            }),
    {
        let ghost bytes = self.bytes();
        let length: usize = self.reader.len();
        assert(bytes.len() <= length);
        let frames: usize = if self.remaining_frames <= max_frames as u64 {
            self.remaining_frames as usize
        } else {
            max_frames
        };
        let ghost size = frames as nat * frame_size(self.envelope);
        if frames == 0 {
            proof {
                assert(size == 0) by (nonlinear_arith)
                    requires
                        size == frames as nat * frame_size(self.envelope),
                        frames == 0,
                ;
                assert(bytes.skip(0) == bytes);
                assert(stored_samples(bytes.take(0), self.envelope, self.order)
                    == Seq::<i32>::empty());
                assert(output@ == output@ + Seq::<i32>::empty());
            }
            return Ok(0);
        }
        let frame_bytes: usize = self.frame_bytes();
        let byte_len: usize = match frames.checked_mul(frame_bytes) {
            Some(byte_len) => byte_len,
            None => return Err(Error::UnsupportedPcmContainer(overflow.to_owned())),
        };
        assert(size >= 1) by (nonlinear_arith)
            requires
                size == frames * frame_bytes,
                frames >= 1,
                frame_bytes >= 1,
        ;
        let data = match self.reader.read_exact(byte_len) {
            Ok(data) => data,
            Err(error) => return Err(error),
        };
        assert(data@ == bytes.take(size as int));
        let samples = match decode_samples(data.as_slice(), self.envelope, self.order) {
            Ok(samples) => samples,
            Err(error) => return Err(error),
        };
        let mut index: usize = 0;
        let ghost before = output@;
        while index < samples.len()
            invariant
                index <= samples@.len(),
                output@ == before + samples@.take(index as int),
            decreases samples.len() - index,
        {
            output.push(samples[index]);
            index = index + 1;
            assert(output@ == before + samples@.take(index as int));
        }
        assert(samples@.take(index as int) == samples@);
        self.remaining_frames = self.remaining_frames - frames as u64;
        assert(self.bytes() == bytes.skip(size as int));
        Ok(frames)
    }
}

spec fn envelope_fits(envelope: PcmEnvelope) -> bool {
    1 <= frame_size(envelope) <= 4 * 65535
}

proof fn lemma_frame_size(envelope: PcmEnvelope)
    requires
        is_storable(envelope),
    ensures
        envelope_fits(envelope),
{
    let channels = envelope.channels as int;
    let width = (envelope.container_bits_per_sample / 8) as int;
    assert(1 <= channels * width <= 4 * 65535) by (nonlinear_arith)
        requires
            1 <= channels <= 65535,
            1 <= width <= 4,
    ;
}

/// What a read of a source does to the samples that are to come.
pub proof fn lemma_read_hands_out(
    bytes: Seq<u8>,
    left: nat,
    envelope: PcmEnvelope,
    order: ByteOrder,
    frames: nat,
)
    requires
        is_storable(envelope),
        frames <= left,
        frames * frame_size(envelope) <= bytes.len(),
    ensures
        ({
            let size = (frames * frame_size(envelope)) as int;
            handed_out(
                held_samples(bytes, left, envelope, order),
                held_samples(bytes.skip(size), (left - frames) as nat, envelope, order),
                envelope.channels as nat,
                frames,
                stored_samples(bytes.take(size), envelope, order),
            )
        }),
        left * frame_size(envelope) <= bytes.len() ==> (left - frames) * frame_size(envelope)
            <= bytes.len() - frames * frame_size(envelope),
{
    let width = (envelope.container_bits_per_sample / 8) as int;
    let channels = envelope.channels as int;
    let unit = frame_size(envelope) as int;
    let size = frames * unit;
    let whole = left * unit;
    let count = (frames * channels) as nat;
    lemma_mul_inequality(frames as int, left as int, unit);
    lemma_mul_is_associative(frames as int, channels, width);
    lemma_mul_is_distributive_sub_other_way(unit, left as int, frames as int);
    let window = if whole <= bytes.len() {
        bytes.take(whole)
    } else {
        bytes
    };
    assert(count * width == size);
    lemma_stored_prefix(window, count, envelope, order);
    assert(window.take(size) == bytes.take(size));
    let rest = bytes.skip(size);
    if whole <= bytes.len() {
        assert(window.skip(size) == rest.take(whole - size));
    } else {
        assert(window.skip(size) == rest);
    }
}

/// A source that is complete holds the samples of all frames that are left.
pub proof fn lemma_complete_source(
    bytes: Seq<u8>,
    left: nat,
    envelope: PcmEnvelope,
    order: ByteOrder,
    max_frames: nat,
)
    requires
        is_storable(envelope),
        left * frame_size(envelope) <= bytes.len(),
    ensures
        held_samples(bytes, left, envelope, order).len() == left * envelope.channels,
        frames_due(left * envelope.channels as nat, envelope.channels as nat, max_frames)
            == frames_asked(left, max_frames),
        frames_asked(left, max_frames) * frame_size(envelope) <= bytes.len(),
{
    let width = (envelope.container_bits_per_sample / 8) as int;
    let channels = envelope.channels as int;
    let unit = frame_size(envelope) as int;
    lemma_mul_is_associative(left as int, channels, width);
    lemma_div_by_multiple(left * channels, width);
    lemma_div_by_multiple(left as int, channels);
    lemma_mul_inequality(frames_asked(left, max_frames) as int, left as int, unit);
    if max_frames <= left {
        lemma_mul_inequality(max_frames as int, left as int, channels);
    } else {
        assert(max_frames * channels > left * channels) by (nonlinear_arith)
            requires
                max_frames > left,
                channels > 0,
        ;
    }
}

} // verus!
