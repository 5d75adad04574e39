//! The bit-level writer that frames are built with.
//!
//! Bits are packed by `bitstream_io::BitWriter` in big-endian order into a byte
//! vector. What it does is not proved here: each method below states what the
//! outside method does to the bits written so far.

use bitstream_io::{BigEndian, BitWrite, BitWriter};
use vstd::prelude::*;

use crate::bits::{byte_bits, fits_signed, fits_unsigned, padding_bits, signed_bits, unary_bits, unsigned_bits};

verus! {

/// The error type of `std::io`.
#[verifier::external_type_specification]
#[verifier::external_body]
pub struct ExIoError(std::io::Error);

/// What a write hands back.
pub type IoResult = Result<(), std::io::Error>;

/// A `bitstream_io::BitWriter` in big-endian order over a byte vector.
#[verifier::external_body]
pub struct FrameBitWriter {
    inner: BitWriter<Vec<u8>, BigEndian>,
}

/// The bits that a writer holds, in the order in which they were written.
pub uninterp spec fn written_bits(writer: FrameBitWriter) -> Seq<bool>;

impl FrameBitWriter {
    /// `BitWriter::endian`: a writer over an empty vector holds no bits.
    #[verifier::external_body]
    pub(crate) fn new() -> (writer: FrameBitWriter)
        ensures
            written_bits(writer) == Seq::<bool>::empty(),
    {
        FrameBitWriter { inner: BitWriter::endian(Vec::new(), BigEndian) }
    }

    /// `BitWrite::write_bit`: appends the bit. A write to a vector does not fail.
    #[verifier::external_body]
    pub(crate) fn write_bit(&mut self, bit: bool) -> (result: IoResult)
        ensures
            result is Ok,
            written_bits(*final(self)) == written_bits(*old(self)).push(bit),
    {
        self.inner.write_bit(bit)
    }

    /// `BitWrite::write_unsigned_var` on a `u32`: appends the lowest `bits` bits of
    /// `value`, most significant first, if the value fits in them; otherwise it
    /// fails and writes nothing.
    #[verifier::external_body]
    pub(crate) fn write_unsigned(&mut self, bits: u32, value: u32) -> (result: IoResult)
        requires
            1 <= bits <= 32,
        ensures
            result is Ok <==> fits_unsigned(value as int, bits as nat),
            result is Ok ==> written_bits(*final(self)) == written_bits(*old(self))
                + unsigned_bits(value as int, bits as nat),
            result is Err ==> written_bits(*final(self)) == written_bits(*old(self)),
    {
        self.inner.write_unsigned_var(bits, value)
    }

    /// `BitWrite::write_signed_var` on an `i32`: appends the two's-complement
    /// pattern of `value` in `bits` bits, if there is at least one bit, there are
    /// no more than 32, and the value fits in them; otherwise it fails and writes
    /// nothing.
    #[verifier::external_body]
    pub(crate) fn write_signed(&mut self, bits: u32, value: i32) -> (result: IoResult)
        ensures
            result is Ok <==> (bits <= 32 && fits_signed(value as int, bits as nat)),
            result is Ok ==> written_bits(*final(self)) == written_bits(*old(self)) + signed_bits(
                value as int,
                bits as nat,
            ),
            result is Err ==> written_bits(*final(self)) == written_bits(*old(self)),
    {
        self.inner.write_signed_var(bits, value)
    }

    /// `BitWrite::write_unary::<1>`: appends `value` zero bits and a one bit.
    #[verifier::external_body]
    pub(crate) fn write_unary(&mut self, value: u32) -> (result: IoResult)
        ensures
            result is Ok,
            written_bits(*final(self)) == written_bits(*old(self)) + unary_bits(value as nat),
    {
        self.inner.write_unary::<1>(value)
    }

    /// `BitWrite::write_bytes`: appends the bits of each byte in turn.
    #[verifier::external_body]
    pub(crate) fn write_bytes(&mut self, bytes: &[u8]) -> (result: IoResult)
        ensures
            result is Ok,
            written_bits(*final(self)) == written_bits(*old(self)) + byte_bits(bytes@),
    {
        self.inner.write_bytes(bytes)
    }

    /// `BitWrite::byte_align`: appends zero bits up to the next whole byte.
    #[verifier::external_body]
    pub(crate) fn byte_align(&mut self) -> (result: IoResult)
        ensures
            result is Ok,
            written_bits(*final(self)) == written_bits(*old(self)) + padding_bits(
                written_bits(*old(self)).len(),
            ),
    {
        self.inner.byte_align()
    }

    /// `BitWriter::into_writer`: hands out the vector, which holds the bits of the
    /// whole bytes; the bits of a byte that is not full are lost.
    #[verifier::external_body]
    pub(crate) fn into_bytes(self) -> (bytes: Vec<u8>)
        ensures
            bytes@.len() == written_bits(self).len() / 8,
            byte_bits(bytes@) == written_bits(self).take(8 * (written_bits(self).len() / 8) as int),
    {
        self.inner.into_writer()
    }
}

} // verus!
