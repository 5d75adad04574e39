//! A cursor over bytes in memory.

use vstd::prelude::*;

use crate::bytes::{be_value, lemma_byte_ranges, read_be};
use crate::error::{Error, ErrorView, IoErrorKind, Result};

verus! {

/// Bytes with a read position, which may lie behind their end.
#[derive(Debug, Clone)]
pub struct ByteReader {
    bytes: Vec<u8>,
    position: u64,
}

/// `count` bytes can be read at a position.
pub open spec fn available(bytes: Seq<u8>, position: nat, count: nat) -> bool {
    position + count <= bytes.len()
}

/// The error of a read behind the end.
pub open spec fn end_of_file() -> ErrorView {
    ErrorView::Io(IoErrorKind::UnexpectedEof)
}

/// The `count` bytes at a position.
pub open spec fn bytes_at(bytes: Seq<u8>, position: nat, count: nat) -> Seq<u8> {
    bytes.subrange(position as int, (position + count) as int)
}

/// The big-endian number of `count` bytes at a position.
pub open spec fn be_at(bytes: Seq<u8>, position: nat, count: nat) -> nat {
    be_value(bytes_at(bytes, position, count))
}

impl ByteReader {
    /// The bytes under the cursor.
    pub closed spec fn contents(&self) -> Seq<u8> {
        self.bytes@
    }

    /// The place of the next read.
    pub closed spec fn at(&self) -> nat {
        self.position as nat
    }

    /// A cursor at the start of bytes.
    pub fn new(bytes: Vec<u8>) -> (reader: Self)
        ensures
            reader.contents() == bytes@,
            reader.at() == 0,
    {
        ByteReader { bytes, position: 0 }
    }

    /// The place of the next read.
    pub fn position(&self) -> (position: u64)
        ensures
            position == self.at(),
    {
        self.position
    }

    /// Moves the cursor.
    pub fn seek(&mut self, position: u64)
        ensures
            final(self).contents() == old(self).contents(),
            final(self).at() == position,
    {
        self.position = position;
    }

    /// Moves the cursor one byte on. It fails at the last position that there is.
    pub fn skip_byte(&mut self) -> (result: Result<()>)
        ensures
            final(self).contents() == old(self).contents(),
            result is Ok <==> old(self).at() < u64::MAX,
            result is Ok ==> final(self).at() == old(self).at() + 1,
            result matches Err(error) ==> error@ == ErrorView::Io(IoErrorKind::InvalidInput),
    {
        if self.position == u64::MAX {
            return Err(Error::Io(IoErrorKind::InvalidInput));
        }
        self.position = self.position + 1;
        Ok(())
    }

    /// The number of bytes under the cursor.
    pub fn len(&self) -> (len: usize)
        ensures
            len == self.contents().len(),
    {
        self.bytes.len()
    }

    /// The bytes under the cursor.
    pub fn as_slice(&self) -> (bytes: &[u8])
        ensures
            bytes@ == self.contents(),
    {
        self.bytes.as_slice()
    }

    /// Reads `count` bytes, or fails and stays where it is if there are fewer.
    pub fn read_exact(&mut self, count: usize) -> (read: Result<Vec<u8>>)
        ensures
            final(self).contents() == old(self).contents(),
            read is Ok <==> available(old(self).contents(), old(self).at(), count as nat),
            read matches Ok(bytes) ==> bytes@ == bytes_at(
                old(self).contents(),
                old(self).at(),
                count as nat,
            ) && final(self).at() == old(self).at() + count,
            read matches Err(error) ==> error@ == end_of_file() && final(self).at()
                == old(self).at(),
    {
        let length: u64 = self.bytes.len() as u64;
        if self.position > length || count as u64 > length - self.position {
            return Err(Error::Io(IoErrorKind::UnexpectedEof));
        }
        let start: usize = self.position as usize;
        let mut read: Vec<u8> = Vec::new();
        let mut index: usize = 0;
        while index < count
            invariant
                index <= count,
                start + count <= self.bytes@.len(),
                self.bytes.len() == self.bytes@.len(),
                start == self.position,
                self.bytes@ == old(self).bytes@,
                self.position == old(self).position,
                read@ == self.bytes@.subrange(start as int, start + index),
            decreases count - index,
        {
            read.push(self.bytes[start + index]);
            index = index + 1;
            assert(read@ == self.bytes@.subrange(start as int, start + index));
        }
        self.position = self.position + count as u64;
        Ok(read)
    }

    /// Reads a big-endian 16-bit number.
    pub fn read_u16_be(&mut self) -> (read: Result<u16>)
        ensures
            final(self).contents() == old(self).contents(),
            read is Ok <==> available(old(self).contents(), old(self).at(), 2),
            read matches Ok(value) ==> value == be_at(old(self).contents(), old(self).at(), 2)
                && final(self).at() == old(self).at() + 2,
            read matches Err(error) ==> error@ == end_of_file() && final(self).at()
                == old(self).at(),
    {
        match self.read_exact(2) {
            Ok(bytes) => {
                proof {
                    lemma_byte_ranges();
                    assert(bytes@.subrange(0, 2) == bytes@);
                }
                Ok(read_be(bytes.as_slice(), 0, 2) as u16)
            },
            Err(error) => Err(error),
        }
    }

    /// Reads a big-endian 32-bit number.
    pub fn read_u32_be(&mut self) -> (read: Result<u32>)
        ensures
            final(self).contents() == old(self).contents(),
            read is Ok <==> available(old(self).contents(), old(self).at(), 4),
            read matches Ok(value) ==> value == be_at(old(self).contents(), old(self).at(), 4)
                && final(self).at() == old(self).at() + 4,
            read matches Err(error) ==> error@ == end_of_file() && final(self).at()
                == old(self).at(),
    {
        match self.read_exact(4) {
            Ok(bytes) => {
                proof {
                    lemma_byte_ranges();
                    assert(bytes@.subrange(0, 4) == bytes@);
                }
                Ok(read_be(bytes.as_slice(), 0, 4) as u32)
            },
            Err(error) => Err(error),
        }
    }

    /// Reads a big-endian 64-bit number.
    pub fn read_u64_be(&mut self) -> (read: Result<u64>)
        ensures
            final(self).contents() == old(self).contents(),
            read is Ok <==> available(old(self).contents(), old(self).at(), 8),
            read matches Ok(value) ==> value == be_at(old(self).contents(), old(self).at(), 8)
                && final(self).at() == old(self).at() + 8,
            read matches Err(error) ==> error@ == end_of_file() && final(self).at()
                == old(self).at(),
    {
        match self.read_exact(8) {
            Ok(bytes) => {
                assert(bytes@.subrange(0, 8) == bytes@);
                Ok(read_be(bytes.as_slice(), 0, 8))
            },
            Err(error) => Err(error),
        }
    }
}

} // verus!
