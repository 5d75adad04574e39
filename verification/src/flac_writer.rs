//! Writing the blocks and frames of a FLAC stream.

use vstd::prelude::*;

use crate::aiff_round_trip::lemma_be_bytes_len;
use crate::bytes::{append_bytes, be_bytes, push_be_bytes};
use crate::error::{Error, ErrorView, Result};
use crate::fourcc::FourCc;
use crate::metadata::{block_views, BlockView, FlacMetadataBlock};
use crate::stream_info::{info_bytes, info_fits, info_numbers, with_frame_size, StreamInfo};

verus! {

/// `fLaC`
pub const FLAC_MARKER: FourCc = [0x66, 0x4c, 0x61, 0x43];

/// The size of a STREAMINFO payload.
pub const STREAMINFO_LENGTH: usize = 34;

/// The largest payload of a metadata block.
pub const MAX_BLOCK_PAYLOAD: usize = 0xff_ffff;

/// The header of a metadata block.
pub open spec fn block_header(block_type: u8, is_last: bool, payload: nat) -> Seq<u8> {
    seq![
        if is_last {
            (block_type % 128 + 128) as u8
        } else {
            (block_type % 128) as u8
        },
    ] + be_bytes(payload, 3)
}

/// Metadata blocks, of which the last ends the metadata.
pub open spec fn blocks_bytes(blocks: Seq<BlockView>, count: nat) -> Seq<u8>
    decreases count,
{
    if count == 0 {
        Seq::empty()
    } else {
        let block = blocks[count - 1];
        blocks_bytes(blocks, (count - 1) as nat) + block_header(
            block.block_type,
            count == blocks.len(),
            block.payload.len(),
        ) + block.payload
    }
}

/// All blocks have payloads that their headers can announce.
pub open spec fn blocks_fit(blocks: Seq<BlockView>) -> bool {
    forall|i: int| 0 <= i < blocks.len() ==> #[trigger] blocks[i].payload.len() <= MAX_BLOCK_PAYLOAD
}

/// What stands in front of the STREAMINFO payload.
pub open spec fn stream_opening(blocks: nat) -> Seq<u8> {
    FLAC_MARKER@ + block_header(0, blocks == 0, STREAMINFO_LENGTH as nat)
}

/// A FLAC stream.
pub open spec fn stream_bytes(
    info: StreamInfo,
    digest: Seq<u8>,
    blocks: Seq<BlockView>,
    frames: Seq<u8>,
) -> Seq<u8> {
    stream_opening(blocks.len()) + (info_numbers(info) + digest) + blocks_bytes(
        blocks,
        blocks.len(),
    ) + frames
}

/// The error of a metadata block that is too large.
pub open spec fn large_block() -> ErrorView {
    ErrorView::Encode("metadata block payload exceeds 24-bit length"@)
}

/// A FLAC stream that is being written. The STREAMINFO payload is written again at
/// the end.
#[derive(Debug, Clone)]
pub struct FlacWriter {
    writer: Vec<u8>,
    stream_info: StreamInfo,
    streaminfo_offset: usize,
}

/// Appends the header of a metadata block.
fn push_block_header(writer: &mut Vec<u8>, block_type: u8, is_last: bool, payload: usize)
    ensures
        final(writer)@ == old(writer)@ + block_header(block_type, is_last, payload as nat),
{
    let kind: u8 = if is_last {
        block_type % 128 + 128
    } else {
        block_type % 128
    };
    writer.push(kind);
    push_be_bytes(writer, payload as u64, 3);
    assert(writer@ == old(writer)@ + block_header(block_type, is_last, payload as nat));
}

/// Appends metadata blocks.
fn push_blocks(writer: &mut Vec<u8>, blocks: &[FlacMetadataBlock]) -> (result: Result<()>)
    ensures
        if blocks_fit(block_views(blocks@)) {
            result is Ok && final(writer)@ == old(writer)@ + blocks_bytes(
                block_views(blocks@),
                blocks@.len(),
            )
        } else {
            result matches Err(error) && error@ == large_block()
        },
{
    let ghost views = block_views(blocks@);
    let ghost start = writer@;
    let mut index: usize = 0;
    assert(writer@ == start + blocks_bytes(views, 0));
    while index < blocks.len()
        invariant
            index <= blocks@.len(),
            views == block_views(blocks@),
            writer@ == start + blocks_bytes(views, index as nat),
            forall|i: int|
                0 <= i < index ==> #[trigger] views[i].payload.len() <= MAX_BLOCK_PAYLOAD,
        decreases blocks.len() - index,
    {
        assert(views[index as int] == blocks@[index as int]@);
        let payload = blocks[index].payload();
        if payload.len() > MAX_BLOCK_PAYLOAD {
            assert(!(views[index as int].payload.len() <= MAX_BLOCK_PAYLOAD));
            return Err(Error::Encode("metadata block payload exceeds 24-bit length".to_owned()));
        }
        let is_last = index + 1 == blocks.len();
        push_block_header(writer, blocks[index].block_type(), is_last, payload.len());
        append_bytes(writer, payload.as_slice());
        index = index + 1;
        assert(writer@ == start + blocks_bytes(views, index as nat));
    }
    Ok(())
}

impl FlacWriter {
    /// The writer keeps its own rules.
    pub closed spec fn is_valid(&self) -> bool {
        &&& info_fits(self.stream_info)
        &&& self.streaminfo_offset + STREAMINFO_LENGTH <= self.writer@.len()
    }

    /// What stands in front of the STREAMINFO payload.
    pub closed spec fn before(&self) -> Seq<u8> {
        self.writer@.take(self.streaminfo_offset as int)
    }

    /// What is known of the stream.
    pub closed spec fn info(&self) -> StreamInfo {
        self.stream_info
    }

    /// What stands behind the STREAMINFO payload.
    pub closed spec fn after(&self) -> Seq<u8> {
        self.writer@.skip(self.streaminfo_offset + STREAMINFO_LENGTH)
    }

    /// How many bytes were written.
    pub open spec fn written(&self) -> nat {
        self.before().len() + STREAMINFO_LENGTH as nat + self.after().len()
    }

    /// How many bytes were written.
    pub fn bytes_written(&self) -> (bytes: usize)
        requires
            self.is_valid(),
        ensures
            bytes == self.written(),
    {
        self.writer.len()
    }

    /// The STREAMINFO payload as long as the stream is not finished.
    pub closed spec fn first_info(&self) -> Seq<u8> {
        self.writer@.subrange(
            self.streaminfo_offset as int,
            self.streaminfo_offset + STREAMINFO_LENGTH,
        )
    }

    /// Gives up a stream and returns what was written of it.
    pub fn into_unfinished(self) -> (bytes: Vec<u8>)
        requires
            self.is_valid(),
        ensures
            bytes@ == self.before() + self.first_info() + self.after(),
    {
        assert(self.writer@ == self.before() + self.first_info() + self.after());
        self.writer
    }

    /// Starts a stream behind the bytes that `writer` holds.
    pub fn new(writer: Vec<u8>, stream_info: StreamInfo, metadata_blocks: &[FlacMetadataBlock])
        -> (flac: Result<Self>)
        requires
            info_fits(stream_info),
        ensures
            if blocks_fit(block_views(metadata_blocks@)) {
                flac matches Ok(found) && {
                    &&& found.is_valid()
                    &&& found.before() == writer@ + stream_opening(metadata_blocks@.len())
                    &&& found.info() == stream_info
                    &&& found.first_info() == info_bytes(stream_info)
                    &&& found.after() == blocks_bytes(
                        block_views(metadata_blocks@),
                        metadata_blocks@.len(),
                    )
                }
            } else {
                flac matches Err(error) && error@ == large_block()
            },
    {
        let ghost start = writer@;
        let mut writer = writer;
        append_bytes(&mut writer, FLAC_MARKER.as_slice());
        push_block_header(&mut writer, 0, metadata_blocks.len() == 0, STREAMINFO_LENGTH);
        let ghost opening = writer@;
        assert(opening == start + stream_opening(metadata_blocks@.len()));
        let streaminfo_offset: usize = writer.len();
        let info = stream_info.to_bytes();
        append_bytes(&mut writer, info.as_slice());
        proof {
            lemma_info_len(stream_info);
        }
        let ghost described = writer@;
        match push_blocks(&mut writer, metadata_blocks) {
            Ok(()) => {},
            Err(error) => return Err(error),
        }
        let flac = FlacWriter { writer, stream_info, streaminfo_offset };
        proof {
            let blocks = blocks_bytes(block_views(metadata_blocks@), metadata_blocks@.len());
            assert(flac.writer@ == opening + info@ + blocks);
            assert(flac.before() == opening);
            assert(flac.after() == blocks);
            assert(flac.first_info() == info@);
        }
        Ok(flac)
    }

    /// Appends a frame.
    pub fn write_frame(&mut self, frame: &[u8])
        requires
            old(self).is_valid(),
        ensures
            final(self).is_valid(),
            final(self).before() == old(self).before(),
            final(self).info() == with_frame_size(old(self).info(), frame@.len() as u32),
            final(self).after() == old(self).after() + frame@,
            final(self).first_info() == old(self).first_info(),
    {
        let ghost before = *self;
        assert(frame.len() == frame@.len());
        self.stream_info.update_frame_size(frame.len() as u32);
        append_bytes(&mut self.writer, frame);
        assert(self.before() == before.before());
        assert(self.after() == before.after() + frame@);
        assert(self.first_info() == before.first_info());
    }

    /// Sets the digest of the samples.
    pub fn set_streaminfo_md5(&mut self, md5: [u8; 16])
        requires
            old(self).is_valid(),
        ensures
            final(self).is_valid(),
            final(self).before() == old(self).before(),
            final(self).info() == (StreamInfo { md5, ..old(self).info() }),
            final(self).after() == old(self).after(),
    {
        self.stream_info.md5 = md5;
    }

    /// Ends the stream and returns all bytes with what is known of the stream.
    pub fn finalize(self) -> (finished: (Vec<u8>, StreamInfo))
        requires
            self.is_valid(),
        ensures
            finished.0@ == self.before() + info_bytes(self.info()) + self.after(),
            finished.1 == self.info(),
    {
        let info = self.stream_info.to_bytes();
        proof {
            lemma_info_len(self.stream_info);
        }
        let offset: usize = self.streaminfo_offset;
        let ghost before = self.before();
        let ghost after = self.after();
        let mut writer = self.writer;
        let length: usize = writer.len();
        let mut index: usize = 0;
        while index < STREAMINFO_LENGTH
            invariant
                index <= STREAMINFO_LENGTH,
                info@.len() == STREAMINFO_LENGTH,
                writer@.len() == length,
                offset + STREAMINFO_LENGTH <= length,
                writer@.take(offset as int) == before,
                writer@.skip(offset + STREAMINFO_LENGTH) == after,
                writer@.subrange(offset as int, offset + index) == info@.take(index as int),
            decreases STREAMINFO_LENGTH - index,
        {
            let ghost earlier = writer@;
            writer.set(offset + index, info[index]);
            index = index + 1;
            proof {
                assert(writer@.take(offset as int) == before);
                assert(writer@.skip(offset + STREAMINFO_LENGTH) == after);
                assert(writer@.subrange(offset as int, offset + index) == earlier.subrange(
                    offset as int,
                    offset + index - 1,
                ).push(info@[index - 1]));
                assert(writer@.subrange(offset as int, offset + index) == info@.take(
                    index as int,
                ));
            }
        }
        proof {
            assert(info@.take(index as int) == info@);
            assert(writer@ == before + info@ + after);
        }
        (writer, self.stream_info)
    }
}

/// A STREAMINFO payload has its size.
pub proof fn lemma_info_len(info: StreamInfo)
    ensures
        info_bytes(info).len() == STREAMINFO_LENGTH,
{
    lemma_be_bytes_len(info.min_block_size as nat, 2);
    lemma_be_bytes_len(info.max_block_size as nat, 2);
    lemma_be_bytes_len(info.min_frame_size as nat, 3);
    lemma_be_bytes_len(info.max_frame_size as nat, 3);
    lemma_be_bytes_len(crate::stream_info::info_word(info), 8);
}

} // verus!
