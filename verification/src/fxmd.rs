//! The private `fxmd` chunk, which carries FLAC metadata blocks through RIFF/WAVE files.

use vstd::prelude::*;
use vstd::slice::{slice_subrange, slice_to_vec};

use crate::byte_reader::{available, bytes_at};
use crate::bytes::{append_bytes, law_le_bytes_read_back, le_bytes, lemma_byte_ranges, push_le_bytes, read_le};
use crate::error::{Error, ErrorView, Result};
use crate::fourcc::{is_id, FourCc};
use crate::metadata::{preserved_views, BlockView, PreservedBlock};
use crate::wav::le_at;

verus! {

/// `fxmd`, which the payload starts with as well.
pub const FXMD_MAGIC: FourCc = [0x66, 0x78, 0x6d, 0x64];

/// The version of the payload.
pub const FXMD_VERSION: u16 = 1;

/// The flags of the payload.
pub const FXMD_HEADER_FLAGS: u16 = 1;

/// A block in the payload: its type, its length and its own payload.
pub open spec fn fxmd_block(block: BlockView) -> Seq<u8> {
    seq![block.block_type] + le_bytes(block.payload.len(), 4) + block.payload
}

/// Blocks in the payload, one behind the other.
pub open spec fn fxmd_blocks(blocks: Seq<BlockView>) -> Seq<u8>
    decreases blocks.len(),
{
    if blocks.len() == 0 {
        Seq::empty()
    } else {
        fxmd_block(blocks[0]) + fxmd_blocks(blocks.skip(1))
    }
}

/// The lengths and the number of blocks fit where they are written.
pub open spec fn blocks_fit(blocks: Seq<BlockView>) -> bool {
    &&& blocks.len() <= u32::MAX
    &&& forall|i: int| 0 <= i < blocks.len() ==> (#[trigger] blocks[i]).payload.len() <= u32::MAX
}

/// What stands in front of the blocks.
pub open spec fn fxmd_head(count: nat) -> Seq<u8> {
    FXMD_MAGIC@ + le_bytes(FXMD_VERSION as nat, 2) + le_bytes(FXMD_HEADER_FLAGS as nat, 2)
        + le_bytes(count, 4)
}

/// The payload that carries blocks. No payload carries none, or more than it can count.
pub open spec fn fxmd_payload(blocks: Seq<BlockView>) -> Option<Seq<u8>> {
    if blocks.len() == 0 || !blocks_fit(blocks) {
        None
    } else {
        Some(fxmd_head(blocks.len()) + fxmd_blocks(blocks))
    }
}

/// The blocks from a position on, of which there are as many as given.
pub open spec fn fxmd_from(payload: Seq<u8>, position: nat, count: nat) -> std::result::Result<
    Seq<BlockView>,
    ErrorView,
>
    decreases count,
{
    if count == 0 {
        if position == payload.len() {
            Ok(Seq::empty())
        } else {
            Err(ErrorView::InvalidPcmContainer("fxmd chunk has trailing bytes"@))
        }
    } else if !available(payload, position, 5) || !available(
        payload,
        position + 5,
        le_at(payload, position + 1, 4),
    ) {
        Err(ErrorView::InvalidPcmContainer("fxmd chunk is truncated"@))
    } else {
        let size = le_at(payload, position + 1, 4);
        match fxmd_from(payload, position + 5 + size, (count - 1) as nat) {
            Err(error) => Err(error),
            Ok(rest) => Ok(
                seq![
                    BlockView {
                        block_type: payload[position as int],
                        payload: bytes_at(payload, position + 5, size),
                    },
                ] + rest,
            ),
        }
    }
}

/// The blocks that a payload carries, or why it cannot be read.
pub open spec fn carried_blocks(payload: Seq<u8>) -> std::result::Result<Seq<BlockView>, ErrorView> {
    if payload.len() < 12 {
        Err(ErrorView::InvalidPcmContainer("fxmd chunk is truncated"@))
    } else if bytes_at(payload, 0, 4) != FXMD_MAGIC@ {
        Err(ErrorView::InvalidPcmContainer("fxmd chunk does not start with its magic"@))
    } else if le_at(payload, 4, 2) != FXMD_VERSION {
        Err(ErrorView::InvalidPcmContainer("fxmd chunk version is unsupported"@))
    } else if le_at(payload, 6, 2) != FXMD_HEADER_FLAGS {
        Err(ErrorView::InvalidPcmContainer("fxmd chunk flags are unsupported"@))
    } else {
        fxmd_from(payload, 12, le_at(payload, 8, 4))
    }
}

/// FLAC metadata blocks that are kept as they were read.
#[derive(Debug, Clone, PartialEq, Eq)]
pub struct PreservedMetadataBundle {
    blocks: Vec<PreservedBlock>,
}

impl Default for PreservedMetadataBundle {
    fn default() -> (bundle: Self)
        ensures
            bundle.held() == Seq::<BlockView>::empty(),
    {
        let bundle = PreservedMetadataBundle { blocks: Vec::new() };
        assert(bundle.held() == Seq::<BlockView>::empty());
        bundle
    }
}

/// Writes the payload that carries blocks, if there is one.
pub fn fxmd_payload_of(blocks: &Vec<PreservedBlock>) -> (payload: Option<Vec<u8>>)
    ensures
        match payload {
            Some(bytes) => fxmd_payload(preserved_views(blocks@)) == Some(bytes@),
            None => fxmd_payload(preserved_views(blocks@)) is None,
        },
{
    let ghost views = preserved_views(blocks@);
    if blocks.len() == 0 || blocks.len() as u64 > 0xffff_ffff {
        return None;
    }
    let mut payload: Vec<u8> = Vec::new();
    append_bytes(&mut payload, FXMD_MAGIC.as_slice());
    push_le_bytes(&mut payload, FXMD_VERSION as u64, 2);
    push_le_bytes(&mut payload, FXMD_HEADER_FLAGS as u64, 2);
    push_le_bytes(&mut payload, blocks.len() as u64, 4);
    let ghost head = fxmd_head(views.len());
    assert(payload@ == head);
    let mut index: usize = 0;
    assert(views.skip(0) == views);
    while index < blocks.len()
        invariant
            index <= blocks@.len(),
            blocks@.len() <= u32::MAX,
            views == preserved_views(blocks@),
            forall|i: int| 0 <= i < index ==> (#[trigger] views[i]).payload.len() <= u32::MAX,
            payload@ + fxmd_blocks(views.skip(index as int)) == head + fxmd_blocks(views),
        decreases blocks.len() - index,
    {
        let ghost before = payload@;
        let block = &blocks[index];
        assert(views[index as int].payload == block.payload@);
        if block.payload.len() as u64 > 0xffff_ffff {
            return None;
        }
        payload.push(block.block_type);
        push_le_bytes(&mut payload, block.payload.len() as u64, 4);
        append_bytes(&mut payload, block.payload.as_slice());
        proof {
            let rest = views.skip(index as int);
            assert(rest.skip(1) == views.skip(index + 1));
            assert(payload@ == before + fxmd_block(rest[0]));
            assert(payload@ + fxmd_blocks(views.skip(index + 1)) == before + fxmd_blocks(rest));
        }
        index = index + 1;
    }
    assert(fxmd_blocks(views.skip(index as int)) == Seq::<u8>::empty());
    assert(payload@ + Seq::<u8>::empty() == payload@);
    Some(payload)
}

/// Reads the blocks that a payload carries.
pub fn blocks_of_fxmd(payload: &[u8]) -> (blocks: Result<Vec<PreservedBlock>>)
    ensures
        match carried_blocks(payload@) {
            Ok(expected) => blocks matches Ok(found) && preserved_views(found@) == expected,
            Err(expected) => blocks matches Err(error) && error@ == expected,
        },
{
    let length: usize = payload.len();
    if length < 12 {
        return Err(Error::InvalidPcmContainer("fxmd chunk is truncated"));
    }
    if !is_id(slice_subrange(payload, 0, 4), &FXMD_MAGIC) {
        return Err(Error::InvalidPcmContainer("fxmd chunk does not start with its magic"));
    }
    if read_le(payload, 4, 2) != FXMD_VERSION as u64 {
        return Err(Error::InvalidPcmContainer("fxmd chunk version is unsupported"));
    }
    if read_le(payload, 6, 2) != FXMD_HEADER_FLAGS as u64 {
        return Err(Error::InvalidPcmContainer("fxmd chunk flags are unsupported"));
    }
    let count: u64 = read_le(payload, 8, 4);
    let mut blocks: Vec<PreservedBlock> = Vec::new();
    let mut position: usize = 12;
    let mut left: u64 = count;
    let ghost whole = fxmd_from(payload@, 12, count as nat);
    proof {
        if let Ok(rest) = whole {
            assert(preserved_views(blocks@) + rest == rest);
        }
    }
    while left > 0
        invariant
            position <= length,
            length == payload@.len(),
            match fxmd_from(payload@, position as nat, left as nat) {
                Ok(rest) => whole == Ok::<Seq<BlockView>, ErrorView>(
                    preserved_views(blocks@) + rest,
                ),
                Err(error) => whole == Err::<Seq<BlockView>, ErrorView>(error),
            },
            whole == carried_blocks(payload@),
        decreases left,
    {
        if length - position < 5 {
            return Err(Error::InvalidPcmContainer("fxmd chunk is truncated"));
        }
        let size: u64 = read_le(payload, position + 1, 4);
        if size > (length - position - 5) as u64 {
            return Err(Error::InvalidPcmContainer("fxmd chunk is truncated"));
        }
        let start: usize = position + 5;
        let end: usize = start + size as usize;
        let ghost before = blocks@;
        let bytes = slice_subrange(payload, start, end);
        let block = PreservedBlock {
            block_type: payload[position],
            payload: slice_to_vec(bytes),
        };
        let ghost view = BlockView { block_type: block.block_type, payload: block.payload@ };
        blocks.push(block);
        proof {
            assert(preserved_views(blocks@) == preserved_views(before).push(view));
            if let Ok(rest) = fxmd_from(payload@, end as nat, (left - 1) as nat) {
                assert(preserved_views(before) + (seq![view] + rest) == preserved_views(blocks@)
                    + rest);
            }
        }
        position = end;
        left = left - 1;
    }
    if position != length {
        return Err(Error::InvalidPcmContainer("fxmd chunk has trailing bytes"));
    }
    assert(preserved_views(blocks@) + Seq::<BlockView>::empty() == preserved_views(blocks@));
    Ok(blocks)
}

impl PreservedMetadataBundle {
    /// The blocks.
    pub closed spec fn held(&self) -> Seq<BlockView> {
        preserved_views(self.blocks@)
    }

    /// Keeps a metadata block of a FLAC stream.
    pub fn ingest_flac_block(&mut self, block_type: u8, payload: &[u8]) -> (result: Result<()>)
        ensures
            result is Ok,
            final(self).held() == old(self).held().push(
                BlockView { block_type, payload: payload@ },
            ),
    {
        self.blocks.push(PreservedBlock { block_type, payload: slice_to_vec(payload) });
        assert(self.held() == old(self).held().push(BlockView { block_type, payload: payload@ }));
        Ok(())
    }

    /// The payload of the chunk that carries the blocks, if there is one.
    pub fn fxmd_chunk_payload(&self) -> (payload: Option<Vec<u8>>)
        ensures
            match payload {
                Some(bytes) => fxmd_payload(self.held()) == Some(bytes@),
                None => fxmd_payload(self.held()) is None,
            },
    {
        fxmd_payload_of(&self.blocks)
    }

    /// Reads the blocks that the payload of a chunk carries.
    pub fn from_fxmd_payload(payload: &[u8]) -> (bundle: Result<Self>)
        ensures
            match carried_blocks(payload@) {
                Ok(expected) => bundle matches Ok(found) && found.held() == expected,
                Err(expected) => bundle matches Err(error) && error@ == expected,
            },
    {
        match blocks_of_fxmd(payload) {
            Ok(blocks) => Ok(PreservedMetadataBundle { blocks }),
            Err(error) => Err(error),
        }
    }
}

proof fn lemma_blocks_read_back(front: Seq<u8>, blocks: Seq<BlockView>)
    requires
        blocks_fit(blocks),
    ensures
        fxmd_from(front + fxmd_blocks(blocks), front.len(), blocks.len()) == Ok::<
            Seq<BlockView>,
            ErrorView,
        >(blocks),
    decreases blocks.len(),
{
    let payload = front + fxmd_blocks(blocks);
    if blocks.len() == 0 {
        assert(payload == front);
        assert(blocks == Seq::<BlockView>::empty());
    } else {
        let block = blocks[0];
        let rest = blocks.skip(1);
        let size = block.payload.len();
        let position = front.len();
        assert forall|i: int| 0 <= i < rest.len() implies (#[trigger] rest[i]).payload.len()
            <= u32::MAX by {
            assert(rest[i] == blocks[i + 1]);
        }
        lemma_byte_ranges();
        law_le_bytes_read_back(size, 4);
        let next = front + fxmd_block(block);
        assert(next + fxmd_blocks(rest) == payload);
        lemma_blocks_read_back(next, rest);
        assert(bytes_at(payload, position + 1, 4) == le_bytes(size, 4));
        assert(bytes_at(payload, position + 5, size) == block.payload);
        assert(payload[position as int] == block.block_type);
        assert(seq![block] + rest == blocks);
    }
}

/// What a chunk was made to carry is read back from it.
pub proof fn law_fxmd_reads_back(blocks: Seq<BlockView>)
    ensures
        fxmd_payload(blocks) matches Some(payload) ==> carried_blocks(payload) == Ok::<
            Seq<BlockView>,
            ErrorView,
        >(blocks),
{
    if let Some(payload) = fxmd_payload(blocks) {
        let head = fxmd_head(blocks.len());
        lemma_byte_ranges();
        law_le_bytes_read_back(FXMD_VERSION as nat, 2);
        law_le_bytes_read_back(FXMD_HEADER_FLAGS as nat, 2);
        law_le_bytes_read_back(blocks.len(), 4);
        assert(head.len() == 12);
        assert(bytes_at(payload, 0, 4) == FXMD_MAGIC@);
        assert(bytes_at(payload, 4, 2) == le_bytes(FXMD_VERSION as nat, 2));
        assert(bytes_at(payload, 6, 2) == le_bytes(FXMD_HEADER_FLAGS as nat, 2));
        assert(bytes_at(payload, 8, 4) == le_bytes(blocks.len(), 4));
        lemma_blocks_read_back(head, blocks);
    }
}

} // verus!
