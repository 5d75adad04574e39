//! Chunks that were encoded side by side and are taken out in order.

use std::collections::BTreeMap;

use vstd::prelude::*;

use crate::encode_frames::EncodedChunk;
use crate::frame::EncodedFrame;

verus! {

broadcast use vstd::std_specs::btree::group_btree_axioms;

/// Chunks that wait for those in front of them.
#[derive(Debug, Clone)]
pub struct ChunkQueue {
    pending: BTreeMap<usize, EncodedChunk>,
    next_expected: usize,
}

impl ChunkQueue {
    /// The chunks that wait, by their first frames.
    pub closed spec fn waiting(&self) -> Map<usize, EncodedChunk> {
        self.pending@
    }

    /// The frame that is to come next.
    pub closed spec fn next(&self) -> usize {
        self.next_expected
    }

    /// A queue that waits for a frame.
    pub fn new(next_expected: usize) -> (queue: Self)
        ensures
            queue.waiting() == Map::<usize, EncodedChunk>::empty(),
            queue.next() == next_expected,
    {
        ChunkQueue { pending: BTreeMap::new(), next_expected }
    }

    /// The frame that is to come next.
    pub fn next_expected(&self) -> (frame: usize)
        ensures
            frame == self.next(),
    {
        self.next_expected
    }

    /// Takes in a chunk.
    pub fn insert(&mut self, chunk: EncodedChunk)
        ensures
            final(self).waiting() == old(self).waiting().insert(chunk.start_frame, chunk),
            final(self).next() == old(self).next(),
    {
        self.pending.insert(chunk.start_frame, chunk);
    }

    /// Hands out the chunk that is next, if it is there.
    pub fn take_ready(&mut self) -> (ready: Option<EncodedChunk>)
        requires
            old(self).waiting().contains_key(old(self).next()) ==> old(self).next()
                + old(self).waiting()[old(self).next()].frames@.len() <= usize::MAX,
        ensures
            match ready {
                Some(chunk) => {
                    &&& old(self).waiting().contains_key(old(self).next())
                    &&& chunk == old(self).waiting()[old(self).next()]
                    &&& final(self).waiting() == old(self).waiting().remove(old(self).next())
                    &&& final(self).next() == old(self).next() + chunk.frames@.len()
                },
                None => {
                    &&& !old(self).waiting().contains_key(old(self).next())
                    &&& final(self).waiting() == old(self).waiting()
                    &&& final(self).next() == old(self).next()
                },
            },
    {
        match self.pending.remove(&self.next_expected) {
            Some(chunk) => {
                self.next_expected = self.next_expected + chunk.frames.len();
                Some(chunk)
            },
            None => {
                assert(self.pending@ == old(self).pending@);
                None
            },
        }
    }
}

/// Appends the frames of a chunk, and returns the frame that is to come next.
pub fn drain_chunk(
    chunk: EncodedChunk,
    ordered_frames: &mut Vec<EncodedFrame>,
    next_expected: usize,
) -> (next: usize)
    requires
        next_expected + chunk.frames@.len() <= usize::MAX,
    ensures
        final(ordered_frames)@ == old(ordered_frames)@ + chunk.frames@,
        next == next_expected + chunk.frames@.len(),
{
    let count: usize = chunk.frames.len();
    let mut frames = chunk.frames;
    ordered_frames.append(&mut frames);
    next_expected + count
}

/// The chunks that each worker may have waiting, in its queue, at hand and done.
pub const ENCODE_SESSION_WINDOW_DEPTH: usize = 4;

/// The number of workers of a session: at least one, and no more than there are frames.
pub fn session_worker_count(threads: usize, total_frames: usize) -> (workers: usize)
    ensures
        workers >= 1,
        workers <= threads || workers == 1,
        workers <= total_frames || workers == 1,
        workers == threads || workers == total_frames || workers == 1,
        threads <= total_frames && threads >= 1 ==> workers == threads,
        total_frames <= threads && total_frames >= 1 ==> workers == total_frames,
{
    let wanted: usize = if threads == 0 {
        1
    } else {
        threads
    };
    let frames: usize = if total_frames == 0 {
        1
    } else {
        total_frames
    };
    if wanted <= frames {
        wanted
    } else {
        frames
    }
}

/// The number of chunks that a session keeps at a time.
pub fn session_queue_limit(worker_count: usize) -> (limit: usize)
    ensures
        limit == if worker_count * ENCODE_SESSION_WINDOW_DEPTH > usize::MAX {
            worker_count as int
        } else {
            worker_count * ENCODE_SESSION_WINDOW_DEPTH
        },
        limit >= worker_count,
{
    match worker_count.checked_mul(ENCODE_SESSION_WINDOW_DEPTH) {
        Some(limit) => limit,
        None => worker_count,
    }
}

/// The worker that is asked after `offset` others, from the next one on.
pub fn worker_to_ask(next_worker: usize, offset: usize, worker_count: usize) -> (worker: usize)
    requires
        next_worker < worker_count,
        offset < worker_count,
    ensures
        worker == (next_worker + offset) % (worker_count as int),
        worker < worker_count,
{
    if offset < worker_count - next_worker {
        proof {
            vstd::arithmetic::div_mod::lemma_small_mod(
                (next_worker + offset) as nat,
                worker_count as nat,
            );
        }
        next_worker + offset
    } else {
        let worker: usize = offset - (worker_count - next_worker);
        proof {
            vstd::arithmetic::div_mod::lemma_fundamental_div_mod_converse(
                next_worker + offset,
                worker_count as int,
                1,
                worker as int,
            );
        }
        worker
    }
}

/// Asking all workers in turn asks each of them once.
pub proof fn law_all_workers_are_asked(next_worker: nat, worker: nat, worker_count: nat)
    requires
        next_worker < worker_count,
        worker < worker_count,
    ensures
        ({
            let offset = if worker >= next_worker {
                worker - next_worker
            } else {
                worker + worker_count - next_worker
            };
            0 <= offset < worker_count && (next_worker + offset) % (worker_count as int) == worker
        }),
{
    if worker >= next_worker {
        vstd::arithmetic::div_mod::lemma_small_mod(worker, worker_count);
    } else {
        vstd::arithmetic::div_mod::lemma_fundamental_div_mod_converse(
            (worker + worker_count) as int,
            worker_count as int,
            1,
            worker as int,
        );
    }
}

} // verus!
