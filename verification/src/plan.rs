//! The frames that a stream is cut into.

use vstd::arithmetic::div_mod::lemma_fundamental_div_mod;
use vstd::arithmetic::mul::{lemma_mul_inequality, lemma_mul_is_commutative};
use vstd::prelude::*;

use crate::config::{EncoderConfig, EncoderSettings};
use crate::error::{Error, ErrorView, Result};
use crate::frame_header::FrameHeaderNumber;
use crate::level::{profile_of, LevelProfile};
use crate::pcm::PcmSpec;
use crate::stream_info::{new_info, StreamInfo};
use crate::text::{decimal, labelled};

verus! {

/// The smallest block that a stream may plan.
pub const MIN_BLOCK_SIZE: u16 = 16;

/// What the headers of frames count.
#[derive(Debug, Clone, Copy, PartialEq, Eq, Structural)]
pub enum FrameCodedNumberKind {
    FrameNumber,
    SampleNumber,
}

/// A frame of a plan.
#[derive(Debug, Clone, Copy, PartialEq, Eq, Structural)]
pub struct FramePlan {
    /// Samples per channel in front of the frame.
    pub sample_offset: u64,
    /// Samples per channel in the frame.
    pub block_size: u16,
    /// What the frame's header counts.
    pub coded_number_kind: FrameCodedNumberKind,
    /// The number in the frame's header.
    pub coded_number: u64,
}

/// The number of blocks of one size that hold a number of samples.
pub open spec fn block_count(total: nat, block_size: nat) -> nat {
    (total + block_size - 1) as nat / block_size
}

/// Blocks of one size, of which the last holds what is left.
pub open spec fn fixed_blocks(total: nat, block_size: nat) -> Seq<u16> {
    Seq::new(
        block_count(total, block_size),
        |i: int|
            if (i + 1) * block_size <= total {
                block_size as u16
            } else {
                (total - i * block_size) as u16
            },
    )
}

/// The blocks that settings ask for.
pub open spec fn planned_blocks(total: nat, settings: EncoderSettings) -> Seq<u16> {
    match settings.block_schedule {
        Some(schedule) => schedule,
        None => fixed_blocks(total, settings.block_size as nat),
    }
}

/// The samples of blocks.
pub open spec fn blocks_total(blocks: Seq<u16>) -> nat
    decreases blocks.len(),
{
    if blocks.len() == 0 {
        0
    } else {
        blocks_total(blocks.drop_last()) + blocks.last() as nat
    }
}

/// The samples in front of a block.
pub open spec fn block_offset(blocks: Seq<u16>, index: int) -> nat {
    blocks_total(blocks.take(index))
}

/// A block of a schedule is large enough. The last one may be smaller, but not empty.
pub open spec fn block_is_allowed(schedule: Seq<u16>, index: int) -> bool {
    schedule[index] >= MIN_BLOCK_SIZE || (index == schedule.len() - 1 && schedule[index] >= 1)
}

/// All blocks of a schedule are allowed.
pub open spec fn schedule_is_allowed(schedule: Seq<u16>) -> bool {
    forall|i: int| 0 <= i < schedule.len() ==> #[trigger] block_is_allowed(schedule, i)
}

/// Why a stream cannot be planned, if it cannot.
pub open spec fn plan_failure(spec: PcmSpec, settings: EncoderSettings) -> Option<ErrorView> {
    if !(1 <= spec.sample_rate < 0x10_0000) {
        Some(
            ErrorView::UnsupportedFlac(
                "sample rate must be in the 1..1048575 range, found "@ + decimal(
                    spec.sample_rate as nat,
                ),
            ),
        )
    } else if !(1 <= spec.channels <= 8) {
        Some(
            ErrorView::UnsupportedFlac(
                "channel count must be in the 1..8 range, found "@ + decimal(spec.channels as nat),
            ),
        )
    } else if !(4 <= spec.bits_per_sample <= 32) {
        Some(
            ErrorView::UnsupportedFlac(
                "bits per sample must be in the 4..32 range, found "@ + decimal(
                    spec.bits_per_sample as nat,
                ),
            ),
        )
    } else if spec.total_samples >= 0x10_0000_0000 {
        Some(
            ErrorView::UnsupportedFlac(
                "total samples must be below 68719476736, found "@ + decimal(
                    spec.total_samples as nat,
                ),
            ),
        )
    } else {
        match settings.block_schedule {
            None => if settings.block_size < MIN_BLOCK_SIZE {
                Some(
                    ErrorView::Encode(
                        "block size must be at least 16, found "@ + decimal(
                            settings.block_size as nat,
                        ),
                    ),
                )
            } else if block_count(spec.total_samples as nat, settings.block_size as nat)
                > usize::MAX {
                Some(ErrorView::Encode("frame count exceeds the addressable range"@))
            } else {
                None
            },
            Some(schedule) => if !schedule_is_allowed(schedule) {
                Some(ErrorView::Encode("block schedule holds a block that is too small"@))
            } else if blocks_total(schedule) != spec.total_samples {
                Some(
                    ErrorView::Encode(
                        "block schedule must cover the total sample count exactly"@,
                    ),
                )
            } else {
                None
            },
        }
    }
}

/// The samples in front of blocks grow.
pub proof fn lemma_offsets_grow(blocks: Seq<u16>, index: int, later: int)
    requires
        0 <= index <= later <= blocks.len(),
    ensures
        block_offset(blocks, index) <= block_offset(blocks, later),
        later == blocks.len() ==> block_offset(blocks, later) == blocks_total(blocks),
    decreases later - index,
{
    if index < later {
        lemma_offsets_grow(blocks, index, later - 1);
        let next = blocks.take(later);
        assert(next.drop_last() == blocks.take(later - 1));
    }
    if later == blocks.len() {
        assert(blocks.take(later) == blocks);
    }
}

/// The samples in front of the next block.
pub proof fn lemma_next_offset(blocks: Seq<u16>, index: int)
    requires
        0 <= index < blocks.len(),
    ensures
        block_offset(blocks, index + 1) == block_offset(blocks, index) + blocks[index],
{
    assert(blocks.take(index + 1).drop_last() == blocks.take(index));
}

proof fn lemma_fixed_size(total: nat, block_size: nat, index: int)
    requires
        1 <= block_size <= 65535,
        0 <= index < block_count(total, block_size),
    ensures
        index * block_size < total,
        fixed_blocks(total, block_size)[index] as int == if total - index * block_size
            < block_size {
            total - index * block_size
        } else {
            block_size as int
        },
        1 <= fixed_blocks(total, block_size)[index],
{
    lemma_fundamental_div_mod(total + block_size - 1, block_size as int);
    let count = block_count(total, block_size) as int;
    lemma_mul_inequality(index + 1, count, block_size as int);
    lemma_mul_is_commutative(block_size as int, count);
    assert((index + 1) * block_size == index * block_size + block_size) by (nonlinear_arith);
}

/// Blocks of one size start at multiples of it.
pub proof fn lemma_fixed_offset(total: nat, block_size: nat, index: int)
    requires
        1 <= block_size <= 65535,
        0 <= index <= block_count(total, block_size),
    ensures
        index < block_count(total, block_size) ==> block_offset(
            fixed_blocks(total, block_size),
            index,
        ) == index * block_size,
        index == block_count(total, block_size) ==> block_offset(
            fixed_blocks(total, block_size),
            index,
        ) == total,
    decreases index,
{
    let blocks = fixed_blocks(total, block_size);
    let count = block_count(total, block_size) as int;
    if index > 0 {
        lemma_fixed_offset(total, block_size, index - 1);
        lemma_next_offset(blocks, index - 1);
        lemma_fixed_size(total, block_size, index - 1);
        assert(index * block_size == (index - 1) * block_size + block_size) by (nonlinear_arith);
        if index < count {
            lemma_fixed_size(total, block_size, index);
        } else {
            lemma_fundamental_div_mod(total + block_size - 1, block_size as int);
            lemma_mul_is_commutative(block_size as int, count);
        }
    } else {
        assert(blocks.take(0) == Seq::<u16>::empty());
        assert(0 * block_size == 0);
        if count == 0 {
            lemma_fundamental_div_mod(total + block_size - 1, block_size as int);
            assert(block_size * 0 == 0);
        }
    }
}

/// The frames of a stream.
#[derive(Debug, Clone)]
pub struct EncodePlan {
    spec: PcmSpec,
    profile: LevelProfile,
    block_size: u16,
    schedule: Option<Vec<u16>>,
    offsets: Vec<u64>,
    total_frames: usize,
}

/// What a plan says of a stream.
pub struct PlanView {
    pub spec: PcmSpec,
    pub effort: LevelProfile,
    pub blocks: Seq<u16>,
    pub variable: bool,
}

impl View for EncodePlan {
    type V = PlanView;

    open spec fn view(&self) -> PlanView {
        PlanView {
            spec: self.description(),
            effort: self.effort(),
            blocks: self.blocks(),
            variable: self.is_variable(),
        }
    }
}

impl EncodePlan {
    /// The plan keeps its own rules.
    pub closed spec fn is_valid(&self) -> bool {
        &&& 1 <= self.spec.sample_rate < 0x10_0000
        &&& 1 <= self.spec.channels <= 8
        &&& 4 <= self.spec.bits_per_sample <= 32
        &&& self.spec.total_samples < 0x10_0000_0000
        &&& self.blocks().len() == self.total_frames
        &&& blocks_total(self.blocks()) == self.spec.total_samples
        &&& match self.schedule {
            None => self.block_size >= MIN_BLOCK_SIZE,
            Some(schedule) => {
                &&& schedule_is_allowed(schedule@)
                &&& self.offsets@.len() == schedule@.len()
                &&& forall|i: int|
                    0 <= i < schedule@.len() ==> #[trigger] self.offsets@[i] == block_offset(
                        schedule@,
                        i,
                    )
            },
        }
    }

    /// The description of the stream.
    pub closed spec fn description(&self) -> PcmSpec {
        self.spec
    }

    /// How hard the encoder tries.
    pub closed spec fn effort(&self) -> LevelProfile {
        self.profile
    }

    /// The blocks of the stream.
    pub closed spec fn blocks(&self) -> Seq<u16> {
        match self.schedule {
            Some(schedule) => schedule@,
            None => fixed_blocks(self.spec.total_samples as nat, self.block_size as nat),
        }
    }

    /// Frames may differ in size.
    pub closed spec fn is_variable(&self) -> bool {
        self.schedule is Some
    }

    /// The size of most blocks.
    pub closed spec fn common_size(&self) -> u16 {
        self.block_size
    }

    /// Plans a stream.
    pub fn new(spec: PcmSpec, config: &EncoderConfig) -> (plan: Result<Self>)
        ensures
            match plan_failure(spec, config@) {
                Some(expected) => plan matches Err(error) && error@ == expected,
                None => plan matches Ok(found) && is_plan(found, spec, config@),
            },
    {
        if !(1 <= spec.sample_rate && spec.sample_rate < 0x10_0000) {
            return Err(
                Error::UnsupportedFlac(
                    labelled(
                        "sample rate must be in the 1..1048575 range, found ",
                        spec.sample_rate as u64,
                    ),
                ),
            );
        }
        if !(1 <= spec.channels && spec.channels <= 8) {
            return Err(
                Error::UnsupportedFlac(
                    labelled(
                        "channel count must be in the 1..8 range, found ",
                        spec.channels as u64,
                    ),
                ),
            );
        }
        if !(4 <= spec.bits_per_sample && spec.bits_per_sample <= 32) {
            return Err(
                Error::UnsupportedFlac(
                    labelled(
                        "bits per sample must be in the 4..32 range, found ",
                        spec.bits_per_sample as u64,
                    ),
                ),
            );
        }
        if spec.total_samples >= 0x10_0000_0000 {
            return Err(
                Error::UnsupportedFlac(
                    labelled("total samples must be below 68719476736, found ", spec.total_samples),
                ),
            );
        }
        match config.block_schedule() {
            None => EncodePlan::with_fixed_blocks(spec, config),
            Some(schedule) => EncodePlan::with_schedule(spec, config, schedule),
        }
    }

    fn with_fixed_blocks(spec: PcmSpec, config: &EncoderConfig) -> (plan: Result<Self>)
        requires
            1 <= spec.sample_rate < 0x10_0000,
            1 <= spec.channels <= 8,
            4 <= spec.bits_per_sample <= 32,
            spec.total_samples < 0x10_0000_0000,
            config@.block_schedule is None,
        ensures
            match plan_failure(spec, config@) {
                Some(expected) => plan matches Err(error) && error@ == expected,
                None => plan matches Ok(found) && is_plan(found, spec, config@),
            },
    {
        let block_size: u16 = config.block_size();
        if block_size < MIN_BLOCK_SIZE {
            return Err(
                Error::Encode(labelled("block size must be at least 16, found ", block_size as u64)),
            );
        }
        let frames: u64 = (spec.total_samples + (block_size as u64 - 1)) / block_size as u64;
        if frames > usize::MAX as u64 {
            return Err(Error::Encode("frame count exceeds the addressable range".to_owned()));
        }
        proof {
            let total = spec.total_samples as nat;
            let size = block_size as nat;
            let blocks = fixed_blocks(total, size);
            lemma_fixed_offset(total, size, block_count(total, size) as int);
            assert(blocks.take(blocks.len() as int) == blocks);
        }
        Ok(
            EncodePlan {
                spec,
                profile: config.level().profile(),
                block_size,
                schedule: None,
                offsets: Vec::new(),
                total_frames: frames as usize,
            },
        )
    }

    fn with_schedule(spec: PcmSpec, config: &EncoderConfig, schedule: &[u16]) -> (plan: Result<Self>)
        requires
            1 <= spec.sample_rate < 0x10_0000,
            1 <= spec.channels <= 8,
            4 <= spec.bits_per_sample <= 32,
            spec.total_samples < 0x10_0000_0000,
            config@.block_schedule == Some(schedule@),
        ensures
            match plan_failure(spec, config@) {
                Some(expected) => plan matches Err(error) && error@ == expected,
                None => plan matches Ok(found) && is_plan(found, spec, config@),
            },
    {
        let ghost blocks = schedule@;
        let mut index: usize = 0;
        while index < schedule.len()
            invariant
                index <= schedule@.len(),
                blocks == schedule@,
                config@.block_schedule == Some(blocks),
                1 <= spec.sample_rate < 0x10_0000,
                1 <= spec.channels <= 8,
                4 <= spec.bits_per_sample <= 32,
                spec.total_samples < 0x10_0000_0000,
                forall|i: int| 0 <= i < index ==> #[trigger] block_is_allowed(blocks, i),
            decreases schedule.len() - index,
        {
            let size: u16 = schedule[index];
            let is_last = index == schedule.len() - 1;
            if !(size >= MIN_BLOCK_SIZE || (is_last && size >= 1)) {
                assert(!block_is_allowed(blocks, index as int));
                return Err(
                    Error::Encode("block schedule holds a block that is too small".to_owned()),
                );
            }
            assert(block_is_allowed(blocks, index as int));
            index = index + 1;
        }
        let mut sizes: Vec<u16> = Vec::new();
        let mut offsets: Vec<u64> = Vec::new();
        let mut total: u64 = 0;
        let mut index: usize = 0;
        assert(blocks.take(0) == Seq::<u16>::empty());
        while index < schedule.len()
            invariant
                index <= schedule@.len(),
                blocks == schedule@,
                config@.block_schedule == Some(blocks),
                1 <= spec.sample_rate < 0x10_0000,
                1 <= spec.channels <= 8,
                4 <= spec.bits_per_sample <= 32,
                spec.total_samples < 0x10_0000_0000,
                schedule_is_allowed(blocks),
                sizes@ == blocks.take(index as int),
                total == block_offset(blocks, index as int),
                total <= spec.total_samples,
                offsets@.len() == index,
                forall|i: int|
                    0 <= i < index ==> #[trigger] offsets@[i] == block_offset(blocks, i),
            decreases schedule.len() - index,
        {
            proof {
                lemma_next_offset(blocks, index as int);
                lemma_offsets_grow(blocks, index + 1, blocks.len() as int);
            }
            let size: u16 = schedule[index];
            sizes.push(size);
            offsets.push(total);
            total = total + size as u64;
            index = index + 1;
            assert(sizes@ == blocks.take(index as int));
            if total > spec.total_samples {
                return Err(
                    Error::Encode(
                        "block schedule must cover the total sample count exactly".to_owned(),
                    ),
                );
            }
        }
        assert(blocks.take(index as int) == blocks);
        if total != spec.total_samples {
            return Err(
                Error::Encode(
                    "block schedule must cover the total sample count exactly".to_owned(),
                ),
            );
        }
        let total_frames: usize = schedule.len();
        Ok(
            EncodePlan {
                spec,
                profile: config.level().profile(),
                block_size: config.block_size(),
                schedule: Some(sizes),
                offsets,
                total_frames,
            },
        )
    }

    /// What every plan keeps.
    pub proof fn lemma_description(&self)
        requires
            self.is_valid(),
        ensures
            1 <= self.description().sample_rate < 0x10_0000,
            1 <= self.description().channels <= 8,
            4 <= self.description().bits_per_sample <= 32,
            self.description().total_samples < 0x10_0000_0000,
            blocks_total(self.blocks()) == self.description().total_samples,
            self.blocks().len() <= usize::MAX,
            forall|i: int| 0 <= i < self.blocks().len() ==> #[trigger] self.blocks()[i] >= 1,
    {
        assert forall|i: int| 0 <= i < self.blocks().len() implies #[trigger] self.blocks()[i]
            >= 1 by {
            match self.schedule {
                Some(schedule) => {
                    assert(block_is_allowed(schedule@, i));
                },
                None => {
                    lemma_fixed_size(self.spec.total_samples as nat, self.block_size as nat, i);
                },
            }
        }
    }

    /// The description of the stream.
    pub fn spec(&self) -> (spec: PcmSpec)
        ensures
            spec == self.description(),
    {
        self.spec
    }

    /// How hard the encoder tries.
    pub fn profile(&self) -> (profile: LevelProfile)
        ensures
            profile == self.effort(),
    {
        self.profile
    }

    /// The number of frames.
    pub fn total_frames(&self) -> (frames: usize)
        requires
            self.is_valid(),
        ensures
            frames == self.blocks().len(),
    {
        self.total_frames
    }

    /// A frame of the stream.
    pub fn frame(&self, index: usize) -> (frame: FramePlan)
        requires
            self.is_valid(),
            index < self.blocks().len(),
        ensures
            frame == planned_frame(self.blocks(), self.is_variable(), index as int),
            frame.block_size >= 1,
            frame.sample_offset + frame.block_size <= self.description().total_samples,
            self.description().total_samples < 0x10_0000_0000,
    {
        proof {
            lemma_next_offset(self.blocks(), index as int);
            lemma_offsets_grow(self.blocks(), index + 1, self.blocks().len() as int);
        }
        match &self.schedule {
            Some(schedule) => {
                assert(block_is_allowed(schedule@, index as int));
                let offset: u64 = self.offsets[index];
                FramePlan {
                    sample_offset: offset,
                    block_size: schedule[index],
                    coded_number_kind: FrameCodedNumberKind::SampleNumber,
                    coded_number: offset,
                }
            },
            None => {
                proof {
                    let total = self.spec.total_samples as nat;
                    lemma_fixed_size(total, self.block_size as nat, index as int);
                    lemma_fixed_offset(total, self.block_size as nat, index as int);
                }
                let offset: u64 = index as u64 * self.block_size as u64;
                let left: u64 = self.spec.total_samples - offset;
                let block_size: u16 = if left < self.block_size as u64 {
                    left as u16
                } else {
                    self.block_size
                };
                FramePlan {
                    sample_offset: offset,
                    block_size,
                    coded_number_kind: FrameCodedNumberKind::FrameNumber,
                    coded_number: index as u64,
                }
            },
        }
    }

    /// What is known of the stream before its first frame.
    pub fn stream_info(&self) -> (info: StreamInfo)
        requires
            self.is_valid(),
        ensures
            info == planned_info(
                self.description(),
                self.blocks(),
                self.is_variable(),
                self.common_size(),
            ),
    {
        match &self.schedule {
            None => StreamInfo::new(self.spec, self.block_size, self.block_size),
            Some(schedule) => {
                if schedule.len() == 0 {
                    return StreamInfo::new(self.spec, self.block_size, self.block_size);
                }
                let mut smallest: u16 = schedule[0];
                let mut largest: u16 = schedule[0];
                let mut index: usize = 1;
                while index < schedule.len()
                    invariant
                        1 <= index <= schedule@.len(),
                        smallest == smallest_block(schedule@.take(index as int)),
                        largest == largest_block(schedule@.take(index as int)),
                    decreases schedule.len() - index,
                {
                    proof {
                        assert(schedule@.take(index + 1).drop_last() == schedule@.take(
                            index as int,
                        ));
                    }
                    let size: u16 = schedule[index];
                    if size < smallest {
                        smallest = size;
                    }
                    if size > largest {
                        largest = size;
                    }
                    index = index + 1;
                }
                assert(schedule@.take(index as int) == schedule@);
                StreamInfo::new(self.spec, smallest, largest)
            },
        }
    }
}

/// The smallest block.
pub open spec fn smallest_block(blocks: Seq<u16>) -> u16
    decreases blocks.len(),
{
    if blocks.len() <= 1 {
        blocks[0]
    } else if blocks.last() < smallest_block(blocks.drop_last()) {
        blocks.last()
    } else {
        smallest_block(blocks.drop_last())
    }
}

/// The largest block.
pub open spec fn largest_block(blocks: Seq<u16>) -> u16
    decreases blocks.len(),
{
    if blocks.len() <= 1 {
        blocks[0]
    } else if blocks.last() > largest_block(blocks.drop_last()) {
        blocks.last()
    } else {
        largest_block(blocks.drop_last())
    }
}

/// What is known of a planned stream before its first frame.
pub open spec fn planned_info(spec: PcmSpec, blocks: Seq<u16>, variable: bool, common: u16)
    -> StreamInfo {
    if variable && blocks.len() > 0 {
        new_info(spec, smallest_block(blocks), largest_block(blocks))
    } else {
        new_info(spec, common, common)
    }
}

/// A frame of planned blocks.
pub open spec fn planned_frame(blocks: Seq<u16>, variable: bool, index: int) -> FramePlan {
    FramePlan {
        sample_offset: block_offset(blocks, index) as u64,
        block_size: blocks[index],
        coded_number_kind: if variable {
            FrameCodedNumberKind::SampleNumber
        } else {
            FrameCodedNumberKind::FrameNumber
        },
        coded_number: if variable {
            block_offset(blocks, index) as u64
        } else {
            index as u64
        },
    }
}

/// A plan for a stream with the given settings.
pub open spec fn is_plan(plan: EncodePlan, spec: PcmSpec, settings: EncoderSettings) -> bool {
    &&& plan.is_valid()
    &&& plan.description() == spec
    &&& plan.effort() == profile_of(settings.level)
    &&& plan.blocks() == planned_blocks(spec.total_samples as nat, settings)
    &&& plan.is_variable() == (settings.block_schedule is Some)
    &&& plan.common_size() == settings.block_size
}

/// The number in the header of a frame.
pub open spec fn header_number(kind: FrameCodedNumberKind, number: u64) -> FrameHeaderNumber {
    match kind {
        FrameCodedNumberKind::FrameNumber => FrameHeaderNumber::Frame(number),
        FrameCodedNumberKind::SampleNumber => FrameHeaderNumber::Sample(number),
    }
}

/// The number in the header of a frame.
pub fn frame_header_number(kind: FrameCodedNumberKind, coded_number: u64) -> (number:
    FrameHeaderNumber)
    ensures
        number == header_number(kind, coded_number),
{
    match kind {
        FrameCodedNumberKind::FrameNumber => FrameHeaderNumber::Frame(coded_number),
        FrameCodedNumberKind::SampleNumber => FrameHeaderNumber::Sample(coded_number),
    }
}

/// The blocks of a plan hold all samples, one behind the other, and none is empty.
pub proof fn law_blocks_cover_the_stream(spec: PcmSpec, settings: EncoderSettings)
    requires
        plan_failure(spec, settings) is None,
    ensures
        ({
            let blocks = planned_blocks(spec.total_samples as nat, settings);
            &&& blocks_total(blocks) == spec.total_samples
            &&& forall|i: int| 0 <= i < blocks.len() ==> #[trigger] blocks[i] >= 1
            &&& forall|i: int|
                0 <= i < blocks.len() ==> block_offset(blocks, i + 1) == block_offset(blocks, i)
                    + #[trigger] blocks[i]
        }),
{
    let blocks = planned_blocks(spec.total_samples as nat, settings);
    let total = spec.total_samples as nat;
    if settings.block_schedule is None {
        let size = settings.block_size as nat;
        lemma_fixed_offset(total, size, block_count(total, size) as int);
        assert(blocks.take(blocks.len() as int) == blocks);
        assert forall|i: int| 0 <= i < blocks.len() implies #[trigger] blocks[i] >= 1 by {
            lemma_fixed_size(total, size, i);
        }
    } else {
        assert forall|i: int| 0 <= i < blocks.len() implies #[trigger] blocks[i] >= 1 by {
            assert(block_is_allowed(blocks, i));
        }
    }
    assert forall|i: int| 0 <= i < blocks.len() implies block_offset(blocks, i + 1)
        == block_offset(blocks, i) + #[trigger] blocks[i] by {
        lemma_next_offset(blocks, i);
    }
}

} // verus!
