//! Compression level presets and tuning profiles.
//!
//! The [`Level`] enum exposes the user-facing 0-8 compression presets. Each
//! preset maps to a [`LevelProfile`] that drives encoder block sizing and the
//! search limits of the frame encoder.

use vstd::prelude::*;

verus! {

/// FLAC compression level presets from `0` to `8`.
///
/// Lower presets favor speed and smaller search spaces. Higher presets use more
/// aggressive search settings and larger default block sizes.
#[derive(Debug, Clone, Copy, PartialEq, Eq, Structural)]
pub enum Level {
    /// The least aggressive preset.
    Level0,
    /// Slightly more aggressive than [`Level::Level0`].
    Level1,
    /// A balanced low preset.
    Level2,
    /// A balanced low preset with the same tuning profile as [`Level::Level2`].
    Level3,
    /// Medium preset with larger blocks and deeper search.
    Level4,
    /// Medium preset with a slightly higher residual partition order.
    Level5,
    /// Higher preset with larger search windows.
    Level6,
    /// High preset with exhaustive model search enabled.
    Level7,
    /// The most aggressive preset exposed by this crate.
    Level8,
}

/// Encoder tuning parameters for a [`Level`] preset.
#[derive(Debug, Clone, Copy, PartialEq, Eq, Structural)]
pub struct LevelProfile {
    /// Default block size in samples for the level.
    pub block_size: u16,
    /// Maximum fixed predictor order considered by the encoder.
    pub max_fixed_order: u8,
    /// Maximum LPC order considered by the encoder.
    pub max_lpc_order: u8,
    /// Maximum residual partition order considered by the encoder.
    pub max_residual_partition_order: u8,
    /// Whether mid/side stereo may be used for the level.
    pub use_mid_side_stereo: bool,
    /// Whether the encoder should perform exhaustive model search.
    pub exhaustive_model_search: bool,
}

/// The number of a level.
pub open spec fn level_number(level: Level) -> u8 {
    match level {
        Level::Level0 => 0,
        Level::Level1 => 1,
        Level::Level2 => 2,
        Level::Level3 => 3,
        Level::Level4 => 4,
        Level::Level5 => 5,
        Level::Level6 => 6,
        Level::Level7 => 7,
        Level::Level8 => 8,
    }
}

/// The level with a number.
pub open spec fn level_with_number(number: u8) -> std::result::Result<Level, u8> {
    match number {
        0 => Ok(Level::Level0),
        1 => Ok(Level::Level1),
        2 => Ok(Level::Level2),
        3 => Ok(Level::Level3),
        4 => Ok(Level::Level4),
        5 => Ok(Level::Level5),
        6 => Ok(Level::Level6),
        7 => Ok(Level::Level7),
        8 => Ok(Level::Level8),
        _ => Err(number),
    }
}

/// The tuning table of the presets.
pub open spec fn profile_of(level: Level) -> LevelProfile {
    let number = level_number(level);
    LevelProfile {
        block_size: if number <= 1 {
            576
        } else if number <= 3 {
            1152
        } else if number <= 5 {
            2304
        } else {
            4096
        },
        max_fixed_order: 4,
        max_lpc_order: if number <= 1 {
            0
        } else if number <= 3 {
            8
        } else if number <= 5 {
            12
        } else if number == 6 {
            16
        } else {
            32
        },
        max_residual_partition_order: match level {
            Level::Level0 => 0,
            Level::Level1 => 1,
            Level::Level2 => 2,
            Level::Level3 => 2,
            Level::Level4 => 3,
            Level::Level5 => 4,
            Level::Level6 => 5,
            Level::Level7 => 6,
            Level::Level8 => 6,
        },
        use_mid_side_stereo: number >= 1,
        exhaustive_model_search: number >= 7,
    }
}

impl Level {
    /// Return the tuning profile associated with this level.
    #[inline]
    pub fn profile(self) -> (profile: LevelProfile)
        ensures
            profile == profile_of(self),
    {
        match self {
            Level::Level0 => LevelProfile::new(576, 4, 0, 0, false, false),
            Level::Level1 => LevelProfile::new(576, 4, 0, 1, true, false),
            Level::Level2 => LevelProfile::new(1152, 4, 8, 2, true, false),
            Level::Level3 => LevelProfile::new(1152, 4, 8, 2, true, false),
            Level::Level4 => LevelProfile::new(2304, 4, 12, 3, true, false),
            Level::Level5 => LevelProfile::new(2304, 4, 12, 4, true, false),
            Level::Level6 => LevelProfile::new(4096, 4, 16, 5, true, false),
            Level::Level7 => LevelProfile::new(4096, 4, 32, 6, true, true),
            Level::Level8 => LevelProfile::new(4096, 4, 32, 6, true, true),
        }
    }
}

impl From<Level> for u8 {
    /// Convert a [`Level`] into its numeric representation.
    #[inline]
    fn from(level: Level) -> (number: u8) {
        match level {
            Level::Level0 => 0,
            Level::Level1 => 1,
            Level::Level2 => 2,
            Level::Level3 => 3,
            Level::Level4 => 4,
            Level::Level5 => 5,
            Level::Level6 => 6,
            Level::Level7 => 7,
            Level::Level8 => 8,
        }
    }
}

impl vstd::std_specs::convert::FromSpecImpl<Level> for u8 {
    open spec fn obeys_from_spec() -> bool {
        true
    }

    open spec fn from_spec(level: Level) -> u8 {
        level_number(level)
    }
}

impl std::convert::TryFrom<u8> for Level {
    type Error = u8;

    /// Convert a numeric preset value into a [`Level`].
    #[inline]
    fn try_from(value: u8) -> (level: std::result::Result<Self, u8>) {
        match value {
            0 => Ok(Level::Level0),
            1 => Ok(Level::Level1),
            2 => Ok(Level::Level2),
            3 => Ok(Level::Level3),
            4 => Ok(Level::Level4),
            5 => Ok(Level::Level5),
            6 => Ok(Level::Level6),
            7 => Ok(Level::Level7),
            8 => Ok(Level::Level8),
            _ => Err(value),
        }
    }
}

impl vstd::std_specs::convert::TryFromSpecImpl<u8> for Level {
    open spec fn obeys_try_from_spec() -> bool {
        true
    }

    open spec fn try_from_spec(value: u8) -> std::result::Result<Self, u8> {
        level_with_number(value)
    }
}

impl LevelProfile {
    /// Construct a custom tuning profile.
    ///
    /// This constructor performs no validation; it is a low-level helper for
    /// callers that want to define their own presets.
    #[inline]
    pub fn new(
        block_size: u16,
        max_fixed_order: u8,
        max_lpc_order: u8,
        max_residual_partition_order: u8,
        use_mid_side_stereo: bool,
        exhaustive_model_search: bool,
    ) -> (profile: Self)
        ensures
            profile == (LevelProfile {
                block_size,
                max_fixed_order,
                max_lpc_order,
                max_residual_partition_order,
                use_mid_side_stereo,
                exhaustive_model_search,
            }),
    {
        LevelProfile {
            block_size,
            max_fixed_order,
            max_lpc_order,
            max_residual_partition_order,
            use_mid_side_stereo,
            exhaustive_model_search,
        }
    }
}

/// Levels and their numbers correspond one to one.
pub proof fn law_level_numbers_are_exact(level: Level, number: u8)
    ensures
        level_with_number(level_number(level)) == Ok::<Level, u8>(level),
        number <= 8 <==> level_with_number(number) is Ok,
        level_with_number(number) matches Ok(found) ==> level_number(found) == number,
        level_with_number(number) matches Err(rejected) ==> rejected == number,
{
}

/// A higher level never searches less than a lower one.
pub proof fn law_higher_levels_search_more(low: Level, high: Level)
    requires
        level_number(low) <= level_number(high),
    ensures
        profile_of(low).block_size <= profile_of(high).block_size,
        profile_of(low).max_fixed_order <= profile_of(high).max_fixed_order,
        profile_of(low).max_lpc_order <= profile_of(high).max_lpc_order,
        profile_of(low).max_residual_partition_order
            <= profile_of(high).max_residual_partition_order,
        profile_of(low).use_mid_side_stereo ==> profile_of(high).use_mid_side_stereo,
        profile_of(low).exhaustive_model_search ==> profile_of(high).exhaustive_model_search,
{
}

/// The presets search as far as they are published to: by their numbers, the block sizes, the
/// orders of linear prediction and the partition orders; mid/side stereo from level 1 on, and
/// an exhaustive search from level 7 on.
pub proof fn law_levels_search_as_published(level: Level)
    ensures
        ({
            let number = level_number(level) as int;
            let profile = profile_of(level);
            &&& profile.block_size == seq![576int, 576, 1152, 1152, 2304, 2304, 4096, 4096, 4096][number]
            &&& profile.max_fixed_order == 4
            &&& profile.max_lpc_order == seq![0int, 0, 8, 8, 12, 12, 16, 32, 32][number]
            &&& profile.max_residual_partition_order == seq![0int, 1, 2, 2, 3, 4, 5, 6, 6][number]
            &&& profile.use_mid_side_stereo <==> number != 0
            &&& profile.exhaustive_model_search <==> number > 6
        }),
{
}

/// Linear prediction is searched further from level 1 to 2, from 3 to 4, from 5 to 6 and from
/// 6 to 7, and as far within each of these steps; below level 2 there is none.
pub proof fn law_linear_prediction_grows_with_levels(low: Level, high: Level)
    requires
        level_number(low) < level_number(high),
    ensures
        ({
            let below = level_number(low) as int;
            let above = level_number(high) as int;
            let crosses = below < 2 <= above || below < 4 <= above || below < 6 <= above || below
                < 7 <= above;
            &&& profile_of(low).max_lpc_order < profile_of(high).max_lpc_order <==> crosses
            &&& profile_of(low).max_lpc_order == profile_of(high).max_lpc_order <==> !crosses
            &&& below < 2 <==> profile_of(low).max_lpc_order == 0
        }),
{
}

/// The levels are numbered from 0 to 8, and no other number is one of a level.
pub proof fn law_levels_are_numbered_in_order(number: u8)
    ensures
        level_with_number(number) is Ok <==> number <= 8,
        level_with_number(number) matches Ok(level) ==> level_number(level) == number,
        level_with_number(number) matches Err(refused) ==> refused == number,
        level_number(Level::Level0) == 0,
        level_number(Level::Level1) == level_number(Level::Level0) + 1,
        level_number(Level::Level2) == level_number(Level::Level1) + 1,
        level_number(Level::Level3) == level_number(Level::Level2) + 1,
        level_number(Level::Level4) == level_number(Level::Level3) + 1,
        level_number(Level::Level5) == level_number(Level::Level4) + 1,
        level_number(Level::Level6) == level_number(Level::Level5) + 1,
        level_number(Level::Level7) == level_number(Level::Level6) + 1,
        level_number(Level::Level8) == level_number(Level::Level7) + 1,
{
}

} // verus!
