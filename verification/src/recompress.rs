//! Settings and reports of recompression.

use vstd::prelude::*;

use crate::level::{profile_of, Level};

verus! {

/// How strictly an input is taken.
#[derive(Debug, Clone, Copy, PartialEq, Eq, Structural)]
pub enum RecompressMode {
    Loose,
    Default,
    Strict,
}

/// What a FLAC reader insists on.
#[derive(Debug, Clone, Copy, PartialEq, Eq, Structural)]
pub struct FlacReaderOptions {
    pub strict_seektable_validation: bool,
    pub strict_channel_mask_provenance: bool,
}

/// Settings of a recompression.
#[derive(Debug, Clone, Copy, PartialEq, Eq, Structural)]
pub struct RecompressConfig {
    mode: RecompressMode,
    level: Level,
    threads: usize,
    block_size: u16,
}

/// The settings of a [`RecompressConfig`].
pub struct RecompressSettings {
    pub mode: RecompressMode,
    pub level: Level,
    pub threads: usize,
    pub block_size: u16,
}

impl View for RecompressConfig {
    type V = RecompressSettings;

    closed spec fn view(&self) -> RecompressSettings {
        RecompressSettings {
            mode: self.mode,
            level: self.level,
            threads: self.threads,
            block_size: self.block_size,
        }
    }
}

/// The default settings of a recompression.
pub open spec fn default_recompression() -> RecompressSettings {
    RecompressSettings {
        mode: RecompressMode::Default,
        level: Level::Level8,
        threads: 1,
        block_size: profile_of(Level::Level8).block_size,
    }
}

impl Default for RecompressConfig {
    fn default() -> (config: Self)
        ensures
            config@ == default_recompression(),
    {
        let level = Level::Level8;
        RecompressConfig {
            mode: RecompressMode::Default,
            level,
            threads: 1,
            block_size: level.profile().block_size,
        }
    }
}

impl RecompressConfig {
    /// There is always a thread to work.
    #[verifier::type_invariant]
    spec fn has_threads(&self) -> bool {
        self.threads >= 1
    }

    /// How strictly the input is taken.
    pub fn mode(&self) -> (mode: RecompressMode)
        ensures
            mode == self@.mode,
    {
        self.mode
    }

    /// The compression level preset.
    pub fn level(&self) -> (level: Level)
        ensures
            level == self@.level,
    {
        self.level
    }

    /// The worker thread count.
    pub fn threads(&self) -> (threads: usize)
        ensures
            threads == self@.threads,
            threads >= 1,
    {
        proof {
            use_type_invariant(self);
        }
        self.threads
    }

    /// The block size in samples.
    pub fn block_size(&self) -> (block_size: u16)
        ensures
            block_size == self@.block_size,
    {
        self.block_size
    }

    /// Set how strictly the input is taken.
    pub fn with_mode(self, mode: RecompressMode) -> (config: Self)
        ensures
            config@ == (RecompressSettings { mode, ..self@ }),
    {
        proof {
            use_type_invariant(&self);
        }
        let mut config = self;
        config.mode = mode;
        config
    }

    /// Set the compression level preset and its block size.
    pub fn with_level(self, level: Level) -> (config: Self)
        ensures
            config@ == (RecompressSettings {
                level,
                block_size: profile_of(level).block_size,
                ..self@
            }),
    {
        proof {
            use_type_invariant(&self);
        }
        let mut config = self;
        config.level = level;
        config.block_size = level.profile().block_size;
        config
    }

    /// Set the worker thread count, at least 1.
    pub fn with_threads(self, threads: usize) -> (config: Self)
        ensures
            config@ == (RecompressSettings {
                threads: if threads == 0 {
                    1
                } else {
                    threads
                },
                ..self@
            }),
    {
        proof {
            use_type_invariant(&self);
        }
        let mut config = self;
        config.threads = if threads == 0 {
            1
        } else {
            threads
        };
        config
    }

    /// Set the block size.
    pub fn with_block_size(self, block_size: u16) -> (config: Self)
        ensures
            config@ == (RecompressSettings { block_size, ..self@ }),
    {
        proof {
            use_type_invariant(&self);
        }
        let mut config = self;
        config.block_size = block_size;
        config
    }
}

/// What a reader insists on in a mode.
pub fn recompress_reader_options(config: RecompressConfig) -> (options: FlacReaderOptions)
    ensures
        options == (FlacReaderOptions {
            strict_seektable_validation: config@.mode == RecompressMode::Strict,
            strict_channel_mask_provenance: config@.mode == RecompressMode::Strict,
        }),
{
    match config.mode() {
        RecompressMode::Strict => FlacReaderOptions {
            strict_seektable_validation: true,
            strict_channel_mask_provenance: true,
        },
        _ => FlacReaderOptions {
            strict_seektable_validation: false,
            strict_channel_mask_provenance: false,
        },
    }
}

/// What a recompression is doing.
#[derive(Debug, Clone, Copy, PartialEq, Eq, Structural)]
pub enum RecompressPhase {
    Decode,
    Encode,
}

impl RecompressPhase {
    /// The name that is shown for the phase.
    pub fn as_str(self) -> (name: &'static str)
        ensures
            name@ == phase_name(self),
    {
        match self {
            RecompressPhase::Decode => "Decode",
            RecompressPhase::Encode => "Encode",
        }
    }
}

/// The name that is shown for a phase.
pub open spec fn phase_name(phase: RecompressPhase) -> Seq<char> {
    match phase {
        RecompressPhase::Decode => "Decode"@,
        RecompressPhase::Encode => "Encode"@,
    }
}

/// How far a recompression has come.
#[derive(Debug, Clone, Copy, PartialEq, Eq, Structural)]
pub struct RecompressProgress {
    pub phase: RecompressPhase,
    pub phase_processed_samples: u64,
    pub phase_total_samples: u64,
    pub overall_processed_samples: u64,
    pub overall_total_samples: u64,
    pub completed_frames: usize,
    pub total_frames: usize,
    pub phase_input_bytes_read: u64,
    pub phase_output_bytes_written: u64,
    pub overall_input_bytes_read: u64,
    pub overall_output_bytes_written: u64,
}

} // verus!
