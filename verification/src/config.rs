//! Shared configuration types for the encoder and decoder.

use vstd::prelude::*;

use crate::level::{profile_of, Level};
use crate::pcm::PcmContainer;

verus! {

/// User-facing encoder configuration for PCM-container-to-FLAC conversion.
#[derive(Debug, PartialEq, Eq)]
pub struct EncoderConfig {
    level: Level,
    threads: usize,
    block_size: u16,
    block_schedule: Option<Vec<u16>>,
    capture_fxmd: bool,
    strict_fxmd_validation: bool,
}

/// The settings of an [`EncoderConfig`].
pub struct EncoderSettings {
    pub level: Level,
    pub threads: usize,
    pub block_size: u16,
    pub block_schedule: Option<Seq<u16>>,
    pub capture_fxmd: bool,
    pub strict_fxmd_validation: bool,
}

impl View for EncoderConfig {
    type V = EncoderSettings;

    closed spec fn view(&self) -> EncoderSettings {
        EncoderSettings {
            level: self.level,
            threads: self.threads,
            block_size: self.block_size,
            block_schedule: match self.block_schedule {
                Some(schedule) => Some(schedule@),
                None => None,
            },
            capture_fxmd: self.capture_fxmd,
            strict_fxmd_validation: self.strict_fxmd_validation,
        }
    }
}

impl Clone for EncoderConfig {
    fn clone(&self) -> (config: Self)
        ensures
            config@ == self@,
    {
        self.copied()
    }
}

/// The highest preset with its block size, one thread and strict metadata capture.
pub open spec fn default_encoder() -> EncoderSettings {
    EncoderSettings {
        level: Level::Level8,
        threads: 1,
        block_size: profile_of(Level::Level8).block_size,
        block_schedule: None,
        capture_fxmd: true,
        strict_fxmd_validation: true,
    }
}

impl Default for EncoderConfig {
    fn default() -> (config: Self)
        ensures
            config@ == default_encoder(),
    {
        let level = Level::Level8;
        EncoderConfig {
            level,
            threads: 1,
            block_size: level.profile().block_size,
            block_schedule: None,
            capture_fxmd: true,
            strict_fxmd_validation: true,
        }
    }
}

/// Settings with another level, and its block size.
pub open spec fn with_level_set(settings: EncoderSettings, level: Level) -> EncoderSettings {
    EncoderSettings { level, block_size: profile_of(level).block_size, ..settings }
}

/// Settings with another thread count, at least one.
pub open spec fn with_threads_set(settings: EncoderSettings, threads: usize) -> EncoderSettings {
    EncoderSettings {
        threads: if threads == 0 {
            1
        } else {
            threads
        },
        ..settings
    }
}

/// Settings with a fixed block size and no schedule.
pub open spec fn with_block_size_set(settings: EncoderSettings, block_size: u16) -> EncoderSettings {
    EncoderSettings { block_size, block_schedule: None, ..settings }
}

/// Settings with a block schedule.
pub open spec fn with_schedule_set(settings: EncoderSettings, schedule: Seq<u16>) -> EncoderSettings {
    EncoderSettings { block_schedule: Some(schedule), ..settings }
}

impl EncoderConfig {
    /// There is always a thread to work.
    #[verifier::type_invariant]
    spec fn has_threads(&self) -> bool {
        self.threads >= 1
    }

    /// Create a fluent builder for [`EncoderConfig`].
    pub fn builder() -> (builder: EncoderBuilder)
        ensures
            builder@ == default_encoder(),
    {
        EncoderBuilder::new()
    }

    /// Return the compression level preset used for encoding.
    pub fn level(&self) -> (level: Level)
        ensures
            level == self@.level,
    {
        self.level
    }

    /// Return the worker thread count.
    pub fn threads(&self) -> (threads: usize)
        ensures
            threads == self@.threads,
            threads >= 1,
    {
        proof {
            use_type_invariant(self);
        }
        self.threads
    }

    /// Return the fixed block size in samples when no custom block schedule is supplied.
    pub fn block_size(&self) -> (block_size: u16)
        ensures
            block_size == self@.block_size,
    {
        self.block_size
    }

    /// Return the optional custom block schedule.
    pub fn block_schedule(&self) -> (schedule: Option<&[u16]>)
        ensures
            match schedule {
                Some(sizes) => self@.block_schedule == Some(sizes@),
                None => self@.block_schedule is None,
            },
    {
        match &self.block_schedule {
            Some(schedule) => Some(schedule.as_slice()),
            None => None,
        }
    }

    /// Return whether encode-side metadata capture imports the private `fxmd` chunk.
    pub fn capture_fxmd(&self) -> (capture: bool)
        ensures
            capture == self@.capture_fxmd,
    {
        self.capture_fxmd
    }

    /// Return whether invalid or duplicate `fxmd` chunks fail metadata capture.
    pub fn strict_fxmd_validation(&self) -> (strict: bool)
        ensures
            strict == self@.strict_fxmd_validation,
    {
        self.strict_fxmd_validation
    }

    /// A configuration with the same settings.
    pub fn copied(&self) -> (config: Self)
        ensures
            config@ == self@,
    {
        proof {
            use_type_invariant(self);
        }
        let block_schedule = match &self.block_schedule {
            Some(schedule) => {
                let mut sizes: Vec<u16> = Vec::new();
                let mut index: usize = 0;
                while index < schedule.len()
                    invariant
                        index <= schedule@.len(),
                        sizes@ == schedule@.take(index as int),
                    decreases schedule.len() - index,
                {
                    sizes.push(schedule[index]);
                    index = index + 1;
                    assert(sizes@ == schedule@.take(index as int));
                }
                assert(sizes@ == schedule@);
                Some(sizes)
            },
            None => None,
        };
        EncoderConfig {
            level: self.level,
            threads: self.threads,
            block_size: self.block_size,
            block_schedule,
            capture_fxmd: self.capture_fxmd,
            strict_fxmd_validation: self.strict_fxmd_validation,
        }
    }

    /// Set the compression level preset.
    ///
    /// This refreshes the block size to the new level's default block size. Any
    /// existing block schedule is left unchanged.
    pub fn with_level(self, level: Level) -> (config: Self)
        ensures
            config@ == with_level_set(self@, level),
    {
        proof {
            use_type_invariant(&self);
        }
        let mut config = self;
        config.level = level;
        config.block_size = level.profile().block_size;
        config
    }

    /// Set the worker thread count, at least 1.
    pub fn with_threads(self, threads: usize) -> (config: Self)
        ensures
            config@ == with_threads_set(self@, threads),
    {
        proof {
            use_type_invariant(&self);
        }
        let mut config = self;
        config.threads = if threads == 0 {
            1
        } else {
            threads
        };
        config
    }

    /// Set a fixed block size and clear any custom block schedule.
    pub fn with_block_size(self, block_size: u16) -> (config: Self)
        ensures
            config@ == with_block_size_set(self@, block_size),
    {
        proof {
            use_type_invariant(&self);
        }
        let mut config = self;
        config.block_size = block_size;
        config.block_schedule = None;
        config
    }

    /// Enable a custom block schedule.
    pub fn with_block_schedule(self, block_schedule: Vec<u16>) -> (config: Self)
        ensures
            config@ == with_schedule_set(self@, block_schedule@),
    {
        proof {
            use_type_invariant(&self);
        }
        let mut config = self;
        config.block_schedule = Some(block_schedule);
        config
    }

    /// Enable or disable `fxmd` import during encode-side WAV metadata capture.
    pub fn with_capture_fxmd(self, capture: bool) -> (config: Self)
        ensures
            config@ == (EncoderSettings { capture_fxmd: capture, ..self@ }),
    {
        proof {
            use_type_invariant(&self);
        }
        let mut config = self;
        config.capture_fxmd = capture;
        config
    }

    /// Enable or disable strict `fxmd` validation during encode-side WAV metadata capture.
    pub fn with_strict_fxmd_validation(self, strict: bool) -> (config: Self)
        ensures
            config@ == (EncoderSettings { strict_fxmd_validation: strict, ..self@ }),
    {
        proof {
            use_type_invariant(&self);
        }
        let mut config = self;
        config.strict_fxmd_validation = strict;
        config
    }
}

/// Fluent builder for [`EncoderConfig`].
#[derive(Debug, Clone, PartialEq, Eq)]
pub struct EncoderBuilder {
    config: EncoderConfig,
}

impl View for EncoderBuilder {
    type V = EncoderSettings;

    closed spec fn view(&self) -> EncoderSettings {
        self.config@
    }
}

impl Default for EncoderBuilder {
    fn default() -> (builder: Self)
        ensures
            builder@ == default_encoder(),
    {
        EncoderBuilder { config: EncoderConfig::default() }
    }
}

impl EncoderBuilder {
    /// Create a new builder starting from [`EncoderConfig::default`].
    pub fn new() -> (builder: Self)
        ensures
            builder@ == default_encoder(),
    {
        EncoderBuilder::default()
    }

    /// Set the compression level preset used by the encoder.
    pub fn level(self, level: Level) -> (builder: Self)
        ensures
            builder@ == with_level_set(self@, level),
    {
        EncoderBuilder { config: self.config.with_level(level) }
    }

    /// Set the worker thread count.
    pub fn threads(self, threads: usize) -> (builder: Self)
        ensures
            builder@ == with_threads_set(self@, threads),
    {
        EncoderBuilder { config: self.config.with_threads(threads) }
    }

    /// Set a fixed block size.
    pub fn block_size(self, block_size: u16) -> (builder: Self)
        ensures
            builder@ == with_block_size_set(self@, block_size),
    {
        EncoderBuilder { config: self.config.with_block_size(block_size) }
    }

    /// Set a custom block schedule.
    pub fn block_schedule(self, block_schedule: Vec<u16>) -> (builder: Self)
        ensures
            builder@ == with_schedule_set(self@, block_schedule@),
    {
        EncoderBuilder { config: self.config.with_block_schedule(block_schedule) }
    }

    /// Enable or disable `fxmd` import during encode-side WAV metadata capture.
    pub fn capture_fxmd(self, capture: bool) -> (builder: Self)
        ensures
            builder@ == (EncoderSettings { capture_fxmd: capture, ..self@ }),
    {
        EncoderBuilder { config: self.config.with_capture_fxmd(capture) }
    }

    /// Enable or disable strict `fxmd` validation during encode-side WAV metadata capture.
    pub fn strict_fxmd_validation(self, strict: bool) -> (builder: Self)
        ensures
            builder@ == (EncoderSettings { strict_fxmd_validation: strict, ..self@ }),
    {
        EncoderBuilder { config: self.config.with_strict_fxmd_validation(strict) }
    }

    /// Finish building the configuration.
    pub fn build(self) -> (config: EncoderConfig)
        ensures
            config@ == self@,
    {
        self.config
    }
}

/// User-facing decode configuration for FLAC-to-PCM-container conversion.
#[derive(Debug, Clone, Copy, PartialEq, Eq)]
pub struct DecodeConfig {
    threads: usize,
    emit_fxmd: bool,
    output_container: PcmContainer,
    strict_channel_mask_provenance: bool,
    strict_seektable_validation: bool,
}

/// The settings of a [`DecodeConfig`].
pub struct DecodeSettings {
    pub threads: usize,
    pub emit_fxmd: bool,
    pub output_container: PcmContainer,
    pub strict_channel_mask_provenance: bool,
    pub strict_seektable_validation: bool,
}

impl View for DecodeConfig {
    type V = DecodeSettings;

    closed spec fn view(&self) -> DecodeSettings {
        DecodeSettings {
            threads: self.threads,
            emit_fxmd: self.emit_fxmd,
            output_container: self.output_container,
            strict_channel_mask_provenance: self.strict_channel_mask_provenance,
            strict_seektable_validation: self.strict_seektable_validation,
        }
    }
}

/// One thread, emitted metadata and no extra checks.
pub open spec fn default_decoder() -> DecodeSettings {
    DecodeSettings {
        threads: 1,
        emit_fxmd: true,
        output_container: PcmContainer::Auto,
        strict_channel_mask_provenance: false,
        strict_seektable_validation: false,
    }
}

impl Default for DecodeConfig {
    fn default() -> (config: Self)
        ensures
            config@ == default_decoder(),
    {
        DecodeConfig {
            threads: 1,
            emit_fxmd: true,
            output_container: PcmContainer::Auto,
            strict_channel_mask_provenance: false,
            strict_seektable_validation: false,
        }
    }
}

/// Settings with another thread count, at least one.
pub open spec fn with_decode_threads(settings: DecodeSettings, threads: usize) -> DecodeSettings {
    DecodeSettings {
        threads: if threads == 0 {
            1
        } else {
            threads
        },
        ..settings
    }
}

impl DecodeConfig {
    /// There is always a thread to work.
    #[verifier::type_invariant]
    spec fn has_threads(&self) -> bool {
        self.threads >= 1
    }

    /// Create a fluent builder for [`DecodeConfig`].
    pub fn builder() -> (builder: DecodeBuilder)
        ensures
            builder@ == default_decoder(),
    {
        DecodeBuilder::new()
    }

    /// Return the worker thread count.
    pub fn threads(&self) -> (value: usize)
        ensures
            value == self@.threads,
            value >= 1,
    {
        proof {
            use_type_invariant(self);
        }
        self.threads
    }

    /// Return whether decode-side RIFF-family output emits the private `fxmd` chunk.
    pub fn emit_fxmd(&self) -> (value: bool)
        ensures
            value == self@.emit_fxmd,
    {
        self.emit_fxmd
    }

    /// Return the selected output PCM container family.
    pub fn output_container(&self) -> (value: PcmContainer)
        ensures
            value == self@.output_container,
    {
        self.output_container
    }

    /// Return whether strict channel-mask provenance checks are enabled.
    pub fn strict_channel_mask_provenance(&self) -> (value: bool)
        ensures
            value == self@.strict_channel_mask_provenance,
    {
        self.strict_channel_mask_provenance
    }

    /// Return whether strict seektable validation is enabled.
    pub fn strict_seektable_validation(&self) -> (value: bool)
        ensures
            value == self@.strict_seektable_validation,
    {
        self.strict_seektable_validation
    }

    /// Set the worker thread count, at least 1.
    pub fn with_threads(self, threads: usize) -> (config: Self)
        ensures
            config@ == with_decode_threads(self@, threads),
    {
        proof {
            use_type_invariant(&self);
        }
        let mut config = self;
        config.threads = if threads == 0 {
            1
        } else {
            threads
        };
        config
    }

    /// Enable or disable `fxmd` emission in decoded RIFF-family output.
    pub fn with_emit_fxmd(self, emit: bool) -> (config: Self)
        ensures
            config@ == (DecodeSettings { emit_fxmd: emit, ..self@ }),
    {
        proof {
            use_type_invariant(&self);
        }
        let mut config = self;
        config.emit_fxmd = emit;
        config
    }

    /// Select the PCM container family used for decoded output.
    pub fn with_output_container(self, output_container: PcmContainer) -> (config: Self)
        ensures
            config@ == (DecodeSettings { output_container, ..self@ }),
    {
        proof {
            use_type_invariant(&self);
        }
        let mut config = self;
        config.output_container = output_container;
        config
    }

    /// Enable or disable strict channel-mask provenance checks.
    pub fn with_strict_channel_mask_provenance(self, strict: bool) -> (config: Self)
        ensures
            config@ == (DecodeSettings { strict_channel_mask_provenance: strict, ..self@ }),
    {
        proof {
            use_type_invariant(&self);
        }
        let mut config = self;
        config.strict_channel_mask_provenance = strict;
        config
    }

    /// Enable or disable strict seektable validation.
    pub fn with_strict_seektable_validation(self, strict: bool) -> (config: Self)
        ensures
            config@ == (DecodeSettings { strict_seektable_validation: strict, ..self@ }),
    {
        proof {
            use_type_invariant(&self);
        }
        let mut config = self;
        config.strict_seektable_validation = strict;
        config
    }
}

/// Fluent builder for [`DecodeConfig`].
#[derive(Debug, Clone, Copy, PartialEq, Eq)]
pub struct DecodeBuilder {
    config: DecodeConfig,
}

impl View for DecodeBuilder {
    type V = DecodeSettings;

    closed spec fn view(&self) -> DecodeSettings {
        self.config@
    }
}

impl Default for DecodeBuilder {
    fn default() -> (builder: Self)
        ensures
            builder@ == default_decoder(),
    {
        DecodeBuilder { config: DecodeConfig::default() }
    }
}

impl DecodeBuilder {
    /// Create a new builder starting from [`DecodeConfig::default`].
    pub fn new() -> (builder: Self)
        ensures
            builder@ == default_decoder(),
    {
        DecodeBuilder::default()
    }

    /// Set the worker thread count, at least 1.
    pub fn threads(self, threads: usize) -> (builder: Self)
        ensures
            builder@ == with_decode_threads(self@, threads),
    {
        DecodeBuilder { config: self.config.with_threads(threads) }
    }

    /// Enable or disable `fxmd` emission in decoded RIFF-family output.
    pub fn emit_fxmd(self, emit: bool) -> (builder: Self)
        ensures
            builder@ == (DecodeSettings { emit_fxmd: emit, ..self@ }),
    {
        DecodeBuilder { config: self.config.with_emit_fxmd(emit) }
    }

    /// Select the PCM container family used for decoded output.
    pub fn output_container(self, output_container: PcmContainer) -> (builder: Self)
        ensures
            builder@ == (DecodeSettings { output_container, ..self@ }),
    {
        DecodeBuilder { config: self.config.with_output_container(output_container) }
    }

    /// Enable or disable strict channel-mask provenance checks.
    pub fn strict_channel_mask_provenance(self, strict: bool) -> (builder: Self)
        ensures
            builder@ == (DecodeSettings { strict_channel_mask_provenance: strict, ..self@ }),
    {
        DecodeBuilder { config: self.config.with_strict_channel_mask_provenance(strict) }
    }

    /// Enable or disable strict seektable validation.
    pub fn strict_seektable_validation(self, strict: bool) -> (builder: Self)
        ensures
            builder@ == (DecodeSettings { strict_seektable_validation: strict, ..self@ }),
    {
        DecodeBuilder { config: self.config.with_strict_seektable_validation(strict) }
    }

    /// Finish building the configuration.
    pub fn build(self) -> (config: DecodeConfig)
        ensures
            config@ == self@,
    {
        self.config
    }
}

/// A block size that was set does not outlive a later level, but a level leaves a
/// schedule alone; a fixed block size ends a schedule.
pub proof fn law_levels_and_block_sizes(
    settings: EncoderSettings,
    level: Level,
    block_size: u16,
    schedule: Seq<u16>,
)
    ensures
        with_level_set(with_block_size_set(settings, block_size), level).block_size == profile_of(
            level,
        ).block_size,
        with_level_set(with_schedule_set(settings, schedule), level).block_schedule == Some(
            schedule,
        ),
        with_block_size_set(with_schedule_set(settings, schedule), block_size).block_schedule
            is None,
        with_block_size_set(with_schedule_set(settings, schedule), block_size).block_size
            == block_size,
{
}

} // verus!
