//! Encoder and decoder settings.

use flacx::level::Level;
use flacx::{DecodeConfig, EncoderConfig, PcmContainer};

#[test]
fn with_threads_clamps_to_one() {
    assert_eq!(EncoderConfig::default().with_threads(0).threads(), 1);
}

#[test]
fn with_level_resets_block_size_to_level_default() {
    let config = EncoderConfig::default()
        .with_block_size(576)
        .with_level(Level::Level6);
    assert_eq!(config.block_size(), Level::Level6.profile().block_size);
}

#[test]
fn builder_matches_fluent_config() {
    let built = EncoderConfig::builder()
        .level(Level::Level4)
        .threads(2)
        .block_size(1024)
        .capture_fxmd(false)
        .strict_fxmd_validation(false)
        .build();

    assert_eq!(
        built,
        EncoderConfig::default()
            .with_level(Level::Level4)
            .with_threads(2)
            .with_block_size(1024)
            .with_capture_fxmd(false)
            .with_strict_fxmd_validation(false)
    );
}

#[test]
fn with_block_schedule_enables_variable_mode() {
    let schedule = vec![576, 1152, 576];
    let config = EncoderConfig::default().with_block_schedule(schedule.clone());

    assert_eq!(config.block_schedule(), Some(schedule.as_slice()));
}

#[test]
fn with_block_size_clears_block_schedule() {
    let config = EncoderConfig::default()
        .with_block_schedule(vec![576, 1152])
        .with_block_size(1024);

    assert_eq!(config.block_schedule(), None);
    assert_eq!(config.block_size(), 1024);
}

#[test]
fn builder_supports_block_schedule() {
    let schedule = vec![576, 1152, 576];
    let built = EncoderConfig::builder()
        .level(Level::Level4)
        .threads(2)
        .block_schedule(schedule.clone())
        .build();

    assert_eq!(
        built,
        EncoderConfig::default()
            .with_level(Level::Level4)
            .with_threads(2)
            .with_block_schedule(schedule)
    );
}

#[test]
fn decode_with_threads_clamps_to_one() {
    assert_eq!(DecodeConfig::default().with_threads(0).threads(), 1);
}

#[test]
fn decode_builder_matches_fluent_config() {
    let built = DecodeConfig::builder()
        .threads(4)
        .emit_fxmd(false)
        .output_container(PcmContainer::Wave64)
        .strict_channel_mask_provenance(true)
        .strict_seektable_validation(true)
        .build();

    assert_eq!(
        built,
        DecodeConfig::default()
            .with_threads(4)
            .with_emit_fxmd(false)
            .with_output_container(PcmContainer::Wave64)
            .with_strict_channel_mask_provenance(true)
            .with_strict_seektable_validation(true)
    );
}

#[test]
fn encoder_default_preserves_fxmd_with_strict_validation() {
    let config = EncoderConfig::default();
    assert!(config.capture_fxmd());
    assert!(config.strict_fxmd_validation());
}

#[test]
fn decode_default_emits_fxmd_without_extra_validation() {
    let config = DecodeConfig::default();
    assert!(config.emit_fxmd());
    assert_eq!(config.output_container(), PcmContainer::Auto);
    assert!(!config.strict_channel_mask_provenance());
    assert!(!config.strict_seektable_validation());
}
