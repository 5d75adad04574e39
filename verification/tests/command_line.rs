//! Presets, flags, names and plans of the command line.

use flacx::cli_modes::{
    apply_decode_mode, apply_encode_mode, build_raw_descriptor, describe_raw,
    enforce_interactive_mode, parse_channel_mask, parse_trimmed_mask, progress_reporting_mode,
    recompress_mode, ModePreset, ProgressReportingMode, RawFlags,
};
use flacx::cli_plan::{
    check_single_output, output_rule, overall_total_samples, plan_single_file, raw_directory_error,
    validate_output_root, DirectoryPlan, OutputRule, RequestedOutput,
};
use flacx::cli_text::{
    decode_output_container_from_path, decode_target_extension, encode_input_family,
    relative_display_name, sanitize_trace_field, CommandKind, EncodeInputFamily,
};
use flacx::{PcmContainer, RawPcmByteOrder};

#[test]
fn cached_relative_display_names_sort_like_the_previous_input_path_order() {
    let input_root = "fixtures";
    let mut relative_sort = vec![
        vec![input_root, "disc10", "track02.wav"],
        vec![input_root, "disc2", "track01.wav"],
        vec![input_root, "disc2", "track10.wav"],
        vec![input_root, "disc1", "bonus", "track01.wav"],
        vec![input_root, "disc1", "track02.wav"],
    ];
    let mut whole_path_sort = relative_sort.clone();

    relative_sort.sort_by(|left, right| {
        relative_display_name(&left[1..]).cmp(&relative_display_name(&right[1..]))
    });
    whole_path_sort.sort_by_key(|path| relative_display_name(path));

    assert_eq!(relative_sort, whole_path_sort);
    assert_eq!(relative_display_name(&relative_sort[0]), "fixtures/disc1/bonus/track01.wav");
}

#[test]
fn progress_reporting_mode_skips_events_when_non_interactive_without_trace() {
    assert_eq!(
        progress_reporting_mode(false, false),
        ProgressReportingMode::Disabled
    );
}

#[test]
fn progress_reporting_mode_keeps_events_for_interactive_or_traced_runs() {
    assert_eq!(
        progress_reporting_mode(true, false),
        ProgressReportingMode::Events
    );
    assert_eq!(
        progress_reporting_mode(false, true),
        ProgressReportingMode::Events
    );
}

#[test]
fn preset_mapping_matches_cli_contract() {
    let encode_default = apply_encode_mode(flacx::EncoderConfig::default(), ModePreset::Default);
    assert!(encode_default.capture_fxmd());
    assert!(encode_default.strict_fxmd_validation());

    let encode_loose = apply_encode_mode(flacx::EncoderConfig::default(), ModePreset::Loose);
    assert!(!encode_loose.capture_fxmd());
    assert!(!encode_loose.strict_fxmd_validation());

    let decode_strict = apply_decode_mode(flacx::DecodeConfig::default(), ModePreset::Strict);
    assert!(decode_strict.emit_fxmd());
    assert!(decode_strict.strict_channel_mask_provenance());
    assert!(decode_strict.strict_seektable_validation());

    let recompress_loose_encode =
        apply_encode_mode(flacx::EncoderConfig::default(), ModePreset::Loose);
    let recompress_loose_decode =
        apply_decode_mode(flacx::DecodeConfig::default(), ModePreset::Loose);
    assert!(!recompress_loose_encode.capture_fxmd());
    assert!(!recompress_loose_encode.strict_fxmd_validation());
    assert!(!recompress_loose_decode.emit_fxmd());

    assert_eq!(
        recompress_mode(ModePreset::Loose),
        flacx::RecompressMode::Loose
    );
    assert_eq!(
        recompress_mode(ModePreset::Default),
        flacx::RecompressMode::Default
    );
    assert_eq!(
        recompress_mode(ModePreset::Strict),
        flacx::RecompressMode::Strict
    );
}

#[test]
fn require_interactive_helper_only_rejects_non_interactive_runs_when_required() {
    assert!(enforce_interactive_mode(true, true).is_ok());
    assert!(enforce_interactive_mode(true, false).is_ok());
    assert!(enforce_interactive_mode(false, false).is_ok());
    assert!(enforce_interactive_mode(false, true).is_err());
}

#[test]
fn channel_masks_are_read_as_hexadecimal_numbers() {
    assert_eq!(parse_channel_mask(" 0x33 "), Some(0x33));
    assert_eq!(parse_channel_mask("0X3F"), Some(0x3f));
    assert_eq!(parse_channel_mask("\t51\n"), Some(0x51));
    assert_eq!(parse_channel_mask("+33"), Some(0x33));
    assert_eq!(parse_channel_mask("0x"), None);
    assert_eq!(parse_channel_mask("mask"), None);
    assert_eq!(parse_channel_mask("100000000"), None);
    assert_eq!(parse_trimmed_mask("ffffffff"), Some(u32::MAX));
    assert_eq!(parse_trimmed_mask(" 51"), None);
}

fn raw_flags() -> RawFlags {
    RawFlags {
        raw: true,
        sample_rate: Some(48_000),
        channels: Some(4),
        bits_per_sample: Some(16),
        container_bits: Some(24),
        byte_order: Some(RawPcmByteOrder::BigEndian),
        channel_mask: Some(String::from(" 0x33 ")),
    }
}

#[test]
fn raw_flags_describe_the_samples() {
    let descriptor = build_raw_descriptor(&raw_flags()).unwrap().unwrap();
    assert_eq!(descriptor.sample_rate, 48_000);
    assert_eq!(descriptor.channels, 4);
    assert_eq!(descriptor.valid_bits_per_sample, 16);
    assert_eq!(descriptor.container_bits_per_sample, 24);
    assert_eq!(descriptor.channel_mask, Some(0x33));

    let mut without_rate = raw_flags();
    without_rate.sample_rate = None;
    assert!(build_raw_descriptor(&without_rate).is_err());
    let mut bad_mask = raw_flags();
    bad_mask.channel_mask = Some(String::from("speakers"));
    assert!(build_raw_descriptor(&bad_mask).is_err());
    assert!(describe_raw(&raw_flags(), Some(None)).is_err());
}

#[test]
fn extensions_choose_families_and_containers() {
    assert_eq!(encode_input_family(Some("AIF")), EncodeInputFamily::AiffLike);
    assert_eq!(encode_input_family(Some("w64")), EncodeInputFamily::WavLike);
    assert_eq!(encode_input_family(Some("caf")), EncodeInputFamily::Caf);
    assert_eq!(encode_input_family(Some("mp3")), EncodeInputFamily::Dynamic);
    assert_eq!(encode_input_family(None), EncodeInputFamily::Dynamic);
    assert_eq!(
        decode_output_container_from_path(Some("aifc")).unwrap(),
        Some(PcmContainer::Aifc)
    );
    assert!(decode_output_container_from_path(Some("mp3")).is_err());
    assert_eq!(decode_target_extension(PcmContainer::Wave64), "w64");
    assert_eq!(decode_target_extension(PcmContainer::Auto), "wav");
}

#[test]
fn trace_fields_hold_no_separators() {
    assert_eq!(sanitize_trace_field("a\tb\nc\rd\\e"), "a\\tb\\nc\\rd\\\\e");
}

#[test]
fn refused_outputs_are_named() {
    let output = RequestedOutput {
        path: String::from("out"),
        is_dir: true,
        exists: true,
        is_input: false,
    };
    let error = check_single_output(CommandKind::Encode, &output).err().unwrap();
    assert!(error.message().contains("out"));
    let root = RequestedOutput {
        path: String::from("root.flac"),
        is_dir: false,
        exists: true,
        is_input: false,
    };
    let error = validate_output_root(CommandKind::Decode, &root).err().unwrap();
    assert!(error.message().contains("root.flac"));
    assert!(raw_directory_error().message().contains("raw"));
}

#[test]
fn directory_plans_are_sorted_and_summed() {
    let mut plan = DirectoryPlan::new(CommandKind::Encode);
    assert!(plan.wants(true, Some("WAV")));
    assert!(!plan.wants(true, Some("flac")));
    assert!(!plan.wants(false, Some("wav")));
    for (name, samples) in [("b/one.wav", 10), ("a.wav", 20), ("b/a.wav", 30)] {
        plan.add(
            format!("in/{name}"),
            format!("out/{name}"),
            String::from(name),
            true,
            100,
            samples,
        )
        .unwrap();
    }
    let planned = plan.finish("in", 1).unwrap();
    let names: Vec<&str> = planned
        .items
        .iter()
        .map(|item| item.display_name.as_str())
        .collect();
    assert_eq!(names, vec!["a.wav", "b/a.wav", "b/one.wav"]);
    assert_eq!(planned.total_samples, 60);
    assert!(planned.is_directory);
    let nothing = DirectoryPlan::new(CommandKind::Decode).finish("in", 0);
    assert!(nothing.err().unwrap().message().contains("in"));
}

#[test]
fn batch_totals_that_overflow_are_refused() {
    let mut plan = DirectoryPlan::new(CommandKind::Encode);
    let item = |name: &str| String::from(name);
    plan.add(item("a"), item("b"), item("a"), false, 1, u64::MAX)
        .unwrap();
    assert!(plan
        .add(item("c"), item("d"), item("c"), false, 1, 1)
        .is_err());
}

#[test]
fn recompression_counts_each_sample_twice() {
    assert_eq!(overall_total_samples(CommandKind::Encode, 7), 7);
    assert_eq!(overall_total_samples(CommandKind::Recompress, 7), 14);
    assert_eq!(overall_total_samples(CommandKind::Recompress, u64::MAX), u64::MAX);
    let planned = plan_single_file(
        CommandKind::Recompress,
        String::from("a.flac"),
        String::from("a.recompressed.flac"),
        String::from("a.flac"),
        9,
        7,
    );
    assert_eq!(planned.items.len(), 1);
    assert_eq!(planned.items[0].phase_total_samples, 7);
    assert_eq!(planned.items[0].overall_total_samples, 14);
    assert_eq!(planned.total_samples, 14);
    assert!(!planned.is_directory);
    assert_eq!(
        output_rule(CommandKind::Recompress, "flac", true, false),
        OutputRule::InPlace
    );
    assert_eq!(
        output_rule(CommandKind::Recompress, "flac", false, false),
        OutputRule::BesideRecompressed
    );
    assert_eq!(
        output_rule(CommandKind::Encode, "flac", false, true),
        OutputRule::UnderRoot("flac")
    );
}
