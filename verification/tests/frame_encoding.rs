//! Choosing and writing frames.

use flacx::frame::{analyze_frame, encode_frame};
use flacx::frame_header::{
    channel_assignment_bits, encode_utf8_number, sample_rate_is_representable, ChannelAssignment,
};
use flacx::level::LevelProfile;
use flacx::subframe::MAX_STREAMABLE_LPC_ORDER_AT_48KHZ;
use flacx::subframe_search::max_lpc_order_for_stream;

#[test]
fn sample_rate_representation_matches_streamable_header_limits() {
    assert!(!sample_rate_is_representable(0));
    assert!(sample_rate_is_representable(44_100));
    assert!(sample_rate_is_representable(50_000));
    assert!(sample_rate_is_representable(65_000));
    assert!(sample_rate_is_representable(65_350));
    assert!(!sample_rate_is_representable(700_001));
}

#[test]
fn utf8_like_frame_numbers_match_rfc_ranges() {
    assert_eq!(encode_utf8_number(0).unwrap(), vec![0x00]);
    assert_eq!(encode_utf8_number(0x7f).unwrap(), vec![0x7f]);
    assert_eq!(encode_utf8_number(0x80).unwrap(), vec![0xc2, 0x80]);
    assert_eq!(encode_utf8_number(0x800).unwrap(), vec![0xe0, 0xa0, 0x80]);
    assert_eq!(
        encode_utf8_number(0x1f_ffff).unwrap(),
        vec![0xf7, 0xbf, 0xbf, 0xbf]
    );
}

#[test]
fn streamable_subset_clamps_lpc_order_at_48khz() {
    let profile = LevelProfile::new(4096, 4, 32, 6, true, true);
    assert_eq!(
        max_lpc_order_for_stream(profile, 44_100),
        MAX_STREAMABLE_LPC_ORDER_AT_48KHZ
    );
    assert_eq!(max_lpc_order_for_stream(profile, 96_000), 32);
}

#[test]
fn stereo_assignment_bits_match_rfc_table() {
    assert_eq!(
        channel_assignment_bits(ChannelAssignment::IndependentStereo),
        0b0001
    );
    assert_eq!(channel_assignment_bits(ChannelAssignment::LeftSide), 0b1000);
    assert_eq!(
        channel_assignment_bits(ChannelAssignment::SideRight),
        0b1001
    );
    assert_eq!(channel_assignment_bits(ChannelAssignment::MidSide), 0b1010);
}

#[test]
fn out_of_range_residuals_fall_back_to_verbatim() {
    let profile = LevelProfile::new(32, 4, 8, 4, false, false);
    let analysis = analyze_frame(&[0, i32::MAX], 1, 32, 96_000, profile, &[]).unwrap();
    let debug = format!("{analysis:?}");
    assert!(debug.contains("Verbatim"));
}

#[test]
fn stereo_analysis_returns_legal_assignment() {
    let mut interleaved = Vec::new();
    for sample in 0..128i32 {
        interleaved.push(sample * 8);
        interleaved.push(sample * 8 + (sample & 1));
    }
    let profile = LevelProfile::new(256, 4, 12, 4, true, true);
    let analysis = analyze_frame(&interleaved, 2, 16, 44_100, profile, &[]).unwrap();
    assert!(matches!(
        analysis.channel_assignment,
        ChannelAssignment::IndependentStereo
            | ChannelAssignment::LeftSide
            | ChannelAssignment::SideRight
            | ChannelAssignment::MidSide
    ));
}

#[test]
fn frame_header_uses_supported_stereo_assignment_bits() {
    let mut interleaved = Vec::new();
    for sample in 0..32i32 {
        interleaved.push(sample * 16);
        interleaved.push(sample * 16 + (sample & 1));
    }
    let profile = LevelProfile::new(256, 4, 12, 4, true, true);
    let encoded = encode_frame(&interleaved, 2, 16, 44_100, 0, profile, &[]).unwrap();
    let assignment = (encoded.bytes[3] >> 4) & 0x0f;
    assert!(matches!(assignment, 0b0001 | 0b1000 | 0b1001 | 0b1010));
}
