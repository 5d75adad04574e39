//! The small parts: numbers, checks, codes, plans and queues.

use flacx::bytes::{push_be_bytes, push_le_bytes, read_be, read_le};
use flacx::byte_reader::ByteReader;
use flacx::chunk_queue::{
    drain_chunk, session_queue_limit, session_worker_count, worker_to_ask, ChunkQueue,
};
use flacx::encode_frames::EncodedChunk;
use flacx::encode_pipeline::{chunk_end_for_plan, expected_frames_for_chunk, EncodeChunkPolicy};
use flacx::error::IoErrorKind;
use flacx::flac_writer::FlacWriter;
use flacx::float::{double_bits, highest_bit, read_double, DoubleKind};
use flacx::frame::{extract_channel, sample_magnitude_cost, EncodedFrame};
use flacx::frame_header::{
    bit_depth_bits, block_size_code, encode_frame_header, encode_utf8_number, sample_rate_code,
    ChannelAssignment, FrameHeaderNumber,
};
use flacx::level::{Level, LevelProfile};
use flacx::md5::{
    digest_bytes, streaminfo_md5, verify_streaminfo_digest, verify_streaminfo_md5, Md5,
};
use flacx::pcm::{
    append_ordered_samples, container_bits_from_valid_bits, decode_samples,
    is_supported_channel_mask, ordinary_channel_mask, ByteOrder, PcmEnvelope,
};
use flacx::plan::{EncodePlan, FrameCodedNumberKind};
use flacx::prediction::{fixed_residuals, lpc_residuals};
use flacx::raw::{envelope_from_descriptor, total_samples_from_byte_len_with_descriptor};
use flacx::residual::{
    choose_residual_encoding, estimate_rice_parameter, partition_order_candidates,
    residual_escape_width, residual_is_encodable,
};
use flacx::rice::{fold_residual, rice_bit_len};
use flacx::seektable::SeekPoint;
use flacx::recompress::recompress_reader_options;
use flacx::stream::{pcm_bytes_for_frames, EncodeChunkPayload};
use flacx::stream_info::StreamInfo;
use flacx::subframe_search::{choose_subframe, lpc_order_candidates, max_lpc_order_for_signal};
use flacx::subframe::{AnalyzedSubframe, LpcPredictors, QuantizedLpc};
use flacx::{
    EncoderConfig, Error, PcmSpec, RawPcmByteOrder, RawPcmDescriptor, RecompressConfig,
    RecompressMode, RecompressPhase,
};

fn spec_of(channels: u8, frames: u64) -> PcmSpec {
    PcmSpec {
        sample_rate: 44_100,
        channels,
        bits_per_sample: 16,
        total_samples: frames,
        bytes_per_sample: 2,
        channel_mask: ordinary_channel_mask(u16::from(channels)).unwrap(),
    }
}

#[test]
fn numbers_are_stored_in_both_orders() {
    let mut bytes = Vec::new();
    push_be_bytes(&mut bytes, 0x01_0203, 3);
    push_le_bytes(&mut bytes, 0x01_0203, 4);
    assert_eq!(bytes, vec![1, 2, 3, 3, 2, 1, 0]);
    assert_eq!(read_be(&bytes, 0, 3), 0x01_0203);
    assert_eq!(read_le(&bytes, 3, 4), 0x01_0203);
}

#[test]
fn doubles_of_whole_numbers_match_the_machine() {
    for value in [1u32, 2, 3, 1_000, 44_100, 65_535, 192_000, u32::MAX] {
        assert_eq!(double_bits(value), f64::from(value).to_bits());
        assert_eq!(read_double(f64::from(value).to_bits()), DoubleKind::Whole(value));
    }
    assert_eq!(double_bits(0), 0f64.to_bits());
    assert_eq!(read_double(4_294_967_296f64.to_bits()), DoubleKind::Large);
    for value in [0.0, 0.5, 44_100.5, -8.0, f64::INFINITY, f64::NAN] {
        assert_eq!(read_double(value.to_bits()), DoubleKind::Other);
    }
    assert_eq!(highest_bit(1), 0);
    assert_eq!(highest_bit(0x8000_0000), 31);
}

#[test]
fn residuals_fold_to_counts() {
    assert_eq!(fold_residual(0), 0);
    assert_eq!(fold_residual(-1), 1);
    assert_eq!(fold_residual(1), 2);
    assert_eq!(fold_residual(i32::MIN), 0xffff_ffff);
    assert_eq!(rice_bit_len(&[0, -1, 1, 5], 1), 4 * 2 + 1 + 5);
}

#[test]
fn fixed_predictors_leave_the_differences() {
    let squares: Vec<i32> = (0..8).map(|index| index * index).collect();
    assert_eq!(fixed_residuals(&squares, 0), Some(squares.clone()));
    assert_eq!(fixed_residuals(&squares, 1), Some(vec![1, 3, 5, 7, 9, 11, 13]));
    assert_eq!(fixed_residuals(&squares, 2), Some(vec![2; 6]));
    assert_eq!(fixed_residuals(&squares, 3), Some(vec![0; 5]));
    assert_eq!(fixed_residuals(&[i32::MIN, i32::MAX], 1), None);
}

#[test]
fn weighted_predictors_round_down() {
    assert_eq!(
        lpc_residuals(&[3, -3, 5, 7], &[3], 1),
        Some(vec![-3 - 4, 5 + 5, 7 - 7])
    );
    assert!(QuantizedLpc::new(16, vec![1]).is_none());
    assert!(QuantizedLpc::new(0, vec![16_384]).is_none());
    assert!(QuantizedLpc::new(15, vec![-16_383, 16_383]).is_some());
    assert!(QuantizedLpc::new(0, vec![0; 33]).is_none());
}

#[test]
fn residual_measures_are_exact() {
    assert!(residual_is_encodable((1 << 30) - 1));
    assert!(residual_is_encodable(-(1 << 30)));
    assert!(!residual_is_encodable(1 << 30));
    assert!(!residual_is_encodable(-(1 << 30) - 1));
    assert_eq!(residual_escape_width(&[0, 0]), Some(0));
    assert_eq!(residual_escape_width(&[-1]), Some(1));
    assert_eq!(residual_escape_width(&[3, -4]), Some(3));
    assert_eq!(residual_escape_width(&[4]), Some(4));
    assert_eq!(residual_escape_width(&[i32::MAX]), None);
    assert_eq!(estimate_rice_parameter(&[]), 0);
    assert_eq!(estimate_rice_parameter(&[16, -16, 16, -16]), 4);
    assert_eq!(partition_order_candidates(96, 2, 8), vec![5, 4, 0]);
    assert_eq!(partition_order_candidates(7, 2, 8), vec![0]);
}

#[test]
fn the_cheapest_coding_is_chosen() {
    let quiet = choose_residual_encoding(&[0; 64], 0, 4).unwrap();
    assert!(quiet.bit_len() <= 64 + 10);
    let none = LpcPredictors { by_order: vec![] };
    let profile = Level::Level5.profile();
    let constant = choose_subframe(&[9; 50], 16, 44_100, profile, &none);
    assert!(matches!(constant, AnalyzedSubframe::Constant(9)));
    let squares: Vec<i32> = (0..100).map(|index| index * index).collect();
    let fixed = choose_subframe(&squares, 16, 44_100, profile, &none);
    assert!(matches!(fixed, AnalyzedSubframe::Fixed { .. }));
}

#[test]
fn orders_are_limited_by_rate_and_length() {
    let profile = LevelProfile::new(4_096, 4, 32, 6, true, true);
    assert_eq!(lpc_order_candidates(3), vec![1, 2, 3]);
    assert_eq!(lpc_order_candidates(8), vec![8]);
    assert_eq!(lpc_order_candidates(12), vec![8, 12]);
    assert_eq!(lpc_order_candidates(32), vec![8, 12, 32]);
    assert_eq!(max_lpc_order_for_signal(profile, 44_100, 5), 4);
    assert_eq!(max_lpc_order_for_signal(profile, 96_000, 4_096), 32);
}

#[test]
fn header_fields_have_their_codes() {
    assert_eq!(block_size_code(192), (1, vec![]));
    assert_eq!(block_size_code(576), (2, vec![]));
    assert_eq!(block_size_code(4_096), (12, vec![]));
    assert_eq!(block_size_code(256), (8, vec![]));
    assert_eq!(block_size_code(100), (6, vec![99]));
    assert_eq!(block_size_code(1_000), (7, vec![3, 231]));
    assert_eq!(sample_rate_code(44_100), Some((9, vec![])));
    assert_eq!(sample_rate_code(700_001), None);
    assert_eq!(bit_depth_bits(16).unwrap(), 4);
    assert_eq!(encode_utf8_number(0x1_0000).unwrap(), vec![0xf0, 0x90, 0x80, 0x80]);
    assert!(encode_utf8_number(1 << 36).is_err());
    let header = encode_frame_header(
        4_096,
        44_100,
        ChannelAssignment::MidSide,
        16,
        FrameHeaderNumber::Frame(0),
    )
    .unwrap();
    assert_eq!(header[..5], [0xff, 0xf8, 0xc9, 0xa8, 0]);
    let numbered = encode_frame_header(
        4_096,
        44_100,
        ChannelAssignment::MidSide,
        16,
        FrameHeaderNumber::Sample(0x80),
    )
    .unwrap();
    assert_eq!(numbered[..6], [0xff, 0xf9, 0xc9, 0xa8, 0xc2, 0x80]);
}

#[test]
fn channels_are_taken_apart() {
    assert_eq!(extract_channel(&[1, 2, 3, 4, 5, 6], 2, 1), vec![2, 4, 6]);
    assert_eq!(sample_magnitude_cost(&[-5, 3, i32::MIN]), 8 + (1 << 31));
}

#[test]
fn samples_are_stored_in_their_containers() {
    let envelope = PcmEnvelope {
        channels: 1,
        valid_bits_per_sample: 20,
        container_bits_per_sample: 24,
        channel_mask: 4,
    };
    let mut big = Vec::new();
    append_ordered_samples(&mut big, &[1, -1], envelope, ByteOrder::Big).unwrap();
    assert_eq!(big, vec![0, 0, 0x10, 0xff, 0xff, 0xf0]);
    let mut little = Vec::new();
    append_ordered_samples(&mut little, &[1, -1], envelope, ByteOrder::Little).unwrap();
    assert_eq!(little, vec![0x10, 0, 0, 0xf0, 0xff, 0xff]);
    assert_eq!(decode_samples(&big, envelope, ByteOrder::Big).unwrap(), vec![1, -1]);
    assert_eq!(container_bits_from_valid_bits(20), 24);
    assert_eq!(ordinary_channel_mask(5), Some(0x37));
    assert_eq!(ordinary_channel_mask(6), Some(0x3f));
    assert_eq!(ordinary_channel_mask(9), None);
    assert!(is_supported_channel_mask(4, 0x0001_2104));
    assert!(!is_supported_channel_mask(4, 3));
}

#[test]
fn long_messages_are_digested_in_pieces() {
    let message: Vec<u8> = (0..1_000).map(|index| (index % 251) as u8).collect();
    let mut md5 = Md5::new();
    for piece in message.chunks(37) {
        md5.update(piece);
    }
    assert_eq!(md5.finalize(), digest_bytes(&message));
    assert_eq!(
        digest_bytes(b"12345678901234567890123456789012345678901234567890123456789012345678901234567890"),
        vec![
            0x57, 0xed, 0xf4, 0xa2, 0x2b, 0xe3, 0xc9, 0x55, 0xac, 0x49, 0xda, 0x2e, 0x21, 0x07,
            0xb6, 0x7a
        ]
    );
    assert!(verify_streaminfo_digest(&[1; 16], &[1; 16]).is_ok());
    assert!(verify_streaminfo_digest(&[1; 16], &[2; 16]).is_err());
    assert!(verify_streaminfo_digest(&[1; 16], &[0; 16]).is_ok());
}

#[test]
fn seek_points_take_eighteen_bytes() {
    let points = [SeekPoint {
        sample_number: 1,
        frame_offset: 2,
        sample_count: 3,
    }];
    let mut expected = vec![0; 18];
    expected[7] = 1;
    expected[15] = 2;
    expected[17] = 3;
    assert_eq!(SeekPoint::payload(&points), expected);
}

#[test]
fn stream_information_is_packed() {
    let mut info = StreamInfo::new(spec_of(2, 5), 16, 4_096);
    assert_eq!((info.min_frame_size, info.max_frame_size), (0, 0));
    info.update_frame_size(300);
    info.update_frame_size(200);
    info.update_frame_size(900);
    assert_eq!((info.min_frame_size, info.max_frame_size), (200, 900));
    info.md5 = [7; 16];
    let bytes = info.to_bytes();
    assert_eq!(bytes.len(), 34);
    assert_eq!(bytes[..10], [0, 16, 16, 0, 0, 0, 200, 0, 3, 132]);
    assert_eq!(bytes[10..18], [0x0a, 0xc4, 0x42, 0xf0, 0, 0, 0, 5]);
    assert_eq!(bytes[18..], [7; 16]);
}

#[test]
fn frames_are_written_behind_the_information() {
    let info = StreamInfo::new(spec_of(1, 5), 16, 16);
    let mut writer = FlacWriter::new(Vec::new(), info, &[]).unwrap();
    writer.write_frame(&[1, 2, 3]);
    writer.write_frame(&[4, 5]);
    writer.set_streaminfo_md5([9; 16]);
    let (bytes, written) = writer.finalize();
    assert_eq!((written.min_frame_size, written.max_frame_size), (2, 3));
    assert_eq!(bytes[..8], [b'f', b'L', b'a', b'C', 0x80, 0, 0, 34]);
    assert_eq!(bytes[8..42].to_vec(), written.to_bytes());
    assert_eq!(bytes[42..], [1, 2, 3, 4, 5]);
}

#[test]
fn plans_cover_the_stream() {
    let config = EncoderConfig::default().with_block_size(1_000);
    let plan = EncodePlan::new(spec_of(2, 2_500), &config).unwrap();
    assert_eq!(plan.total_frames(), 3);
    assert_eq!(plan.frame(2).sample_offset, 2_000);
    assert_eq!(plan.frame(2).block_size, 500);
    assert_eq!(plan.frame(2).coded_number, 2);
    assert_eq!(plan.frame(2).coded_number_kind, FrameCodedNumberKind::FrameNumber);
    let policy = EncodeChunkPolicy {
        max_frames: 2,
        target_pcm_frames: 1_000_000,
    };
    assert_eq!(chunk_end_for_plan(&plan, 0, policy), 2);
    assert_eq!(chunk_end_for_plan(&plan, 2, policy), 3);
    assert_eq!(expected_frames_for_chunk(&plan, 0, 2), 2_000);
    assert_eq!(expected_frames_for_chunk(&plan, 2, 3), 500);
    let mut silent = spec_of(2, 10);
    silent.sample_rate = 0;
    assert!(EncodePlan::new(silent, &config).is_err());
}

fn chunk(start_frame: usize, count: usize) -> EncodedChunk {
    let mut frames = Vec::new();
    for index in 0..count {
        frames.push(EncodedFrame {
            bytes: vec![(start_frame + index) as u8],
            sample_count: 1,
        });
    }
    EncodedChunk {
        start_frame,
        frames,
    }
}

#[test]
fn chunks_leave_the_queue_in_order() {
    let mut queue = ChunkQueue::new(0);
    queue.insert(chunk(5, 1));
    queue.insert(chunk(2, 3));
    assert!(queue.take_ready().is_none());
    queue.insert(chunk(0, 2));
    let mut order = Vec::new();
    while let Some(ready) = queue.take_ready() {
        order.push(ready.start_frame);
    }
    assert_eq!(order, vec![0, 2, 5]);
    assert_eq!(queue.next_expected(), 6);
    let mut frames = Vec::new();
    assert_eq!(drain_chunk(chunk(6, 2), &mut frames, 6), 8);
    assert_eq!(frames.len(), 2);
}

#[test]
fn workers_are_asked_in_turn() {
    assert_eq!(session_worker_count(8, 3), 3);
    assert_eq!(session_worker_count(2, 100), 2);
    assert_eq!(session_queue_limit(3), 12);
    assert_eq!(worker_to_ask(2, 0, 3), 2);
    assert_eq!(worker_to_ask(2, 1, 3), 0);
    assert_eq!(worker_to_ask(2, 2, 3), 1);
}

#[test]
fn raw_descriptions_are_checked() {
    let descriptor = RawPcmDescriptor {
        sample_rate: 48_000,
        channels: 2,
        valid_bits_per_sample: 20,
        container_bits_per_sample: 24,
        byte_order: RawPcmByteOrder::BigEndian,
        channel_mask: None,
    };
    assert_eq!(
        total_samples_from_byte_len_with_descriptor(60, descriptor).unwrap(),
        10
    );
    assert!(total_samples_from_byte_len_with_descriptor(61, descriptor).is_err());
    let mut narrow = descriptor;
    narrow.container_bits_per_sample = 16;
    assert!(envelope_from_descriptor(narrow).is_err());
    let mut many = descriptor;
    many.channels = 9;
    assert!(envelope_from_descriptor(many).is_err());
}

#[test]
fn levels_raise_the_effort() {
    let mut last = Level::Level0.profile();
    for number in 1u8..=8 {
        let profile = Level::try_from(number).unwrap().profile();
        assert!(profile.max_lpc_order >= last.max_lpc_order);
        assert!(profile.max_fixed_order >= last.max_fixed_order);
        last = profile;
    }
}

#[test]
fn errors_carry_their_reason() {
    assert!(Error::InvalidFlac("no frames").message().contains("no frames"));
    assert!(Error::Encode(String::from("lost chunk")).message().contains("lost chunk"));
    assert!(Error::Thread(String::from("worker")).message().contains("worker"));
    assert!(Error::InvalidPcmContainer("short").message().contains("short"));
}

#[test]
fn payloads_count_their_frames() {
    let decoded = EncodeChunkPayload::DecodedSamples(vec![1, 2, 3, 4, 5, 6]);
    assert_eq!(decoded.pcm_frames(2), 3);
    assert_eq!(decoded.decoded_samples_len(), Some(6));
    assert_eq!(decoded.clear_for_reuse().decoded_samples_len(), Some(0));
    let packed = EncodeChunkPayload::PackedPcm {
        bytes: vec![0; 8],
        frame_count: 2,
        envelope: PcmEnvelope {
            channels: 2,
            valid_bits_per_sample: 16,
            container_bits_per_sample: 16,
            channel_mask: 3,
        },
    };
    assert_eq!(packed.pcm_frames(2), 2);
    assert_eq!(packed.decoded_samples_len(), None);
    assert_eq!(pcm_bytes_for_frames(spec_of(2, 9), 5), 20);
}

#[test]
fn sample_digests_are_compared() {
    let spec = spec_of(1, 4);
    let digest = streaminfo_md5(spec, &[1, -2, 3, -4]).unwrap();
    assert!(verify_streaminfo_md5(spec, &[1, -2, 3, -4], &digest).is_ok());
    assert!(verify_streaminfo_md5(spec, &[1, -2, 3, -5], &digest).is_err());
}

#[test]
fn recompression_is_strict_on_request_only() {
    let config = RecompressConfig::default();
    assert!(!recompress_reader_options(config).strict_seektable_validation);
    let strict = config.with_mode(RecompressMode::Strict);
    assert!(recompress_reader_options(strict).strict_seektable_validation);
    assert!(recompress_reader_options(strict).strict_channel_mask_provenance);
    assert_eq!(RecompressPhase::Decode.as_str(), "Decode");
    assert_eq!(RecompressPhase::Encode.as_str(), "Encode");
}

#[test]
fn short_inputs_end_early() {
    let mut reader = ByteReader::new(vec![1, 2, 3]);
    assert_eq!(reader.read_u16_be().unwrap(), 0x0102);
    let error = reader.read_u32_be().err().unwrap();
    assert!(matches!(error, Error::Io(IoErrorKind::UnexpectedEof)));
    assert_eq!(error.message(), "failed to fill whole buffer");
    reader.seek(9);
    assert_eq!(reader.position(), 9);
    assert!(reader.read_exact(1).is_err());
}
