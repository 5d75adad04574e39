//! FLAC streams and back.

use flacx::crc::{crc16, crc8};
use flacx::decode::align_metadata_to_stream_spec;
use flacx::flac_reader::read_stream_info;
use flacx::frame::encode_frame;
use flacx::frame_decoding::decode_frame;
use flacx::frame_reading::StreamFormat;
use flacx::level::{Level, LevelProfile};
use flacx::md5::streaminfo_md5;
use flacx::pcm::ordinary_channel_mask;
use flacx::progress::ProgressLog;
use flacx::subframe::{LpcPredictors, QuantizedLpc};
use flacx::{
    decode_bytes, decode_bytes_with_config, encode_bytes, encode_bytes_with_config,
    inspect_flac_total_samples, read_flac_reader, read_flac_reader_with_options, recompress_bytes,
    recompress_bytes_with_config, recompress_with_progress, write_pcm_stream, ByteReader,
    DecodeConfig, EncodePcmStream, EncodeSource, Encoder, EncoderConfig, FlacReaderOptions, Metadata,
    PcmContainer, PcmReader, PcmSpec, PcmStream, RawPcmByteOrder, RawPcmDescriptor, RawPcmStream, RecompressConfig,
};

fn spec_of(channels: u8, bits_per_sample: u8, frames: u64) -> PcmSpec {
    PcmSpec {
        sample_rate: 44_100,
        channels,
        bits_per_sample,
        total_samples: frames,
        bytes_per_sample: u16::from(bits_per_sample).div_ceil(8),
        channel_mask: ordinary_channel_mask(u16::from(channels)).unwrap(),
    }
}

fn waves(channels: usize, frames: usize, height: i64) -> Vec<i32> {
    let mut samples = Vec::new();
    let mut noise = 99u64;
    for frame in 0..frames as i64 {
        for channel in 0..channels as i64 {
            noise = noise.wrapping_mul(6_364_136_223_846_793_005).wrapping_add(1);
            let phase = (frame * (channel + 2)) % 160 - 80;
            samples.push((phase * height / 90 + (noise >> 60) as i64 - 8) as i32);
        }
    }
    samples
}

fn aiff_of(spec: PcmSpec, samples: &[i32]) -> Vec<u8> {
    let mut file = Vec::new();
    let stream = PcmStream {
        spec,
        samples: samples.to_vec(),
    };
    write_pcm_stream(&mut file, &stream, PcmContainer::Aiff).unwrap();
    file
}

fn to_aiff() -> DecodeConfig {
    DecodeConfig::default().with_output_container(PcmContainer::Aiff)
}

#[test]
fn decoded_files_are_the_files_that_were_encoded() {
    for channels in [1u8, 2, 3, 5, 8] {
        for (bits_per_sample, height) in [(8, 100), (12, 2_000), (16, 30_000), (24, 8_000_000)] {
            let spec = spec_of(channels, bits_per_sample, 3_000);
            let samples = waves(usize::from(channels), 3_000, height);
            let file = aiff_of(spec, &samples);
            for level in [Level::Level0, Level::Level4, Level::Level8] {
                let config = EncoderConfig::default().with_level(level);
                let flac = encode_bytes_with_config(&config, file.clone(), &[]).unwrap();
                assert_eq!(decode_bytes_with_config(&to_aiff(), &flac).unwrap(), file);
            }
        }
    }
}

#[test]
fn decoded_caf_files_hold_the_samples() {
    let samples = waves(2, 500, 9_000);
    let flac = encode_bytes(aiff_of(spec_of(2, 16, 500), &samples), &[]).unwrap();
    let config = DecodeConfig::default().with_output_container(PcmContainer::Caf);
    let caf = decode_bytes_with_config(&config, &flac).unwrap();
    let mut read = Vec::new();
    PcmReader::new(ByteReader::new(caf))
        .unwrap()
        .into_pcm_stream()
        .read_chunk(500, &mut read)
        .unwrap();
    assert_eq!(read, samples);
}

#[test]
fn readers_describe_the_stream() {
    let spec = spec_of(2, 16, 2_500);
    let samples = waves(2, 2_500, 9_000);
    let config = EncoderConfig::default().with_block_size(1_000);
    let flac = encode_bytes_with_config(&config, aiff_of(spec, &samples), &[]).unwrap();
    assert_eq!(inspect_flac_total_samples(&flac).unwrap(), 2_500);
    let reader = read_flac_reader(&flac).unwrap();
    assert_eq!(reader.spec(), spec);
    assert!(reader.metadata().is_empty());
    let info = reader.stream_info();
    assert_eq!(info.max_block_size, 1_000);
    assert_eq!(info.md5.to_vec(), streaminfo_md5(spec, &samples).unwrap());
    assert_eq!(read_stream_info(&flac[8..42]), info);
    let (_, pcm) = reader.into_parts();
    assert_eq!(pcm.samples, samples);
}

#[test]
fn scheduled_streams_are_decoded() {
    let samples = waves(1, 2_304, 9_000);
    let config = EncoderConfig::default().with_block_schedule(vec![576, 1_152, 576]);
    let file = aiff_of(spec_of(1, 16, 2_304), &samples);
    let flac = encode_bytes_with_config(&config, file.clone(), &[]).unwrap();
    assert_eq!(decode_bytes_with_config(&to_aiff(), &flac).unwrap(), file);
}

#[test]
fn weighted_predictors_are_decoded() {
    let mut samples = Vec::new();
    for index in 0..1_024 {
        samples.push([9_000, 4_001, -9_000, -4_001][index % 4]);
    }
    let predictors = LpcPredictors {
        by_order: vec![
            QuantizedLpc::new(10, vec![0]),
            QuantizedLpc::new(10, vec![0, -1_024]),
        ],
    };
    let profile = LevelProfile::new(1_024, 4, 2, 4, false, true);
    let mut frame = encode_frame(&samples, 1, 16, 44_100, 7, profile, &[predictors])
        .unwrap()
        .bytes;
    let length = frame.len();
    frame.extend_from_slice(b"more");
    let format = StreamFormat { sample_rate: 0, bits_per_sample: 0 };
    let (header, decoded, end) = decode_frame(&frame, format).unwrap();
    assert_eq!(header.number, 7);
    assert_eq!(header.block_size, 1_024);
    assert_eq!(header.sample_rate, 44_100);
    assert_eq!(decoded, samples);
    assert_eq!(end, length);
    frame[12] ^= 1;
    assert!(decode_frame(&frame, format).is_none());
}

#[test]
fn broken_streams_are_refused() {
    let flac = encode_bytes(aiff_of(spec_of(1, 16, 900), &waves(1, 900, 9_000)), &[]).unwrap();
    let text = |bytes: &[u8]| decode_bytes(bytes).err().unwrap().message();
    assert!(text(b"RIFF0000").contains("fLaC"));
    assert!(text(b"fLaC").contains("failed to fill"));
    let mut other = flac.clone();
    other[7] = 33;
    assert!(text(&other).contains("STREAMINFO"));
    let mut broken = flac.clone();
    let last = broken.len() - 1;
    broken[last] ^= 1;
    assert!(text(&broken).contains("cannot be decoded"));
    let mut longer = flac.clone();
    longer[25] = longer[25].wrapping_add(1);
    assert!(text(&longer).contains("sample count"));
    let mut rate = flac.clone();
    rate[18] ^= 1;
    assert!(text(&rate).contains("does not match"));
    let mut digest = flac.clone();
    digest[30] ^= 1;
    let error = decode_bytes_with_config(&to_aiff(), &digest).err().unwrap();
    assert!(error.message().contains("MD5"));
}

fn with_metadata() -> (Vec<u8>, Vec<i32>) {
    let samples = waves(1, 200, 9_000);
    let descriptor = RawPcmDescriptor {
        sample_rate: 44_100,
        channels: 1,
        valid_bits_per_sample: 16,
        container_bits_per_sample: 16,
        byte_order: RawPcmByteOrder::LittleEndian,
        channel_mask: None,
    };
    let data: Vec<u8> = samples
        .iter()
        .flat_map(|sample| (*sample as i16).to_le_bytes())
        .collect();
    let stream = RawPcmStream::new(ByteReader::new(data), descriptor, 200).unwrap();
    let mut metadata = Metadata::new();
    metadata.add_comment("TITLE", "Song");
    metadata.set_cue_points(vec![40, 10]);
    let mut encoder = Encoder::new(Vec::new(), EncoderConfig::default());
    encoder
        .encode_source(EncodeSource::new(metadata, stream), &[])
        .unwrap();
    (encoder.into_inner(), samples)
}

#[test]
fn metadata_is_read_and_kept_by_recompression() {
    let (flac, samples) = with_metadata();
    let again = recompress_bytes(&flac, &[]).unwrap();
    for stream in [&flac, &again] {
        let reader = read_flac_reader(stream).unwrap();
        assert_eq!(reader.metadata().comments(), vec![("TITLE", "Song")]);
        assert_eq!(reader.metadata().cue_points(), &[10, 40]);
        assert_eq!(reader.into_parts().1.samples, samples);
    }
}

#[test]
fn recompression_changes_the_effort_and_nothing_else() {
    let file = aiff_of(spec_of(2, 16, 3_000), &waves(2, 3_000, 9_000));
    let loose = EncoderConfig::default().with_level(Level::Level0);
    let flac = encode_bytes_with_config(&loose, file.clone(), &[]).unwrap();
    let config = RecompressConfig::default().with_level(Level::Level8);
    let again = recompress_bytes_with_config(&config, &flac, &[]).unwrap();
    assert!(again.len() < flac.len());
    assert_eq!(decode_bytes_with_config(&to_aiff(), &again).unwrap(), file);
    assert_eq!(encode_bytes(file, &[]).unwrap(), again);
}

#[test]
fn strict_readers_check_seek_tables() {
    let flac = encode_bytes(aiff_of(spec_of(1, 16, 100), &waves(1, 100, 9_000)), &[]).unwrap();
    let mut with_table = flac[..4].to_vec();
    with_table.push(0);
    with_table.extend_from_slice(&flac[5..42]);
    with_table.extend_from_slice(&[0x83, 0, 0, 17]);
    with_table.extend_from_slice(&[0; 17]);
    with_table.extend_from_slice(&flac[42..]);
    assert!(read_flac_reader(&with_table).is_ok());
    let options = FlacReaderOptions {
        strict_seektable_validation: true,
        strict_channel_mask_provenance: false,
    };
    let error = read_flac_reader_with_options(&with_table, options).err().unwrap();
    assert!(error.message().contains("multiple of 18"));
}

#[test]
fn frames_may_leave_their_format_to_the_stream() {
    let mut frame = vec![0xff, 0xf8, 0x60, 0x00, 0x00, 0x0f];
    let check = crc8(&frame);
    frame.push(check);
    frame.extend_from_slice(&[0x01, 0x10, 0x05]);
    let check = crc16(&frame);
    frame.extend_from_slice(&check.to_be_bytes());
    let format = StreamFormat { sample_rate: 11_025, bits_per_sample: 16 };
    let (header, samples, end) = decode_frame(&frame, format).unwrap();
    assert_eq!(header.sample_rate, 11_025);
    assert_eq!(header.bits_per_sample, 16);
    assert_eq!(samples, vec![80; 16]);
    assert_eq!(end, frame.len());
}

#[test]
fn recompression_reports_each_frame() {
    let samples = waves(3, 2_500, 9_000);
    let config = EncoderConfig::default().with_block_size(1_000);
    let flac = encode_bytes_with_config(&config, aiff_of(spec_of(3, 16, 2_500), &samples), &[]).unwrap();
    let again = RecompressConfig::default().with_block_size(500);
    let mut log = ProgressLog::new();
    let output = recompress_with_progress(&again, &flac, &mut log, &[]).unwrap();
    assert_eq!(output, recompress_bytes_with_config(&again, &flac, &[]).unwrap());
    assert_eq!(log.snapshots.len(), 5);
    assert_eq!(log.snapshots[4].processed_samples, 2_500);
    assert_eq!(log.snapshots[0].input_bytes_read, 500 * 3 * 2);
    assert_eq!(log.snapshots[4].input_bytes_read, 2_500 * 3 * 2);
    assert!(log.snapshots[0].output_bytes_written < log.snapshots[1].output_bytes_written);
    assert_eq!(log.snapshots[4].output_bytes_written, output.len() as u64);
    assert_eq!(read_flac_reader(&output).unwrap().into_parts().1.samples, samples);
}

#[test]
fn unmarked_masks_are_refused_where_asked() {
    let mut metadata = Metadata::new();
    metadata.set_channel_mask(0x33);
    metadata.set_channel_layout_provenance(false);
    let spec = spec_of(4, 16, 50);
    let error = align_metadata_to_stream_spec(&metadata, spec, true).err();
    assert!(error.is_none());
    metadata.set_channel_mask(0x0001_2104);
    metadata.set_channel_layout_provenance(false);
    let error = align_metadata_to_stream_spec(&metadata, spec, true).err().unwrap();
    assert!(error.message().contains("FLACX_CHANNEL_LAYOUT_PROVENANCE"));
    assert!(align_metadata_to_stream_spec(&metadata, spec, false).is_ok());
    metadata.set_channel_layout_provenance(true);
    assert!(align_metadata_to_stream_spec(&metadata, spec, true).is_ok());
}

#[test]
fn recompression_declares_an_open_length() {
    let samples = waves(2, 2_500, 9_000);
    let file = aiff_of(spec_of(2, 16, 2_500), &samples);
    let mut open = encode_bytes(file.clone(), &[]).unwrap();
    open[21] &= 0xf0;
    open[22..26].copy_from_slice(&[0; 4]);
    let info = read_flac_reader(&open).unwrap().stream_info();
    assert_eq!(info.total_samples, 0);
    let output = recompress_bytes(&open, &[]).unwrap();
    let reader = read_flac_reader(&output).unwrap();
    assert_eq!(reader.stream_info().total_samples, 2_500);
    assert_eq!(reader.into_parts().1.samples, samples);
    assert_eq!(decode_bytes_with_config(&to_aiff(), &output).unwrap(), file);
    assert_eq!(decode_bytes_with_config(&to_aiff(), &open).unwrap(), file);
}

#[test]
fn wide_stereo_comes_back_where_it_is_encoded() {
    let mut noise = 7u64;
    let samples: Vec<i32> = (0..2_000)
        .map(|_| {
            noise = noise.wrapping_mul(6_364_136_223_846_793_005).wrapping_add(1);
            ((noise >> 33) as i32) - 0x4000_0000
        })
        .collect();
    let file = aiff_of(spec_of(2, 32, 1_000), &samples);
    let flac = encode_bytes(file.clone(), &[]).unwrap();
    assert_eq!(decode_bytes_with_config(&to_aiff(), &flac).unwrap(), file);
    let again = recompress_bytes(&flac, &[]).unwrap();
    assert_eq!(decode_bytes_with_config(&to_aiff(), &again).unwrap(), file);
}
