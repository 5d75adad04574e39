//! Encoding samples into FLAC streams and reading the streams back.

use flacx::crc::{crc16, crc8};
use flacx::encoder::encode_from_stream;
use flacx::error::{Error, IoErrorKind};
use flacx::frame::encode_frame;
use flacx::level::{Level, LevelProfile};
use flacx::md5::streaminfo_md5;
use flacx::pcm::ordinary_channel_mask;
use flacx::progress::{CallbackProgress, ProgressLog};
use flacx::subframe::{LpcPredictors, QuantizedLpc};
use flacx::{
    encode_bytes, encode_bytes_with_config, write_pcm_stream, ByteReader, EncodeSource, Encoder,
    EncoderConfig, Metadata, PcmContainer, PcmReader, PcmSpec, PcmStream, RawPcmByteOrder,
    RawPcmDescriptor, RawPcmStream,
};

struct Bits<'a> {
    bytes: &'a [u8],
    place: usize,
}

impl Bits<'_> {
    fn take(&mut self, count: u32) -> u64 {
        let mut value = 0u64;
        for _ in 0..count {
            let byte = self.bytes[self.place / 8];
            value = value * 2 + u64::from((byte >> (7 - self.place % 8)) & 1);
            self.place += 1;
        }
        value
    }

    fn signed(&mut self, count: u32) -> i64 {
        if count == 0 {
            return 0;
        }
        let value = self.take(count) as i64;
        if value >= 1i64 << (count - 1) {
            value - (1i64 << count)
        } else {
            value
        }
    }

    fn unary(&mut self) -> u64 {
        let mut zeros = 0;
        while self.take(1) == 0 {
            zeros += 1;
        }
        zeros
    }
}

fn residuals(bits: &mut Bits, block: usize, order: usize) -> Vec<i64> {
    let parameter_bits = if bits.take(2) == 0 { 4 } else { 5 };
    let partition_order = bits.take(4) as u32;
    let escape = (1u64 << parameter_bits) - 1;
    let mut values = Vec::new();
    for partition in 0..1usize << partition_order {
        let count = (block >> partition_order) - if partition == 0 { order } else { 0 };
        let parameter = bits.take(parameter_bits);
        if parameter == escape {
            let width = bits.take(5) as u32;
            for _ in 0..count {
                values.push(bits.signed(width));
            }
        } else {
            for _ in 0..count {
                let quotient = bits.unary();
                let folded = (quotient << parameter) | bits.take(parameter as u32);
                values.push((folded >> 1) as i64 ^ -((folded & 1) as i64));
            }
        }
    }
    values
}

fn subframe(bits: &mut Bits, block: usize, width: u32) -> (u64, Vec<i64>) {
    assert_eq!(bits.take(1), 0);
    let code = bits.take(6);
    assert_eq!(bits.take(1), 0);
    let mut samples = Vec::new();
    if code == 0 {
        let value = bits.signed(width);
        return (code, vec![value; block]);
    }
    if code == 1 {
        for _ in 0..block {
            samples.push(bits.signed(width));
        }
        return (code, samples);
    }
    let is_lpc = code >= 32;
    let order = if is_lpc { code - 31 } else { code - 8 } as usize;
    for _ in 0..order {
        samples.push(bits.signed(width));
    }
    let (coefficients, shift) = if is_lpc {
        let precision = bits.take(4) as u32 + 1;
        let shift = bits.signed(5) as u32;
        let mut coefficients = Vec::new();
        for _ in 0..order {
            coefficients.push(bits.signed(precision));
        }
        (coefficients, shift)
    } else {
        let coefficients = match order {
            0 => vec![],
            1 => vec![1],
            2 => vec![2, -1],
            3 => vec![3, -3, 1],
            _ => vec![4, -6, 4, -1],
        };
        (coefficients, 0)
    };
    for residual in residuals(bits, block, order) {
        let mut sum = 0i64;
        for (lag, coefficient) in coefficients.iter().enumerate() {
            sum += coefficient * samples[samples.len() - 1 - lag];
        }
        samples.push((sum >> shift) + residual);
    }
    (code, samples)
}

struct ReadFrame {
    variable: bool,
    number: u64,
    subframe_codes: Vec<u64>,
    samples: Vec<i32>,
    length: usize,
}

fn read_frame(bytes: &[u8], bits_per_sample: u32) -> ReadFrame {
    let mut bits = Bits { bytes, place: 0 };
    assert_eq!(bits.take(15), 0b111_1111_1111_1100);
    let variable = bits.take(1) == 1;
    let block_code = bits.take(4) as u32;
    let rate_code = bits.take(4);
    let assignment = bits.take(4);
    bits.take(4);
    let first = bits.take(8);
    let mut number = first;
    if first >= 0x80 {
        let length = (first as u8).leading_ones();
        number = first & (0x7f >> length);
        for _ in 1..length {
            number = number * 64 + (bits.take(8) & 0x3f);
        }
    }
    let block = match block_code {
        1 => 192,
        2..=5 => 576usize << (block_code - 2),
        6 => bits.take(8) as usize + 1,
        7 => bits.take(16) as usize + 1,
        _ => 256usize << (block_code - 8),
    };
    match rate_code {
        12 => bits.take(8),
        13 | 14 => bits.take(16),
        _ => 0,
    };
    let header_length = bits.place / 8;
    assert_eq!(bits.take(8), u64::from(crc8(&bytes[..header_length])));
    let channels = if assignment < 8 { assignment as usize + 1 } else { 2 };
    let mut signals = Vec::new();
    let mut subframe_codes = Vec::new();
    for channel in 0..channels {
        let is_side = (assignment == 8 && channel == 1)
            || (assignment == 9 && channel == 0)
            || (assignment == 10 && channel == 1);
        let (code, signal) = subframe(&mut bits, block, bits_per_sample + u32::from(is_side));
        subframe_codes.push(code);
        signals.push(signal);
    }
    bits.place = bits.place.div_ceil(8) * 8;
    let body_length = bits.place / 8;
    assert_eq!(bits.take(16), u64::from(crc16(&bytes[..body_length])));
    let mut samples = Vec::new();
    for index in 0..block {
        let row: Vec<i64> = signals.iter().map(|signal| signal[index]).collect();
        let restored = match assignment {
            8 => vec![row[0], row[0] - row[1]],
            9 => vec![row[0] + row[1], row[1]],
            10 => {
                let sum = row[0] * 2 + (row[1] & 1);
                vec![(sum + row[1]) >> 1, (sum - row[1]) >> 1]
            }
            _ => row,
        };
        samples.extend(restored.into_iter().map(|sample| sample as i32));
    }
    ReadFrame {
        variable,
        number,
        subframe_codes,
        samples,
        length: body_length + 2,
    }
}

struct ReadStream {
    info: Vec<u8>,
    blocks: Vec<(u8, Vec<u8>)>,
    frames: Vec<ReadFrame>,
}

impl ReadStream {
    fn samples(&self) -> Vec<i32> {
        let mut all = Vec::new();
        for frame in &self.frames {
            all.extend_from_slice(&frame.samples);
        }
        all
    }
}

fn read_stream(bytes: &[u8], bits_per_sample: u32) -> ReadStream {
    assert_eq!(&bytes[..4], b"fLaC");
    let mut place = 4;
    let mut blocks = Vec::new();
    let mut is_last = false;
    while !is_last {
        is_last = bytes[place] & 0x80 != 0;
        let length = usize::from(bytes[place + 1]) * 65536
            + usize::from(bytes[place + 2]) * 256
            + usize::from(bytes[place + 3]);
        blocks.push((
            bytes[place] & 0x7f,
            bytes[place + 4..place + 4 + length].to_vec(),
        ));
        place += 4 + length;
    }
    let mut frames = Vec::new();
    while place < bytes.len() {
        let frame = read_frame(&bytes[place..], bits_per_sample);
        place += frame.length;
        frames.push(frame);
    }
    let (block_type, info) = blocks.remove(0);
    assert_eq!(block_type, 0);
    ReadStream {
        info,
        blocks,
        frames,
    }
}

fn spec_of(channels: u8, bits_per_sample: u8, frames: u64) -> PcmSpec {
    PcmSpec {
        sample_rate: 44_100,
        channels,
        bits_per_sample,
        total_samples: frames,
        bytes_per_sample: u16::from(bits_per_sample).div_ceil(8),
        channel_mask: ordinary_channel_mask(u16::from(channels)).unwrap(),
    }
}

fn waves(channels: usize, frames: usize, height: i64) -> Vec<i32> {
    let mut samples = Vec::new();
    let mut noise = 12_345u64;
    for frame in 0..frames as i64 {
        for channel in 0..channels as i64 {
            noise = noise.wrapping_mul(6_364_136_223_846_793_005).wrapping_add(1);
            let phase = (frame * (channel + 3)) % 200 - 100;
            let wave = phase * height / 110 + (noise >> 60) as i64 - 8;
            samples.push(wave as i32);
        }
    }
    samples
}

fn aiff_of(spec: PcmSpec, samples: &[i32]) -> Vec<u8> {
    let mut file = Vec::new();
    let stream = PcmStream {
        spec,
        samples: samples.to_vec(),
    };
    write_pcm_stream(&mut file, &stream, PcmContainer::Aiff).unwrap();
    file
}

fn stored_number(bytes: &[u8]) -> u64 {
    bytes
        .iter()
        .fold(0, |value, byte| value * 256 + u64::from(*byte))
}

#[test]
fn checksums_match_their_published_values() {
    assert_eq!(crc8(b"123456789"), 0xf4);
    assert_eq!(crc16(b"123456789"), 0xfee8);
    assert_eq!(crc8(b""), 0);
    assert_eq!(crc16(b""), 0);
}

#[test]
fn encoded_streams_hold_the_samples_at_every_level() {
    let spec = spec_of(2, 16, 5_000);
    let samples = waves(2, 5_000, 12_000);
    let file = aiff_of(spec, &samples);
    for level in [
        Level::Level0,
        Level::Level1,
        Level::Level2,
        Level::Level3,
        Level::Level4,
        Level::Level5,
        Level::Level6,
        Level::Level7,
        Level::Level8,
    ] {
        let config = EncoderConfig::default().with_level(level);
        let block = usize::from(config.block_size());
        let flac = encode_bytes_with_config(&config, file.clone(), &[]).unwrap();
        let stream = read_stream(&flac, 16);
        assert_eq!(stream.samples(), samples);
        assert_eq!(stream.frames.len(), 5_000usize.div_ceil(block));
        for (index, frame) in stream.frames.iter().enumerate() {
            assert!(!frame.variable);
            assert_eq!(frame.number, index as u64);
        }
    }
}

#[test]
fn mono_and_stereo_samples_of_all_widths_are_kept() {
    for channels in [1u8, 2] {
        for (bits_per_sample, height) in [(8, 100), (12, 2_000), (20, 500_000), (24, 8_000_000)] {
            let samples = waves(usize::from(channels), 700, height);
            let file = aiff_of(spec_of(channels, bits_per_sample, 700), &samples);
            let flac = encode_bytes(file, &[]).unwrap();
            let stream = read_stream(&flac, u32::from(bits_per_sample));
            assert_eq!(stream.samples(), samples);
        }
    }
}

#[test]
fn stream_information_describes_the_stream() {
    let spec = spec_of(2, 16, 3_000);
    let samples = waves(2, 3_000, 9_000);
    let config = EncoderConfig::default().with_block_size(1_024);
    let mut encoder = Encoder::new(Vec::new(), config);
    let reader = PcmReader::new(ByteReader::new(aiff_of(spec, &samples))).unwrap();
    let summary = encoder.encode_source(reader.into_source(), &[]).unwrap();
    let flac = encoder.into_inner();
    let stream = read_stream(&flac, 16);
    let lengths: Vec<usize> = stream.frames.iter().map(|frame| frame.length).collect();

    assert_eq!(summary.frame_count, 3);
    assert_eq!(summary.total_samples, 3_000);
    assert_eq!(summary.max_frame_size as usize, *lengths.iter().max().unwrap());
    assert_eq!(summary.min_frame_size as usize, *lengths.iter().min().unwrap());
    assert_eq!(stored_number(&stream.info[0..2]), 1_024);
    assert_eq!(stored_number(&stream.info[2..4]), 1_024);
    assert_eq!(
        stored_number(&stream.info[4..7]),
        u64::from(summary.min_frame_size)
    );
    assert_eq!(
        stored_number(&stream.info[7..10]),
        u64::from(summary.max_frame_size)
    );
    assert_eq!(
        stored_number(&stream.info[10..18]),
        (44_100 << 44) | (1 << 41) | (15 << 36) | 3_000
    );
    assert_eq!(
        stream.info[18..34].to_vec(),
        streaminfo_md5(spec, &samples).unwrap()
    );
}

#[test]
fn scheduled_blocks_are_numbered_by_their_first_sample() {
    let spec = spec_of(1, 16, 2_304);
    let samples = waves(1, 2_304, 9_000);
    let config = EncoderConfig::default().with_block_schedule(vec![576, 1_152, 576]);
    let flac = encode_bytes_with_config(&config, aiff_of(spec, &samples), &[]).unwrap();
    let stream = read_stream(&flac, 16);
    assert_eq!(stream.samples(), samples);
    let numbers: Vec<u64> = stream.frames.iter().map(|frame| frame.number).collect();
    assert_eq!(numbers, vec![0, 576, 1_728]);
    assert!(stream.frames.iter().all(|frame| frame.variable));
    assert_eq!(stored_number(&stream.info[0..2]), 576);
    assert_eq!(stored_number(&stream.info[2..4]), 1_152);
}

#[test]
fn schedules_that_miss_the_stream_are_refused() {
    let file = aiff_of(spec_of(1, 16, 2_304), &waves(1, 2_304, 9_000));
    for schedule in [vec![], vec![576, 1_152], vec![576, 1_152, 577], vec![15, 2_289]] {
        let config = EncoderConfig::default().with_block_schedule(schedule);
        assert!(encode_bytes_with_config(&config, file.clone(), &[]).is_err());
    }
}

#[test]
fn the_number_of_threads_does_not_change_the_stream() {
    let file = aiff_of(spec_of(2, 16, 9_000), &waves(2, 9_000, 9_000));
    let one = encode_bytes_with_config(&EncoderConfig::default(), file.clone(), &[]).unwrap();
    let eight =
        encode_bytes_with_config(&EncoderConfig::default().with_threads(8), file, &[]).unwrap();
    assert_eq!(one, eight);
}

#[test]
fn reports_come_after_every_frame() {
    let file = aiff_of(spec_of(1, 16, 2_500), &waves(1, 2_500, 9_000));
    let reader = PcmReader::new(ByteReader::new(file)).unwrap();
    let mut log = ProgressLog::new();
    let mut encoder = EncoderConfig::default()
        .with_block_size(1_000)
        .into_encoder(Vec::new());
    encoder
        .encode_source_with_progress(reader.into_source(), &mut log, &[])
        .unwrap();
    let seen: Vec<(u64, usize, usize)> = log
        .snapshots
        .iter()
        .map(|report| {
            (
                report.processed_samples,
                report.completed_frames,
                report.total_frames,
            )
        })
        .collect();
    assert_eq!(seen, vec![(1_000, 1, 3), (2_000, 2, 3), (2_500, 3, 3)]);
}

#[test]
fn comments_and_cue_points_travel_in_the_stream() {
    let spec = spec_of(1, 16, 100);
    let samples = waves(1, 100, 9_000);
    let descriptor = RawPcmDescriptor {
        sample_rate: 44_100,
        channels: 1,
        valid_bits_per_sample: 16,
        container_bits_per_sample: 16,
        byte_order: RawPcmByteOrder::LittleEndian,
        channel_mask: None,
    };
    let data: Vec<u8> = samples
        .iter()
        .flat_map(|sample| (*sample as i16).to_le_bytes())
        .collect();
    let stream = RawPcmStream::new(ByteReader::new(data), descriptor, 100).unwrap();
    let mut metadata = Metadata::new();
    metadata.add_comment("TITLE", "Song");
    metadata.set_cue_points(vec![40, 10]);
    let mut encoder = Encoder::new(Vec::new(), EncoderConfig::default());
    encoder
        .encode_source(EncodeSource::new(metadata, stream), &[])
        .unwrap();
    let read = read_stream(encoder.writer(), 16);
    assert_eq!(read.samples(), samples);
    assert_eq!(
        read.info[18..34].to_vec(),
        streaminfo_md5(spec, &samples).unwrap()
    );
    let types: Vec<u8> = read.blocks.iter().map(|(block_type, _)| *block_type).collect();
    assert_eq!(types, vec![4, 5]);
    let mut restored = Metadata::new();
    for (block_type, payload) in &read.blocks {
        restored
            .ingest_flac_metadata_block(*block_type, payload, 100, 1)
            .unwrap();
    }
    assert_eq!(restored.comments(), vec![("TITLE", "Song")]);
    assert_eq!(restored.cue_points(), &[10, 40]);
}

#[test]
fn predictors_are_used_where_they_pay() {
    let mut samples = Vec::new();
    for index in 0..1_024 {
        samples.push([9_000, 4_001, -9_000, -4_001][index % 4]);
    }
    let predictors = LpcPredictors {
        by_order: vec![
            QuantizedLpc::new(10, vec![0]),
            QuantizedLpc::new(10, vec![0, -1_024]),
        ],
    };
    let profile = LevelProfile::new(1_024, 4, 2, 4, false, true);
    let frame = encode_frame(&samples, 1, 16, 44_100, 7, profile, &[predictors]).unwrap();
    let read = read_frame(&frame.bytes, 16);
    assert_eq!(read.subframe_codes, vec![33]);
    assert_eq!(read.number, 7);
    assert_eq!(read.samples, samples);
    let plain = encode_frame(&samples, 1, 16, 44_100, 7, profile, &[]).unwrap();
    assert!(frame.bytes.len() < plain.bytes.len());
    assert_eq!(read_frame(&plain.bytes, 16).samples, samples);
}

#[test]
fn silent_and_stereo_frames_are_small_and_exact() {
    let profile = LevelProfile::new(4_096, 4, 8, 4, true, true);
    let silent = encode_frame(&[5; 200], 1, 16, 44_100, 0, profile, &[]).unwrap();
    assert_eq!(read_frame(&silent.bytes, 16).subframe_codes, vec![0]);
    assert_eq!(read_frame(&silent.bytes, 16).samples, vec![5; 200]);
    let mut stereo = Vec::new();
    for sample in waves(1, 400, 9_000) {
        stereo.push(sample);
        stereo.push(sample + 3);
    }
    let coded = encode_frame(&stereo, 2, 16, 44_100, 0, profile, &[]).unwrap();
    assert_eq!(read_frame(&coded.bytes, 16).samples, stereo);
    let extremes = [i32::MIN, i32::MAX, 0, -1, i32::MIN, 17, 3, i32::MAX];
    let mono = encode_frame(&extremes, 1, 32, 44_100, 0, profile, &[]).unwrap();
    assert_eq!(read_frame(&mono.bytes, 32).samples, extremes);
}

#[test]
fn frames_hold_at_most_eight_channels() {
    let profile = LevelProfile::new(1_024, 4, 0, 4, false, true);
    let nine = waves(9, 10, 9_000);
    let error = encode_frame(&nine, 9, 16, 44_100, 0, profile, &[]).err().unwrap();
    assert!(error.message().contains("found 9 channels"));
    let eight = waves(8, 10, 9_000);
    let frame = encode_frame(&eight, 8, 16, 44_100, 0, profile, &[]).unwrap();
    assert_eq!(frame.bytes[3] >> 4, 7);
}

#[test]
fn broken_inputs_are_refused() {
    let text = |bytes: &[u8]| encode_bytes(bytes.to_vec(), &[]).err().unwrap().message();
    assert!(text(b"RIFF\0\0\0\0WAVE").contains("fmt chunk is missing"));
    assert!(text(b"not a wav").contains("invalid wav"));
    assert!(encode_bytes(Vec::new(), &[]).is_err());
    let mut file = aiff_of(spec_of(1, 16, 100), &waves(1, 100, 9_000));
    file.truncate(file.len() - 10);
    assert!(encode_bytes(file, &[]).is_err());
}

#[test]
fn samples_in_memory_are_encoded_with_a_given_digest() {
    let spec = spec_of(1, 16, 2_500);
    let samples = waves(1, 2_500, 9_000);
    let pcm = PcmStream {
        spec,
        samples: samples.clone(),
    };
    let config = EncoderConfig::default().with_block_size(1_000);
    let mut encoder = Encoder::new(Vec::new(), config.clone());
    let mut log = ProgressLog::new();
    let summary = encoder
        .encode_buffered_pcm_with_sink(&Metadata::new(), &pcm, [3; 16], &mut log, &[])
        .unwrap();
    assert_eq!(summary.frame_count, 3);
    assert_eq!(log.snapshots.len(), 3);
    let read = read_stream(encoder.writer(), 16);
    assert_eq!(read.samples(), samples);
    assert_eq!(read.info[18..34], [3; 16]);
    let streamed = encode_bytes_with_config(&config, aiff_of(spec, &samples), &[]).unwrap();
    assert_eq!(encoder.writer()[42..], streamed[42..]);
}

#[test]
fn a_refused_report_ends_an_encode_session() {
    let spec = spec_of(1, 16, 2_500);
    let pcm = PcmStream {
        spec,
        samples: waves(1, 2_500, 9_000),
    };
    let config = EncoderConfig::default().with_block_size(1_000);
    let mut complete = Encoder::new(Vec::new(), config.clone());
    let mut log = ProgressLog::new();
    complete
        .encode_buffered_pcm_with_sink(&Metadata::new(), &pcm, [3; 16], &mut log, &[])
        .unwrap();
    let told = std::cell::RefCell::new(Vec::new());
    let mut progress = CallbackProgress::new(|report| {
        told.borrow_mut().push(report);
        if told.borrow().len() == 2 {
            return Err(Error::Thread("enough".to_string()));
        }
        Ok(())
    });
    let mut encoder = Encoder::new(Vec::new(), config);
    let result =
        encoder.encode_buffered_pcm_with_sink(&Metadata::new(), &pcm, [3; 16], &mut progress, &[]);
    assert!(matches!(result, Err(Error::Thread(text)) if text == "enough"));
    assert_eq!(*told.borrow(), log.snapshots[..2]);
    let written = log.snapshots[1].output_bytes_written as usize;
    assert_eq!(encoder.writer().len(), written);
    assert_eq!(encoder.writer()[42..], complete.writer()[42..written]);
}

#[test]
fn reads_that_fail_end_a_session_with_their_error() {
    let descriptor = RawPcmDescriptor {
        sample_rate: 44_100,
        channels: 1,
        valid_bits_per_sample: 16,
        container_bits_per_sample: 16,
        byte_order: RawPcmByteOrder::LittleEndian,
        channel_mask: None,
    };
    let mut stream = RawPcmStream::new(ByteReader::new(vec![1; 60]), descriptor, 100).unwrap();
    let mut output = vec![7];
    let mut log = ProgressLog::new();
    let result = encode_from_stream(
        &EncoderConfig::default(),
        &Metadata::new(),
        &mut stream,
        &mut output,
        &mut log,
        &[],
    );
    assert!(matches!(result, Err(Error::Io(IoErrorKind::UnexpectedEof))));
    assert_eq!(output.len(), 1 + 8 + 34);
    assert_eq!(&output[..5], &[7, b'f', b'L', b'a', b'C']);
    assert!(log.snapshots.is_empty());
}
