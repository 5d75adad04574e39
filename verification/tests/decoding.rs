//! Turning decoded samples into PCM files.

use flacx::convenience::inferred_output_container;
use flacx::decode::{align_metadata_to_stream_spec, BufferedPcmStream};
use flacx::decode_output::{chunk_frames_for_stream, should_materialize_decode};
use flacx::md5::streaminfo_md5;
use flacx::pcm::ordinary_channel_mask;
use flacx::error::Error;
use flacx::progress::{CallbackProgress, NoProgress, ProgressLog, ProgressSnapshot};
use flacx::stream_info::{digest_array, StreamInfo};
use flacx::{
    write_pcm_stream, AiffReader, ByteReader, CafReader, DecodeConfig, DecodeSource, Decoder,
    EncodePcmStream, Metadata, PcmContainer, PcmReader, PcmSpec, PcmStream,
};

fn spec_of(channels: u8, frames: u64) -> PcmSpec {
    PcmSpec {
        sample_rate: 48_000,
        channels,
        bits_per_sample: 16,
        total_samples: frames,
        bytes_per_sample: 2,
        channel_mask: ordinary_channel_mask(u16::from(channels)).unwrap(),
    }
}

fn ramp(count: usize) -> Vec<i32> {
    (0..count as i32).map(|index| index * 37 % 3_001 - 1_500).collect()
}

fn decoded(spec: PcmSpec, samples: &[i32], whole: bool) -> BufferedPcmStream {
    let mut info = StreamInfo::new(spec, 16, 16);
    info.md5 = digest_array(&streaminfo_md5(spec, samples).unwrap());
    BufferedPcmStream::new(spec, info, samples.to_vec(), 5, whole)
}

fn read_back(file: Vec<u8>) -> (PcmSpec, Vec<i32>) {
    let reader = PcmReader::new(ByteReader::new(file)).unwrap();
    let spec = reader.spec();
    let mut stream = reader.into_pcm_stream();
    let mut samples = Vec::new();
    while stream.read_chunk(7, &mut samples).unwrap() > 0 {}
    (spec, samples)
}

#[test]
fn decoded_samples_read_back_from_each_container() {
    let spec = spec_of(2, 40);
    let samples = ramp(80);
    for container in [PcmContainer::Aiff, PcmContainer::Aifc, PcmContainer::Caf] {
        for whole in [true, false] {
            let config = DecodeConfig::default().with_output_container(container);
            let mut decoder = Decoder::new(Vec::new(), config);
            let summary = decoder.decode(decoded(spec, &samples, whole)).unwrap();
            assert_eq!(summary.total_samples, 40);
            assert_eq!(summary.frame_count, 5);
            let mut expected = spec;
            if container == PcmContainer::Caf {
                expected.channel_mask = 0;
            }
            assert_eq!(read_back(decoder.into_inner()), (expected, samples.clone()));
        }
    }
}

#[test]
fn streamed_files_are_the_files_written_at_once() {
    let spec = spec_of(1, 33);
    let samples = ramp(33);
    for container in [PcmContainer::Aiff, PcmContainer::Aifc, PcmContainer::Caf] {
        let config = DecodeConfig::default().with_output_container(container);
        let mut at_once = Decoder::new(Vec::new(), config);
        at_once.decode(decoded(spec, &samples, true)).unwrap();
        let mut streamed = Decoder::new(Vec::new(), config);
        streamed.decode(decoded(spec, &samples, false)).unwrap();
        let mut written = Vec::new();
        let pcm = PcmStream {
            spec,
            samples: samples.clone(),
        };
        write_pcm_stream(&mut written, &pcm, container).unwrap();
        let file = at_once.into_inner();
        assert_eq!(file, streamed.into_inner());
        assert_eq!(file, written);
    }
}

#[test]
fn a_wrong_digest_is_refused() {
    let spec = spec_of(1, 20);
    let samples = ramp(20);
    for whole in [true, false] {
        let mut info = StreamInfo::new(spec, 16, 16);
        info.md5 = [1; 16];
        let stream = BufferedPcmStream::new(spec, info, samples.clone(), 2, whole);
        let config = DecodeConfig::default().with_output_container(PcmContainer::Aiff);
        let mut decoder = Decoder::new(Vec::new(), config);
        let error = decoder.decode(stream).err().unwrap();
        assert!(error.message().contains("MD5"));
        assert_eq!(&decoder.into_inner()[..4], b"FORM");
    }
}

#[test]
fn wave_containers_start_with_their_identifiers() {
    let spec = spec_of(1, 20);
    for (container, start) in [
        (PcmContainer::Auto, b"RIFF"),
        (PcmContainer::Wave, b"RIFF"),
        (PcmContainer::Rf64, b"RF64"),
        (PcmContainer::Wave64, b"riff"),
    ] {
        for whole in [true, false] {
            let config = DecodeConfig::default().with_output_container(container);
            let mut decoder = Decoder::new(Vec::new(), config);
            decoder.decode(decoded(spec, &ramp(20), whole)).unwrap();
            assert_eq!(&decoder.into_inner()[..4], start);
        }
    }
}

#[test]
fn decoding_reports_end_with_the_whole_stream() {
    let spec = spec_of(2, 40);
    let samples = ramp(80);
    for whole in [true, false] {
        let mut log = ProgressLog::new();
        let config = DecodeConfig::default().with_output_container(PcmContainer::Caf);
        let mut decoder = Decoder::new(Vec::new(), config);
        decoder
            .decode_with_progress(decoded(spec, &samples, whole), &mut log)
            .unwrap();
        let last = log.snapshots.last().unwrap();
        assert_eq!(last.processed_samples, 40);
        assert_eq!(last.total_samples, 40);
        assert_eq!(last.completed_frames, 5);
        assert_eq!(last.output_bytes_written as usize, decoder.into_inner().len());
    }
}

#[test]
fn comments_are_written_into_the_file() {
    let spec = spec_of(1, 20);
    let mut metadata = Metadata::new();
    metadata.add_comment("title", "Song");
    let source = DecodeSource::new(metadata, decoded(spec, &ramp(20), true));
    let config = DecodeConfig::default().with_output_container(PcmContainer::Aiff);
    let mut decoder = Decoder::new(Vec::new(), config);
    decoder
        .decode_source_with_progress(source, &mut NoProgress::new())
        .unwrap();
    let file = decoder.into_inner();
    assert!(file.windows(8).any(|window| window == b"NAME\0\0\0\x04"));
    assert!(file.windows(4).any(|window| window == b"Song"));
    assert_eq!(AiffReader::new(ByteReader::new(file)).unwrap().spec(), spec);
}

#[test]
fn strict_layouts_need_their_provenance() {
    let mut spec = spec_of(4, 10);
    let mut metadata = Metadata::new();
    assert!(align_metadata_to_stream_spec(&metadata, spec, true).is_ok());
    spec.channel_mask = 0x0001_2104;
    assert!(align_metadata_to_stream_spec(&metadata, spec, false).is_ok());
    assert!(align_metadata_to_stream_spec(&metadata, spec, true).is_err());
    metadata.set_channel_mask(0x0001_2104);
    assert!(align_metadata_to_stream_spec(&metadata, spec, true).is_ok());
}

#[test]
fn output_extensions_name_containers() {
    assert_eq!(
        inferred_output_container(Some("AIFC")).unwrap(),
        Some(PcmContainer::Aifc)
    );
    assert_eq!(
        inferred_output_container(Some("caf")).unwrap(),
        Some(PcmContainer::Caf)
    );
    for (extension, container) in [
        ("wav", PcmContainer::Wave),
        ("RF64", PcmContainer::Rf64),
        ("w64", PcmContainer::Wave64),
    ] {
        assert_eq!(inferred_output_container(Some(extension)).unwrap(), Some(container));
    }
    assert!(inferred_output_container(Some("bin")).is_err());
    assert_eq!(inferred_output_container(None).unwrap(), None);
}

#[test]
fn large_streams_are_decoded_in_chunks() {
    assert!(should_materialize_decode(1_000));
    assert!(!should_materialize_decode(8_388_609));
    let info = StreamInfo::new(spec_of(1, 10), 4_096, 4_096);
    assert_eq!(chunk_frames_for_stream(info), 4_096 * 1_024);
}

#[test]
fn unusual_layouts_read_back_from_caf_files() {
    let mut spec = spec_of(4, 3);
    spec.channel_mask = 0x0001_2104;
    let samples = ramp(12);
    let mut file = Vec::new();
    let pcm = PcmStream {
        spec,
        samples: samples.clone(),
    };
    write_pcm_stream(&mut file, &pcm, PcmContainer::Caf).unwrap();
    let reader = CafReader::new(ByteReader::new(file)).unwrap();
    assert_eq!(reader.spec(), spec);
    let mut read = Vec::new();
    reader.into_pcm_stream().read_chunk(3, &mut read).unwrap();
    assert_eq!(read, samples);
}

#[test]
fn reports_follow_the_chunks_of_a_stream() {
    let spec = spec_of(1, 3_000);
    let samples = ramp(3_000);
    let mut info = StreamInfo::new(spec, 1, 1);
    info.md5 = digest_array(&streaminfo_md5(spec, &samples).unwrap());
    let stream = BufferedPcmStream::new(spec, info, samples, 9, false);
    let mut log = ProgressLog::new();
    let config = DecodeConfig::default().with_output_container(PcmContainer::Aiff);
    let mut decoder = Decoder::new(Vec::new(), config);
    decoder.decode_with_progress(stream, &mut log).unwrap();
    let processed: Vec<u64> = log
        .snapshots
        .iter()
        .map(|report| report.processed_samples)
        .collect();
    assert_eq!(processed, vec![1_024, 2_048, 3_000, 3_000]);
    let written: Vec<u64> = log
        .snapshots
        .iter()
        .map(|report| report.output_bytes_written)
        .collect();
    assert_eq!(written[1] - written[0], 2_048);
    assert_eq!(written[3] as usize, decoder.into_inner().len());
}

#[test]
fn a_refused_report_ends_a_decode_session() {
    let spec = spec_of(1, 3_000);
    let samples = ramp(3_000);
    let mut info = StreamInfo::new(spec, 1, 1);
    info.md5 = digest_array(&streaminfo_md5(spec, &samples).unwrap());
    let stream = BufferedPcmStream::new(spec, info, samples, 9, false);
    let told = std::cell::RefCell::new(Vec::new());
    let mut progress = CallbackProgress::new(|report: ProgressSnapshot| {
        told.borrow_mut().push(report.processed_samples);
        if told.borrow().len() == 2 {
            return Err(Error::Thread("enough".to_string()));
        }
        Ok(())
    });
    let mut decoder = Decoder::new(Vec::new(), DecodeConfig::default());
    let result = decoder.decode_with_progress(stream, &mut progress);
    assert!(matches!(result, Err(Error::Thread(text)) if text == "enough"));
    assert_eq!(*told.borrow(), vec![1_024, 2_048]);
}

#[test]
fn the_last_report_tells_the_place_in_the_output() {
    let spec = spec_of(1, 20);
    for whole in [true, false] {
        let mut log = ProgressLog::new();
        let mut decoder = Decoder::new(vec![9; 100], DecodeConfig::default());
        decoder
            .decode_with_progress(decoded(spec, &ramp(20), whole), &mut log)
            .unwrap();
        let output = decoder.into_inner();
        assert_eq!(&output[100..104], b"RIFF");
        let last = log.snapshots.last().unwrap();
        assert_eq!(last.output_bytes_written as usize, output.len());
    }
}
