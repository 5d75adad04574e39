//! RIFF/WAVE, RF64 and Wave64 files.

use flacx::draft::{FxmdChunkPolicy, MetadataDraft};
use flacx::error::{Error, IoErrorKind};
use flacx::fxmd::{PreservedMetadataBundle, FXMD_VERSION};
use flacx::input::read_wav;
use flacx::metadata::FlacMetadataBlock;
use flacx::pcm::ordinary_channel_mask;
use flacx::{
    decode_bytes, decode_bytes_with_config, encode_bytes, encode_bytes_with_config,
    inspect_wav_total_samples, read_flac_reader, recompress_bytes, write_pcm_stream, ByteReader,
    DecodeConfig, EncoderConfig, PcmContainer, PcmReader, PcmSpec, PcmStream, WavReader,
    WavReaderOptions,
};

const IGNORE: FxmdChunkPolicy = FxmdChunkPolicy {
    capture: false,
    strict: false,
};

const PCM_GUID: [u8; 16] = [
    0x01, 0x00, 0x00, 0x00, 0x00, 0x00, 0x10, 0x00, 0x80, 0x00, 0x00, 0xAA, 0x00, 0x38, 0x9B, 0x71,
];

fn info_list_chunk(entries: &[([u8; 4], &[u8])]) -> Vec<u8> {
    let mut payload = b"INFO".to_vec();
    for (id, value) in entries {
        payload.extend_from_slice(id);
        payload.extend_from_slice(&(value.len() as u32).to_le_bytes());
        payload.extend_from_slice(value);
        if value.len() % 2 != 0 {
            payload.push(0);
        }
    }
    payload
}

fn cue_chunk(offsets: &[u32]) -> Vec<u8> {
    let mut payload = Vec::new();
    payload.extend_from_slice(&(offsets.len() as u32).to_le_bytes());
    for (index, offset) in offsets.iter().enumerate() {
        payload.extend_from_slice(&(index as u32).to_le_bytes());
        payload.extend_from_slice(&0u32.to_le_bytes());
        payload.extend_from_slice(b"data");
        payload.extend_from_slice(&0u32.to_le_bytes());
        payload.extend_from_slice(&0u32.to_le_bytes());
        payload.extend_from_slice(&offset.to_le_bytes());
    }
    payload
}

fn application_payload(bytes: &[u8]) -> Vec<u8> {
    let mut payload = b"TEST".to_vec();
    payload.extend_from_slice(bytes);
    payload
}

fn picture_payload(bytes: &[u8]) -> Vec<u8> {
    let mut payload = Vec::new();
    payload.extend_from_slice(&3u32.to_le_bytes());
    payload.extend_from_slice(&9u32.to_le_bytes());
    payload.extend_from_slice(b"image/png");
    payload.extend_from_slice(&0u32.to_le_bytes());
    payload.extend_from_slice(&1u32.to_le_bytes());
    payload.extend_from_slice(&1u32.to_le_bytes());
    payload.extend_from_slice(&24u32.to_le_bytes());
    payload.extend_from_slice(&0u32.to_le_bytes());
    payload.extend_from_slice(&(bytes.len() as u32).to_le_bytes());
    payload.extend_from_slice(bytes);
    payload
}

fn spec_of(channels: u8, bits_per_sample: u8, frames: u64) -> PcmSpec {
    PcmSpec {
        sample_rate: 44_100,
        channels,
        bits_per_sample,
        total_samples: frames,
        bytes_per_sample: u16::from(bits_per_sample).div_ceil(8),
        channel_mask: ordinary_channel_mask(u16::from(channels)).unwrap(),
    }
}

fn waves(channels: usize, frames: usize, height: i64) -> Vec<i32> {
    let mut samples = Vec::new();
    for frame in 0..frames as i64 {
        for channel in 0..channels as i64 {
            samples.push((((frame * (channel + 3)) % 200 - 100) * height / 100) as i32);
        }
    }
    samples
}

fn file_of(spec: PcmSpec, samples: &[i32], container: PcmContainer) -> Vec<u8> {
    let mut file = Vec::new();
    let stream = PcmStream {
        spec,
        samples: samples.to_vec(),
    };
    write_pcm_stream(&mut file, &stream, container).unwrap();
    file
}

fn chunk(id: &[u8; 4], payload: &[u8]) -> Vec<u8> {
    let mut bytes = id.to_vec();
    bytes.extend_from_slice(&(payload.len() as u32).to_le_bytes());
    bytes.extend_from_slice(payload);
    if payload.len() % 2 != 0 {
        bytes.push(0);
    }
    bytes
}

fn riff(chunks: &[Vec<u8>]) -> Vec<u8> {
    let body: Vec<u8> = chunks.concat();
    let mut bytes = b"RIFF".to_vec();
    bytes.extend_from_slice(&(body.len() as u32 + 4).to_le_bytes());
    bytes.extend_from_slice(b"WAVE");
    bytes.extend_from_slice(&body);
    bytes
}

fn plain_format(channels: u16, bits: u16) -> Vec<u8> {
    let align = channels * bits / 8;
    let mut payload = 1u16.to_le_bytes().to_vec();
    payload.extend_from_slice(&channels.to_le_bytes());
    payload.extend_from_slice(&44_100u32.to_le_bytes());
    payload.extend_from_slice(&(44_100 * u32::from(align)).to_le_bytes());
    payload.extend_from_slice(&align.to_le_bytes());
    payload.extend_from_slice(&bits.to_le_bytes());
    payload
}

fn extensible_format(channels: u16, bits: u16, valid: u16, mask: u32) -> Vec<u8> {
    let mut payload = plain_format(channels, bits);
    payload[..2].copy_from_slice(&0xFFFEu16.to_le_bytes());
    payload.extend_from_slice(&22u16.to_le_bytes());
    payload.extend_from_slice(&valid.to_le_bytes());
    payload.extend_from_slice(&mask.to_le_bytes());
    payload.extend_from_slice(&PCM_GUID);
    payload
}

fn count_of(bytes: &[u8], id: &[u8; 4]) -> usize {
    bytes.windows(4).filter(|window| window == id).count()
}

#[test]
fn normalizes_info_chunks_into_stable_vorbis_comments() {
    let mut draft = MetadataDraft::default();
    draft
        .ingest_chunk(
            *b"LIST",
            &info_list_chunk(&[
                (*b"IART", b"Example Artist"),
                (*b"INAM", b"Song Title"),
                (*b"IZZZ", b"ignored"),
                (*b"IART", b"Guest Artist"),
            ]),
            IGNORE,
        )
        .unwrap();

    let blocks = draft.finish(8_000).flac_blocks(8_000);
    let FlacMetadataBlock::VorbisComment(block) = &blocks[0] else {
        panic!("expected vorbis comments");
    };

    assert_eq!(
        block.entries(),
        &vec![
            "ARTIST=Example Artist",
            "ARTIST=Guest Artist",
            "TITLE=Song Title",
        ]
    );
}

#[test]
fn drops_invalid_utf8_text_metadata() {
    let mut draft = MetadataDraft::default();
    draft
        .ingest_chunk(
            *b"LIST",
            &info_list_chunk(&[(*b"IART", &[0xff, 0xfe, 0xfd])]),
            IGNORE,
        )
        .unwrap();

    assert!(draft.finish(8_000).flac_blocks(8_000).is_empty());
}

#[test]
fn canonical_fxmd_v1_round_trips_exact_preserved_payloads() {
    let mut bundle = PreservedMetadataBundle::default();
    bundle
        .ingest_flac_block(2, &application_payload(b"opaque-app"))
        .unwrap();
    bundle
        .ingest_flac_block(6, &picture_payload(b"\x89PNGexact"))
        .unwrap();

    let payload = bundle.fxmd_chunk_payload().unwrap();
    let restored = PreservedMetadataBundle::from_fxmd_payload(&payload).unwrap();

    assert_eq!(payload[4..6], FXMD_VERSION.to_le_bytes());
    assert_eq!(restored, bundle);
}

#[test]
fn rejects_unsupported_fxmd_versions() {
    let mut bundle = PreservedMetadataBundle::default();
    bundle
        .ingest_flac_block(2, &application_payload(b"opaque-app"))
        .unwrap();
    let mut payload = bundle.fxmd_chunk_payload().unwrap();
    payload[4..6].copy_from_slice(&2u16.to_le_bytes());

    let error = PreservedMetadataBundle::from_fxmd_payload(&payload).unwrap_err();

    assert!(error.message().contains("version is unsupported"));
}

#[test]
fn rejects_unsupported_fxmd_header_flags() {
    let mut bundle = PreservedMetadataBundle::default();
    bundle
        .ingest_flac_block(2, &application_payload(b"opaque-app"))
        .unwrap();
    let mut payload = bundle.fxmd_chunk_payload().unwrap();
    payload[6..8].copy_from_slice(&0u16.to_le_bytes());

    let error = PreservedMetadataBundle::from_fxmd_payload(&payload).unwrap_err();

    assert!(error.message().contains("flags are unsupported"));
}

#[test]
fn broken_fxmd_chunks_are_refused() {
    let mut bundle = PreservedMetadataBundle::default();
    bundle.ingest_flac_block(2, b"TESTxyz").unwrap();
    let payload = bundle.fxmd_chunk_payload().unwrap();
    assert_eq!(payload, b"fxmd\x01\0\x01\0\x01\0\0\0\x02\x07\0\0\0TESTxyz");
    let text = |bytes: &[u8]| {
        let error = PreservedMetadataBundle::from_fxmd_payload(bytes).unwrap_err();
        error.message()
    };
    assert!(text(&payload[..10]).contains("truncated"));
    assert!(text(&payload[..20]).contains("truncated"));
    let mut longer = payload.clone();
    longer.push(0);
    assert!(text(&longer).contains("trailing"));
    let mut other = payload;
    other[0] = b'g';
    assert!(text(&other).contains("magic"));
    assert!(PreservedMetadataBundle::default().fxmd_chunk_payload().is_none());
}

#[test]
fn written_files_read_back() {
    for container in [
        PcmContainer::Auto,
        PcmContainer::Wave,
        PcmContainer::Rf64,
        PcmContainer::Wave64,
    ] {
        for channels in 1..=8u8 {
            for (bits, height) in [(8, 100), (12, 2_000), (16, 30_000), (24, 8_000_000), (32, 2_000_000_000)] {
                let spec = spec_of(channels, bits, 101);
                let samples = waves(usize::from(channels), 101, height);
                let file = file_of(spec, &samples, container);
                let read = read_wav(ByteReader::new(file.clone())).unwrap();
                assert_eq!(read.spec, spec);
                assert_eq!(read.samples, samples);
                assert_eq!(inspect_wav_total_samples(ByteReader::new(file)).unwrap(), 101);
            }
        }
    }
}

#[test]
fn stored_bytes_are_little_endian_with_a_bias_for_one_byte() {
    let file = file_of(spec_of(1, 8, 3), &[-128, 0, 127], PcmContainer::Wave);
    assert_eq!(file.len(), 48);
    assert_eq!(&file[..4], b"RIFF");
    assert_eq!(file[4..8], 40u32.to_le_bytes());
    assert_eq!(&file[8..16], b"WAVEfmt ");
    assert_eq!(file[20..36], plain_format(1, 8));
    assert_eq!(&file[36..40], b"data");
    assert_eq!(file[40..44], 3u32.to_le_bytes());
    assert_eq!(file[44..], [0, 128, 255, 0]);
    let wide = file_of(spec_of(1, 16, 2), &[0x1234, -2], PcmContainer::Wave);
    assert_eq!(wide[44..], [0x34, 0x12, 0xfe, 0xff]);
}

#[test]
fn wav_files_come_back_from_their_streams() {
    for channels in 1..=8u8 {
        for (bits, height) in [(8, 100), (12, 2_000), (16, 30_000), (24, 8_000_000)] {
            let spec = spec_of(channels, bits, 700);
            let samples = waves(usize::from(channels), 700, height);
            for container in [PcmContainer::Wave, PcmContainer::Rf64, PcmContainer::Wave64] {
                let file = file_of(spec, &samples, container);
                let flac = encode_bytes(file.clone(), &[]).unwrap();
                let config = DecodeConfig::default().with_output_container(container);
                assert_eq!(decode_bytes_with_config(&config, &flac).unwrap(), file);
            }
        }
    }
    let spec = spec_of(2, 16, 900);
    let samples = waves(2, 900, 9_000);
    let wav = file_of(spec, &samples, PcmContainer::Wave);
    let flac = encode_bytes(wav.clone(), &[]).unwrap();
    let again = recompress_bytes(&flac, &[]).unwrap();
    assert_eq!(decode_bytes(&again).unwrap(), wav);
}

#[test]
fn chunks_carry_metadata_into_the_stream() {
    let mut data = Vec::new();
    for sample in waves(1, 2_000, 9_000) {
        data.extend_from_slice(&(sample as i16).to_le_bytes());
    }
    let file = riff(&[
        chunk(b"JUNK", b"odd"),
        chunk(b"fmt ", &plain_format(1, 16)),
        chunk(b"data", &data),
        chunk(b"LIST", &info_list_chunk(&[(*b"INAM", b"Song\0"), (*b"IART", b"One")])),
        chunk(b"cue ", &cue_chunk(&[100, 1_500])),
    ]);
    let flac = encode_bytes(file.clone(), &[]).unwrap();
    let reader = read_flac_reader(&flac).unwrap();
    assert_eq!(reader.metadata().comments(), vec![("ARTIST", "One"), ("TITLE", "Song")]);
    assert_eq!(reader.metadata().cue_points(), [100, 1_500]);
    let wav = decode_bytes(&flac).unwrap();
    assert_eq!(count_of(&wav, b"fxmd"), 2);
    let read = PcmReader::new(ByteReader::new(wav.clone())).unwrap();
    assert!(!read.metadata().is_empty());
    assert_eq!(encode_bytes(wav.clone(), &[]).unwrap(), flac);
    let loose = DecodeConfig::default().with_emit_fxmd(false);
    let bare = decode_bytes_with_config(&loose, &flac).unwrap();
    assert_eq!(count_of(&bare, b"fxmd"), 0);
    assert_eq!(count_of(&bare, b"LIST"), 1);
    assert_eq!(count_of(&bare, b"cue "), 1);
}

#[test]
fn fxmd_chunks_follow_the_options() {
    let spec = spec_of(1, 16, 50);
    let mut file = file_of(spec, &waves(1, 50, 9_000), PcmContainer::Wave);
    file.extend_from_slice(&chunk(b"fxmd", b"broken"));
    let strict = WavReader::new(ByteReader::new(file.clone())).err().unwrap();
    assert!(strict.message().contains("fxmd"));
    for (capture, strict) in [(true, false), (false, true), (false, false)] {
        let options = WavReaderOptions {
            capture_fxmd: capture,
            strict_fxmd_validation: strict,
        };
        let reader = WavReader::with_reader_options(ByteReader::new(file.clone()), options).unwrap();
        assert!(reader.metadata().is_empty());
    }
    assert!(encode_bytes(file.clone(), &[]).is_err());
    let config = EncoderConfig::default().with_capture_fxmd(false);
    assert!(encode_bytes_with_config(&config, file, &[]).is_ok());
}

#[test]
fn unusual_layouts_are_kept_with_their_marker() {
    let mut data = Vec::new();
    for sample in waves(4, 300, 9_000) {
        data.extend_from_slice(&(sample as i16).to_le_bytes());
    }
    let file = riff(&[
        chunk(b"fmt ", &extensible_format(4, 16, 16, 0x0001_2104)),
        chunk(b"data", &data),
    ]);
    let flac = encode_bytes(file.clone(), &[]).unwrap();
    let reader = read_flac_reader(&flac).unwrap();
    assert_eq!(reader.spec().channel_mask, 0x0001_2104);
    assert!(reader.metadata().has_channel_layout_provenance());
    let config = DecodeConfig::default()
        .with_strict_channel_mask_provenance(true)
        .with_emit_fxmd(false);
    assert_eq!(decode_bytes_with_config(&config, &flac).unwrap(), file);
}

#[test]
fn broken_wav_files_are_refused() {
    let text = |bytes: Vec<u8>| read_wav(ByteReader::new(bytes)).err().unwrap().message();
    let data = chunk(b"data", &[0, 0, 0, 0]);
    assert!(text(b"not a wav".to_vec()).contains("invalid wav"));
    assert!(text(riff(&[data.clone()])).contains("fmt chunk is missing"));
    assert!(text(riff(&[chunk(b"fmt ", &plain_format(1, 16))])).contains("data chunk is missing"));
    assert!(text(riff(&[chunk(b"fmt ", b"short"), data.clone()])).contains("too short"));
    let mut float = plain_format(1, 32);
    float[0] = 3;
    assert!(text(riff(&[chunk(b"fmt ", &float), data.clone()])).contains("unsupported wav"));
    let mut align = plain_format(1, 16);
    align[12] = 4;
    assert!(text(riff(&[chunk(b"fmt ", &align), data.clone()])).contains("block alignment"));
    let many = chunk(b"fmt ", &plain_format(9, 16));
    assert!(text(riff(&[many, data.clone()])).contains("1..8 channels"));
    let mut wide = plain_format(1, 32);
    wide[14] = 40;
    assert!(text(riff(&[chunk(b"fmt ", &wide), data.clone()])).contains("up to 32 bits"));
    let odd = chunk(b"data", &[0, 0, 0]);
    let format = chunk(b"fmt ", &plain_format(1, 16));
    assert!(text(riff(&[format.clone(), odd])).contains("not aligned"));
    let mut cut = riff(&[format.clone(), data.clone()]);
    cut.truncate(cut.len() - 1);
    assert!(text(cut).contains("failed to fill"));
    let mut long = riff(&[format.clone(), chunk(b"LIST", b"INFO")]);
    long.truncate(long.len() - 1);
    assert!(text(long).contains("exceeds the file"));
    let mut rf64 = riff(&[format, data]);
    rf64[..4].copy_from_slice(b"RF64");
    assert!(text(rf64).contains("ds64"));
    let mut guid = extensible_format(1, 16, 16, 4);
    guid[24] = 3;
    let other = riff(&[chunk(b"fmt ", &guid), chunk(b"data", &[0, 0])]);
    assert!(text(other).contains("unsupported wav"));
    let mut wave64 = file_of(spec_of(1, 16, 2), &[1, 2], PcmContainer::Wave64);
    wave64[56] = 3;
    assert!(text(wave64).contains("shorter than its header"));
}

#[test]
fn outputs_that_do_not_fit_are_refused() {
    let write = |spec: PcmSpec| {
        let stream = PcmStream {
            spec,
            samples: vec![0; 4],
        };
        write_pcm_stream(&mut Vec::new(), &stream, PcmContainer::Wave).err().unwrap().message()
    };
    let good = spec_of(2, 16, 2);
    assert!(write(PcmSpec { channels: 9, ..good }).contains("1..8 channels"));
    assert!(write(PcmSpec { channel_mask: 7, ..good }).contains("channel mask"));
    assert!(write(PcmSpec { bits_per_sample: 3, ..good }).contains("4..32"));
    assert!(write(PcmSpec { bytes_per_sample: 3, ..good }).contains("container width"));
    assert!(write(PcmSpec { total_samples: 3, ..good }).contains("total sample count"));
    let long = PcmSpec { total_samples: 1 << 60, ..good };
    assert!(write(long).contains("supported range"));
    assert!(write(PcmSpec { channels: 3, channel_mask: 7, ..good }).contains("not aligned"));
}

#[test]
fn incomplete_files_end_with_the_end_of_their_bytes() {
    let samples = waves(2, 1_000, 9_000);
    let mut file = file_of(spec_of(2, 16, 1_000), &samples, PcmContainer::Wave);
    file.truncate(file.len() - 6);
    let error = encode_bytes(file, &[]).err().unwrap();
    assert!(matches!(error, Error::Io(IoErrorKind::UnexpectedEof)));
}
