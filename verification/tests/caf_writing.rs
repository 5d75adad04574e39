//! Writing CAF files.

use flacx::caf::{CAF_LAYOUT_TAG_USE_CHANNEL_BITMAP, CHAN_CHUNK_ID, DATA_CHUNK_ID, DESC_CHUNK_ID};
use flacx::caf_output::{write_caf, CAF_INFO_CHUNK_ID, CAF_MARK_CHUNK_ID};
use flacx::pcm::ordinary_channel_mask;
use flacx::{Metadata, PcmSpec};

fn vorbis_comment_payload(entries: &[(&str, &str)]) -> Vec<u8> {
    let mut payload = Vec::new();
    payload.extend_from_slice(&0u32.to_le_bytes());
    payload.extend_from_slice(&(entries.len() as u32).to_le_bytes());
    for (key, value) in entries {
        let entry = format!("{key}={value}");
        payload.extend_from_slice(&(entry.len() as u32).to_le_bytes());
        payload.extend_from_slice(entry.as_bytes());
    }
    payload
}

fn cuesheet_payload(track_offsets: &[u64], lead_out_offset: u64) -> Vec<u8> {
    let mut payload = vec![0u8; 128];
    payload.extend_from_slice(&0u64.to_be_bytes());
    payload.push(0);
    payload.extend_from_slice(&[0u8; 258]);
    payload.push((track_offsets.len() + 1) as u8);
    for (index, &offset) in track_offsets.iter().enumerate() {
        payload.extend_from_slice(&offset.to_be_bytes());
        payload.push((index + 1) as u8);
        payload.extend_from_slice(&[0u8; 12]);
        payload.push(0);
        payload.extend_from_slice(&[0u8; 13]);
        payload.push(1);
        payload.extend_from_slice(&0u64.to_be_bytes());
        payload.push(1);
        payload.extend_from_slice(&[0u8; 3]);
    }
    payload.extend_from_slice(&lead_out_offset.to_be_bytes());
    payload.push(170);
    payload.extend_from_slice(&[0u8; 12]);
    payload.push(0);
    payload.extend_from_slice(&[0u8; 13]);
    payload.push(0);
    payload
}

fn parse_caf_chunks(bytes: &[u8]) -> Vec<([u8; 4], Vec<u8>)> {
    assert_eq!(&bytes[..4], b"caff");
    assert_eq!(u16::from_be_bytes(bytes[4..6].try_into().unwrap()), 1);
    let mut cursor = 8usize;
    let mut chunks = Vec::new();
    while cursor < bytes.len() {
        let chunk_id: [u8; 4] = bytes[cursor..cursor + 4].try_into().unwrap();
        let size = i64::from_be_bytes(bytes[cursor + 4..cursor + 12].try_into().unwrap());
        assert!(size >= 0);
        cursor += 12;
        let size = size as usize;
        chunks.push((chunk_id, bytes[cursor..cursor + size].to_vec()));
        cursor += size;
    }
    chunks
}

fn parse_info_entries(payload: &[u8]) -> Vec<(String, String)> {
    let mut cursor = 0usize;
    let count = u32::from_be_bytes(payload[cursor..cursor + 4].try_into().unwrap()) as usize;
    cursor += 4;
    let mut entries = Vec::with_capacity(count);
    for _ in 0..count {
        let key_end = payload[cursor..]
            .iter()
            .position(|&byte| byte == 0)
            .map(|offset| cursor + offset)
            .unwrap();
        let key = String::from_utf8(payload[cursor..key_end].to_vec()).unwrap();
        cursor = key_end + 1;
        let value_end = payload[cursor..]
            .iter()
            .position(|&byte| byte == 0)
            .map(|offset| cursor + offset)
            .unwrap();
        let value = String::from_utf8(payload[cursor..value_end].to_vec()).unwrap();
        cursor = value_end + 1;
        entries.push((key, value));
    }
    entries
}

#[test]
fn writes_minimal_caf_pcm_with_md5() {
    let spec = PcmSpec {
        sample_rate: 44_100,
        channels: 2,
        bits_per_sample: 16,
        total_samples: 2,
        bytes_per_sample: 2,
        channel_mask: ordinary_channel_mask(2u16).unwrap(),
    };
    let samples = [1, -2, 3, -4];
    let mut caf = Vec::new();

    let md5 = write_caf(&mut caf, spec, &samples, &Metadata::default()).unwrap();
    let chunks = parse_caf_chunks(&caf);

    assert_eq!(
        chunks.iter().map(|(id, _)| *id).collect::<Vec<_>>(),
        vec![DESC_CHUNK_ID, DATA_CHUNK_ID]
    );
    assert_eq!(md5.len(), 16);
    assert_eq!(
        u32::from_be_bytes(chunks[0].1[16..20].try_into().unwrap()),
        4
    );
    assert_eq!(
        u32::from_be_bytes(chunks[0].1[24..28].try_into().unwrap()),
        2
    );
    assert_eq!(chunks[1].1[..4], [0, 0, 0, 0]);
    assert_eq!(chunks[1].1[4..], [1, 0, 254, 255, 3, 0, 252, 255]);
}

#[test]
fn writes_signed_8bit_pcm_without_wav_bias() {
    let spec = PcmSpec {
        sample_rate: 48_000,
        channels: 1,
        bits_per_sample: 8,
        total_samples: 3,
        bytes_per_sample: 1,
        channel_mask: ordinary_channel_mask(1u16).unwrap(),
    };
    let samples = [-128, 0, 127];
    let mut caf = Vec::new();

    write_caf(&mut caf, spec, &samples, &Metadata::default()).unwrap();
    let chunks = parse_caf_chunks(&caf);

    assert_eq!(chunks[1].1[..4], [0, 0, 0, 0]);
    assert_eq!(chunks[1].1[4..], [0x80, 0x00, 0x7f]);
}

#[test]
fn projects_info_and_mark_metadata_without_strings_dependency() {
    let spec = PcmSpec {
        sample_rate: 44_100,
        channels: 2,
        bits_per_sample: 16,
        total_samples: 4,
        bytes_per_sample: 2,
        channel_mask: ordinary_channel_mask(2u16).unwrap(),
    };
    let samples = [1, -2, 3, -4, 5, -6, 7, -8];
    let mut metadata = Metadata::default();
    metadata
        .ingest_flac_metadata_block(
            4,
            &vorbis_comment_payload(&[
                ("TITLE", "Example Title"),
                ("ARTIST", "Example Artist"),
                ("COMMENT", "One"),
                ("COMMENT", "Two"),
            ]),
            4,
            1,
        )
        .unwrap();
    metadata
        .ingest_flac_metadata_block(5, &cuesheet_payload(&[1, 3], 4), 4, 1)
        .unwrap();

    let mut caf = Vec::new();
    write_caf(&mut caf, spec, &samples, &metadata).unwrap();
    let chunks = parse_caf_chunks(&caf);

    assert_eq!(
        chunks.iter().map(|(id, _)| *id).collect::<Vec<_>>(),
        vec![
            DESC_CHUNK_ID,
            CAF_INFO_CHUNK_ID,
            CAF_MARK_CHUNK_ID,
            DATA_CHUNK_ID
        ]
    );
    let info_entries = parse_info_entries(&chunks[1].1);
    assert!(info_entries.contains(&(String::from("title"), String::from("Example Title"))));
    assert!(info_entries.contains(&(String::from("artist"), String::from("Example Artist"))));
    assert!(info_entries.contains(&(String::from("comments"), String::from("One,Two"))));
    assert_eq!(u32::from_be_bytes(chunks[2].1[0..4].try_into().unwrap()), 2);
    assert_eq!(
        f64::from_be_bytes(chunks[2].1[8..16].try_into().unwrap()),
        1.0
    );
    assert_eq!(
        f64::from_be_bytes(chunks[2].1[36..44].try_into().unwrap()),
        3.0
    );
}

#[test]
fn emits_channel_layout_for_non_ordinary_masks() {
    let spec = PcmSpec {
        sample_rate: 48_000,
        channels: 4,
        bits_per_sample: 16,
        total_samples: 2,
        bytes_per_sample: 2,
        channel_mask: 0x0001_2104,
    };
    let samples = [1, 2, 3, 4, 5, 6, 7, 8];
    let mut caf = Vec::new();

    write_caf(&mut caf, spec, &samples, &Metadata::default()).unwrap();
    let chunks = parse_caf_chunks(&caf);

    assert_eq!(
        chunks.iter().map(|(id, _)| *id).collect::<Vec<_>>(),
        vec![DESC_CHUNK_ID, CHAN_CHUNK_ID, DATA_CHUNK_ID]
    );
    assert_eq!(
        u32::from_be_bytes(chunks[1].1[0..4].try_into().unwrap()),
        CAF_LAYOUT_TAG_USE_CHANNEL_BITMAP
    );
    assert_eq!(
        u32::from_be_bytes(chunks[1].1[4..8].try_into().unwrap()),
        0x0001_2104
    );
    assert_eq!(
        u32::from_be_bytes(chunks[1].1[8..12].try_into().unwrap()),
        0
    );
}

#[test]
fn rejects_unsupported_channel_layouts() {
    let spec = PcmSpec {
        sample_rate: 48_000,
        channels: 4,
        bits_per_sample: 16,
        total_samples: 2,
        bytes_per_sample: 2,
        channel_mask: 0x0000_0003,
    };
    let samples = [1, 2, 3, 4, 5, 6, 7, 8];
    let mut caf = Vec::new();

    let error = write_caf(&mut caf, spec, &samples, &Metadata::default()).err().unwrap();
    assert!(error.message().contains("channel mask"));
}
