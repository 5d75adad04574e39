//! Writing AIFF and AIFF-C files.

use flacx::aiff::{AIFC_FORM_TYPE, AIFF_FORM_TYPE};
use flacx::aiff_output::{
    aiff_text_chunk_id_for_wav_info_chunk, mark_chunk_payload, pascal_string,
    write_aiff_with_metadata_and_md5, AiffContainer, AIFC_NONE_COMPRESSION_TYPE,
    AIFF_ANNOTATION_CHUNK_ID, AIFF_AUTH_CHUNK_ID, AIFF_COPYRIGHT_CHUNK_ID, AIFF_NAME_CHUNK_ID,
};
use flacx::pcm::ordinary_channel_mask;
use flacx::{Metadata, PcmSpec};

fn cue_payload(points: &[u32]) -> Vec<u8> {
    let mut payload = vec![0u8; 128];
    payload.extend_from_slice(&0u64.to_be_bytes());
    payload.push(0);
    payload.extend_from_slice(&[0u8; 258]);
    payload.push((points.len() + 1) as u8);
    for (index, &point) in points.iter().enumerate() {
        payload.extend_from_slice(&u64::from(point).to_be_bytes());
        payload.push((index + 1) as u8);
        payload.extend_from_slice(&[0u8; 12]);
        payload.push(0);
        payload.extend_from_slice(&[0u8; 13]);
        payload.push(0);
    }
    payload
        .extend_from_slice(&(u64::from(points.last().copied().unwrap_or(0)) + 1).to_be_bytes());
    payload.push(170);
    payload.extend_from_slice(&[0u8; 12]);
    payload.push(0);
    payload.extend_from_slice(&[0u8; 13]);
    payload.push(0);
    payload
}

fn vorbis_comment_payload(entries: &[(&str, &str)]) -> Vec<u8> {
    let mut payload = Vec::new();
    payload.extend_from_slice(&0u32.to_le_bytes());
    payload.extend_from_slice(&(entries.len() as u32).to_le_bytes());
    for (key, value) in entries {
        let entry = format!("{key}={value}");
        payload.extend_from_slice(&(entry.len() as u32).to_le_bytes());
        payload.extend_from_slice(entry.as_bytes());
    }
    payload
}

#[test]
fn maps_wav_info_chunks_to_aiff_text_chunks() {
    assert_eq!(
        aiff_text_chunk_id_for_wav_info_chunk(*b"INAM"),
        Some(AIFF_NAME_CHUNK_ID)
    );
    assert_eq!(
        aiff_text_chunk_id_for_wav_info_chunk(*b"IART"),
        Some(AIFF_AUTH_CHUNK_ID)
    );
    assert_eq!(
        aiff_text_chunk_id_for_wav_info_chunk(*b"ICOP"),
        Some(AIFF_COPYRIGHT_CHUNK_ID)
    );
    assert_eq!(
        aiff_text_chunk_id_for_wav_info_chunk(*b"ICMT"),
        Some(AIFF_ANNOTATION_CHUNK_ID)
    );
}

#[test]
fn pascal_strings_are_even_length() {
    assert_eq!(pascal_string(b""), vec![0, 0]);
    assert_eq!(pascal_string(b"abc"), vec![3, b'a', b'b', b'c']);
    assert_eq!(pascal_string(b"abcd"), vec![4, b'a', b'b', b'c', b'd', 0]);
}

#[test]
fn project_cues_into_mark_chunk() {
    let mut metadata = Metadata::default();
    metadata
        .ingest_flac_metadata_block(5, &cue_payload(&[0, 2]), 4, 1)
        .unwrap();

    let payload = mark_chunk_payload(&metadata).expect("mark chunk");
    assert_eq!(u16::from_be_bytes(payload[..2].try_into().unwrap()), 2);
    assert_eq!(u16::from_be_bytes(payload[2..4].try_into().unwrap()), 1);
    assert_eq!(u32::from_be_bytes(payload[4..8].try_into().unwrap()), 0);
    assert_eq!(u16::from_be_bytes(payload[10..12].try_into().unwrap()), 2);
    assert_eq!(u32::from_be_bytes(payload[12..16].try_into().unwrap()), 2);
}

#[test]
fn writes_canonical_aiff_with_text_and_markers() {
    let spec = PcmSpec {
        sample_rate: 44_100,
        channels: 2,
        bits_per_sample: 16,
        total_samples: 2,
        bytes_per_sample: 2,
        channel_mask: ordinary_channel_mask(2).unwrap(),
    };
    let samples = [1, -2, 3, -4];
    let mut metadata = Metadata::default();
    metadata
        .ingest_flac_metadata_block(
            4,
            &vorbis_comment_payload(&[
                ("TITLE", "Example"),
                ("ARTIST", "Artist"),
                ("COPYRIGHT", "2026"),
                ("COMMENT", "Comment"),
            ]),
            4,
            1,
        )
        .unwrap();
    metadata
        .ingest_flac_metadata_block(5, &cue_payload(&[1]), 4, 1)
        .unwrap();

    let mut out = Vec::new();
    let md5 = write_aiff_with_metadata_and_md5(
        &mut out,
        spec,
        &samples,
        &metadata,
        AiffContainer::Aiff,
    )
    .unwrap();

    assert_eq!(&out[..4], b"FORM");
    assert_eq!(&out[8..12], &AIFF_FORM_TYPE);
    assert_eq!(md5.len(), 16);
    assert!(out.windows(4).any(|window| window == b"NAME"));
    assert!(out.windows(4).any(|window| window == b"AUTH"));
    assert!(out.windows(4).any(|window| window == b"(c) "));
    assert!(out.windows(4).any(|window| window == b"ANNO"));
    assert!(out.windows(4).any(|window| window == b"MARK"));
    assert!(out.windows(4).any(|window| window == b"SSND"));
}

#[test]
fn writes_canonical_aifc_none_with_fver() {
    let spec = PcmSpec {
        sample_rate: 48_000,
        channels: 1,
        bits_per_sample: 24,
        total_samples: 1,
        bytes_per_sample: 3,
        channel_mask: ordinary_channel_mask(1).unwrap(),
    };
    let samples = [0x123456];
    let metadata = Metadata::default();
    let mut out = Vec::new();

    write_aiff_with_metadata_and_md5(
        &mut out,
        spec,
        &samples,
        &metadata,
        AiffContainer::AifcNone,
    )
    .unwrap();

    assert_eq!(&out[..4], b"FORM");
    assert_eq!(&out[8..12], &AIFC_FORM_TYPE);
    assert!(out.windows(4).any(|window| window == b"FVER"));
    assert!(out.windows(4).any(|window| window == b"NONE"));
    assert!(
        out.windows(4)
            .any(|window| window == AIFC_NONE_COMPRESSION_TYPE)
    );
}

#[test]
fn accepts_ordinary_multichannel_output_shapes() {
    let spec = PcmSpec {
        sample_rate: 48_000,
        channels: 4,
        bits_per_sample: 16,
        total_samples: 2,
        bytes_per_sample: 2,
        channel_mask: ordinary_channel_mask(4).unwrap(),
    };
    let samples = [1, 2, 3, 4, 5, 6, 7, 8];
    let mut out = Vec::new();

    write_aiff_with_metadata_and_md5(
        &mut out,
        spec,
        &samples,
        &Metadata::default(),
        AiffContainer::Aiff,
    )
    .unwrap();

    assert_eq!(&out[..4], b"FORM");
    assert_eq!(&out[8..12], &AIFF_FORM_TYPE);
}
