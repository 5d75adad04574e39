//! Metadata on its way to and from FLAC blocks.

use flacx::cuesheet::parse_cuesheet_tracks;
use flacx::metadata::{FlacMetadataBlock, CUESHEET_BLOCK_TYPE};
use flacx::riff_chunks::parse_riff_cue_payload;
use flacx::seektable::{validate_seektable_payload, SeekPoint, SEEKTABLE_PLACEHOLDER_SAMPLE_NUMBER};
use flacx::Metadata;

const WAVEFORMATEXTENSIBLE_CHANNEL_MASK_KEY: &str = "WAVEFORMATEXTENSIBLE_CHANNEL_MASK";
const FLACX_CHANNEL_LAYOUT_PROVENANCE_KEY: &str = "FLACX_CHANNEL_LAYOUT_PROVENANCE";

fn vorbis_comment_payload(entries: &[(&str, &str)]) -> Vec<u8> {
    let mut payload = Vec::new();
    payload.extend_from_slice(&0u32.to_le_bytes());
    payload.extend_from_slice(&(entries.len() as u32).to_le_bytes());
    for (key, value) in entries {
        let entry = format!("{key}={value}");
        payload.extend_from_slice(&(entry.len() as u32).to_le_bytes());
        payload.extend_from_slice(entry.as_bytes());
    }
    payload
}

fn cuesheet_payload(track_specs: &[(&[(u64, u8)], u64)], lead_out_offset: u64) -> Vec<u8> {
    let mut payload = vec![0u8; 128];
    payload.extend_from_slice(&0u64.to_be_bytes());
    payload.push(0);
    payload.extend_from_slice(&[0u8; 258]);
    payload.push((track_specs.len() + 1) as u8);
    for (index, (indices, offset)) in track_specs.iter().enumerate() {
        payload.extend_from_slice(&offset.to_be_bytes());
        payload.push((index + 1) as u8);
        payload.extend_from_slice(&[0u8; 12]);
        payload.push(0);
        payload.extend_from_slice(&[0u8; 13]);
        payload.push(indices.len() as u8);
        for &(index_offset, index_number) in *indices {
            payload.extend_from_slice(&index_offset.to_be_bytes());
            payload.push(index_number);
            payload.extend_from_slice(&[0u8; 3]);
        }
    }
    payload.extend_from_slice(&lead_out_offset.to_be_bytes());
    payload.push(170);
    payload.extend_from_slice(&[0u8; 12]);
    payload.push(0);
    payload.extend_from_slice(&[0u8; 13]);
    payload.push(0);
    payload
}

fn seektable_payload(entries: &[(u64, u64, u16)]) -> Vec<u8> {
    SeekPoint::payload(
        &entries
            .iter()
            .map(|&(sample_number, frame_offset, sample_count)| SeekPoint {
                sample_number,
                frame_offset,
                sample_count,
            })
            .collect::<Vec<_>>(),
    )
}

fn application_payload(bytes: &[u8]) -> Vec<u8> {
    let mut payload = b"TEST".to_vec();
    payload.extend_from_slice(bytes);
    payload
}

#[test]
fn restores_vorbis_comments_into_supported_wav_info_entries() {
    let mut metadata = Metadata::default();
    metadata
        .ingest_flac_metadata_block(
            4,
            &vorbis_comment_payload(&[
                ("artist", "Example Artist"),
                ("TITLE", "Example Title"),
                ("UNKNOWN", "ignored"),
                ("COMMENT", ""),
            ]),
            8_000,
            1,
        )
        .unwrap();

    let payload = metadata.list_info_chunk_payload().unwrap();
    assert!(payload.starts_with(b"INFO"));
    assert!(payload.windows(4).any(|window| window == b"IART"));
    assert!(payload.windows(4).any(|window| window == b"INAM"));
    assert!(!payload.windows(4).any(|window| window == b"ICMT"));
}

#[test]
fn restores_cuesheet_tracks_preferring_index_01_offsets() {
    let mut metadata = Metadata::default();
    metadata
        .ingest_flac_metadata_block(
            5,
            &cuesheet_payload(&[(&[(10, 0), (20, 1)], 1_000), (&[], 4_000)], 8_000),
            8_000,
            1,
        )
        .unwrap();

    assert_eq!(metadata.cue_points(), vec![1_020, 4_000]);
}

#[test]
fn drops_out_of_range_or_duplicate_cuesheet_points() {
    let mut metadata = Metadata::default();
    metadata
        .ingest_flac_metadata_block(
            5,
            &cuesheet_payload(
                &[(&[(0, 1)], 7_999), (&[(0, 1)], 7_999), (&[(0, 1)], 8_000)],
                8_100,
            ),
            8_000,
            1,
        )
        .unwrap();

    assert_eq!(metadata.cue_points(), vec![7_999]);
}

#[test]
fn accepts_valid_seektable_payload() {
    validate_seektable_payload(&seektable_payload(&[(0, 0, 128), (128, 512, 128)])).unwrap();
}

#[test]
fn rejects_seektable_payloads_with_invalid_length() {
    let error = validate_seektable_payload(&[0u8; 17]).err().unwrap();

    assert!(
        error
            .message()
            .contains("seektable payload length must be a multiple of 18 bytes")
    );
}

#[test]
fn rejects_non_ascending_seektable_points() {
    let error = validate_seektable_payload(&seektable_payload(&[(128, 512, 128), (64, 0, 64)]))
        .err().unwrap();

    assert!(
        error
            .message()
            .contains("seektable sample numbers must be in ascending order")
    );
}

#[test]
fn rejects_duplicate_seektable_sample_numbers() {
    let error = validate_seektable_payload(&seektable_payload(&[(64, 0, 64), (64, 64, 64)]))
        .err().unwrap();

    assert!(
        error
            .message()
            .contains("seektable sample numbers must be unique")
    );
}

#[test]
fn rejects_seektable_placeholders_before_real_points() {
    let error = validate_seektable_payload(&seektable_payload(&[
        (SEEKTABLE_PLACEHOLDER_SAMPLE_NUMBER, 0, 0),
        (64, 64, 64),
    ]))
    .err().unwrap();

    assert!(
        error
            .message()
            .contains("seektable placeholder points must appear at the end of the table")
    );
}

#[test]
fn skips_channel_mask_comment_for_ordinary_layouts() {
    let mut metadata = Metadata::default();
    metadata.set_channel_mask_for_channels(4, 0x0033);

    assert!(metadata.flac_blocks(4_096).is_empty());
}

#[test]
fn parses_channel_mask_comment_case_insensitively_with_padded_hex() {
    let mut metadata = Metadata::default();
    metadata
        .ingest_flac_metadata_block(
            4,
            &vorbis_comment_payload(&[("waveformatextensible_channel_mask", "0X00012104")]),
            8_000,
            4,
        )
        .unwrap();

    assert_eq!(metadata.channel_mask(), Some(0x0001_2104));
}

#[test]
fn parses_zero_channel_mask_value() {
    let mut metadata = Metadata::default();
    metadata
        .ingest_flac_metadata_block(
            4,
            &vorbis_comment_payload(&[(WAVEFORMATEXTENSIBLE_CHANNEL_MASK_KEY, "0x0")]),
            8_000,
            2,
        )
        .unwrap();

    assert_eq!(metadata.channel_mask(), Some(0));
}

#[test]
fn parses_private_layout_provenance_marker() {
    let mut metadata = Metadata::default();
    metadata
        .ingest_flac_metadata_block(
            4,
            &vorbis_comment_payload(&[(FLACX_CHANNEL_LAYOUT_PROVENANCE_KEY, "1")]),
            8_000,
            4,
        )
        .unwrap();

    assert!(metadata.has_channel_layout_provenance());
}

#[test]
fn wav_metadata_with_preserved_bundle_converts_back_to_encode_metadata() {
    let mut metadata = Metadata::default();
    metadata
        .ingest_flac_metadata_block(2, &application_payload(b"opaque-app"), 8_000, 1)
        .unwrap();

    let blocks = metadata.flac_blocks(8_000);
    assert_eq!(blocks.len(), 1);
    assert_eq!(blocks[0].block_type(), 2);
    assert_eq!(blocks[0].payload(), application_payload(b"opaque-app"));
}

#[test]
fn rejects_channel_mask_comment_with_unsupported_speaker_bits() {
    let mut metadata = Metadata::default();
    let error = metadata
        .ingest_flac_metadata_block(
            4,
            &vorbis_comment_payload(&[(WAVEFORMATEXTENSIBLE_CHANNEL_MASK_KEY, "0x40000")]),
            8_000,
            4,
        )
        .err().unwrap();

    assert!(error.message().contains("unsupported speaker bits"));
}

#[test]
fn rejects_invalid_private_layout_provenance_marker() {
    let mut metadata = Metadata::default();
    let error = metadata
        .ingest_flac_metadata_block(
            4,
            &vorbis_comment_payload(&[(FLACX_CHANNEL_LAYOUT_PROVENANCE_KEY, "v2")]),
            8_000,
            4,
        )
        .err().unwrap();

    assert!(
        error
            .message()
            .contains(FLACX_CHANNEL_LAYOUT_PROVENANCE_KEY)
    );
}

fn cue_chunk(offsets: &[u32]) -> Vec<u8> {
    let mut payload = Vec::new();
    payload.extend_from_slice(&(offsets.len() as u32).to_le_bytes());
    for (index, offset) in offsets.iter().enumerate() {
        payload.extend_from_slice(&(index as u32).to_le_bytes());
        payload.extend_from_slice(&0u32.to_le_bytes());
        payload.extend_from_slice(b"data");
        payload.extend_from_slice(&0u32.to_le_bytes());
        payload.extend_from_slice(&0u32.to_le_bytes());
        payload.extend_from_slice(&offset.to_le_bytes());
    }
    payload
}

fn metadata_from_cue_chunk(payload: &[u8]) -> Metadata {
    let mut metadata = Metadata::new();
    metadata.set_cue_points(parse_riff_cue_payload(payload).unwrap());
    metadata
}

#[test]
fn normalizes_representable_cue_points_into_cuesheet_tracks() {
    let metadata = metadata_from_cue_chunk(&cue_chunk(&[4_000, 1_000, 4_000]));

    let blocks = metadata.flac_blocks(6_000);
    assert_eq!(blocks[0].block_type(), CUESHEET_BLOCK_TYPE);
    let tracks = parse_cuesheet_tracks(&blocks[0].payload()).unwrap();
    assert_eq!(tracks.len(), 3);
    assert_eq!(tracks[0].offset, 1_000);
    assert_eq!(tracks[1].offset, 4_000);
    assert!(tracks[2].is_lead_out);
}

#[test]
fn drops_cue_points_that_cannot_be_represented() {
    let metadata = metadata_from_cue_chunk(&cue_chunk(&[4_000]));

    assert!(metadata.flac_blocks(4_000).is_empty());
}

#[test]
fn emits_channel_mask_comment_for_non_ordinary_layouts() {
    let mut metadata = Metadata::new();
    metadata.add_comment("TITLE", "Example Title");
    metadata.set_channel_mask_for_channels(4, 0x0001_2104);

    let blocks = metadata.flac_blocks(4_096);
    let FlacMetadataBlock::VorbisComment(block) = &blocks[0] else {
        panic!("expected vorbis comments");
    };

    let rendered = block.entries().clone();
    assert!(rendered.contains(&String::from("TITLE=Example Title")));
    assert!(rendered.contains(&format!(
        "{WAVEFORMATEXTENSIBLE_CHANNEL_MASK_KEY}=0x00012104"
    )));
    assert!(rendered.contains(&format!("{FLACX_CHANNEL_LAYOUT_PROVENANCE_KEY}=1")));
}
