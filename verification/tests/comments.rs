//! Editing metadata, and its blocks and chunks.

use flacx::aiff_output::aiff_metadata_chunks;
use flacx::caf_output::caf_info_key_for_riff_chunk_id;
use flacx::cuesheet::{build_cuesheet, cue_points_from_cuesheet_payload, normalize_points};
use flacx::metadata::{
    format_channel_mask, parse_channel_mask_comment, wav_info_chunk_id_for_vorbis_key,
};
use flacx::riff_chunks::{
    parse_riff_cue_payload, parse_riff_info_payload, parse_wav_cue_chunk_payload,
    parse_wav_info_chunk_payload,
};
use flacx::vorbis::{split_vorbis_comment_entry, VorbisCommentBlock};
use flacx::Metadata;

#[test]
fn comments_are_added_replaced_and_removed() {
    let mut metadata = Metadata::new();
    assert!(metadata.is_empty());
    metadata.add_comment("Artist", "One");
    metadata.add_comment("TITLE", "Song");
    metadata.add_comment("ARTIST", "Two");
    assert_eq!(
        metadata.comments(),
        vec![("Artist", "One"), ("TITLE", "Song"), ("ARTIST", "Two")]
    );
    metadata.set_comments("artist", &["Three"]);
    assert_eq!(metadata.comments(), vec![("TITLE", "Song"), ("artist", "Three")]);
    assert_eq!(metadata.remove_comments("ARTIST"), 1);
    assert_eq!(metadata.remove_comments("ARTIST"), 0);
    assert_eq!(metadata.comments(), vec![("TITLE", "Song")]);
    assert_eq!(metadata.remove_comments("title"), 1);
    assert!(metadata.is_empty());
}

#[test]
fn layout_comments_are_not_shown() {
    let mut metadata = Metadata::new();
    metadata.set_channel_mask(0x33);
    assert!(metadata.has_channel_layout_provenance());
    assert_eq!(metadata.channel_mask(), Some(0x33));
    let blocks = metadata.flac_blocks(10);
    let mut restored = Metadata::new();
    restored
        .ingest_flac_metadata_block(blocks[0].block_type(), &blocks[0].payload(), 10, 4)
        .unwrap();
    assert!(restored.comments().is_empty());
    assert_eq!(restored.channel_mask(), Some(0x33));
    metadata.clear_channel_mask();
    metadata.set_channel_layout_provenance(false);
    assert!(metadata.flac_blocks(10).is_empty());
}

#[test]
fn an_edit_drops_the_preserved_blocks() {
    let mut metadata = Metadata::new();
    metadata
        .ingest_flac_metadata_block(2, b"TESTbytes", 10, 1)
        .unwrap();
    assert!(metadata.has_preserved_bundle());
    metadata.clear_cue_points();
    assert!(!metadata.has_preserved_bundle());
    assert!(metadata.flac_blocks(10).is_empty());
}

#[test]
fn comment_blocks_read_back() {
    let block = VorbisCommentBlock::new(
        String::from("maker"),
        vec![String::from("TITLE=Song"), String::from("no sign")],
    );
    let read = VorbisCommentBlock::from_flac_payload(&block.payload()).unwrap();
    assert_eq!(read.vendor, "maker");
    assert_eq!(read.entries(), block.entries());
    assert_eq!(split_vorbis_comment_entry("A=b=c"), Some(("A", "b=c")));
    assert_eq!(split_vorbis_comment_entry("plain"), None);
    assert!(VorbisCommentBlock::from_flac_payload(&[1, 0, 0, 0, 0xff, 0, 0, 0, 0]).is_none());
    assert!(VorbisCommentBlock::from_flac_payload(&[9, 0, 0, 0]).is_none());
}

#[test]
fn cue_points_are_sorted_and_kept_once() {
    assert_eq!(normalize_points(&[9, 3, 9, 12, 0], 12), vec![0, 3, 9]);
    assert!(build_cuesheet(&[12], 12).is_none());
    let sheet = build_cuesheet(&[9, 3, 9], 12).unwrap();
    assert_eq!(sheet.len(), 396 + 2 * 48 + 36);
    assert_eq!(cue_points_from_cuesheet_payload(&sheet, 12), vec![3, 9]);
    assert!(cue_points_from_cuesheet_payload(&sheet[..300], 12).is_empty());
}

#[test]
fn info_lists_and_cue_chunks_read_back() {
    let mut metadata = Metadata::new();
    metadata.add_comment("TITLE", "Odd");
    metadata.add_comment("ARTIST", "Even");
    metadata.add_comment("OTHER", "none");
    metadata.set_cue_points(vec![7, 5]);
    let list = metadata.list_info_chunk_payload().unwrap();
    let entries = parse_wav_info_chunk_payload(&list).unwrap();
    assert_eq!(entries.len(), 2);
    assert_eq!((&entries[0].id, entries[0].payload.as_slice()), (b"INAM", b"Odd".as_slice()));
    assert_eq!((&entries[1].id, entries[1].payload.as_slice()), (b"IART", b"Even".as_slice()));
    let cues = metadata.cue_chunk_payload().unwrap();
    assert_eq!(parse_wav_cue_chunk_payload(&cues), Some(vec![7, 5]));
    assert_eq!(parse_riff_cue_payload(&cues).unwrap(), vec![7, 5]);
    assert!(parse_riff_cue_payload(&cues[..10]).is_err());
    assert_eq!(parse_wav_cue_chunk_payload(&cues[..10]), None);
}

fn info_list(id: &[u8; 4], value: &[u8]) -> Vec<u8> {
    let mut list = b"INFO".to_vec();
    list.extend_from_slice(id);
    list.extend_from_slice(&(value.len() as u32).to_le_bytes());
    list.extend_from_slice(value);
    list
}

#[test]
fn broken_text_is_refused() {
    assert!(parse_riff_info_payload(&info_list(b"INAM", &[0xff, b'a'])).is_err());
    let texts = parse_riff_info_payload(&info_list(b"INAM", "\u{e9}".as_bytes())).unwrap();
    assert_eq!(texts.len(), 1);
    assert_eq!(texts[0].value, "\u{e9}");
}

#[test]
fn keys_map_to_chunks() {
    assert_eq!(wav_info_chunk_id_for_vorbis_key("title"), Some(*b"INAM"));
    assert_eq!(wav_info_chunk_id_for_vorbis_key("TrackNumber"), Some(*b"ITRK"));
    assert_eq!(wav_info_chunk_id_for_vorbis_key("unknown"), None);
    assert_eq!(
        caf_info_key_for_riff_chunk_id(*b"INAM", "x"),
        Some(String::from("title"))
    );
    let mut metadata = Metadata::new();
    metadata.add_comment("TITLE", "first");
    metadata.add_comment("TITLE", "second");
    let chunks = aiff_metadata_chunks(&metadata);
    let names: Vec<&[u8]> = chunks
        .iter()
        .filter(|chunk| &chunk.id == b"NAME")
        .map(|chunk| chunk.payload.as_slice())
        .collect();
    assert_eq!(names, vec![b"first".as_slice()]);
}

#[test]
fn masks_are_written_with_eight_digits() {
    assert_eq!(format_channel_mask(0x12104), "0x00012104");
    assert_eq!(parse_channel_mask_comment("0x00012104", 4).unwrap(), 0x12104);
    assert!(parse_channel_mask_comment("12104", 4).is_err());
    assert!(parse_channel_mask_comment("0x00012104", 2).is_err());
    assert!(parse_channel_mask_comment("0xzz", 4).is_err());
    assert!(parse_channel_mask_comment("0x40000", 1).is_err());
}
