//! Reading CAF files.

use flacx::caf::{
    CAF_LAYOUT_TAG_USE_CHANNEL_BITMAP, CAF_MAGIC, CHAN_CHUNK_ID, DATA_CHUNK_ID, DESC_CHUNK_ID,
    LPCM_FORMAT_ID,
};
use flacx::caf_reader::inspect_caf_total_samples;
use flacx::{ByteReader, CafPcmStream, CafReader, EncodePcmStream, RawPcmByteOrder, RawPcmDescriptor};

fn append_chunk(bytes: &mut Vec<u8>, chunk_id: [u8; 4], payload: &[u8]) {
    bytes.extend_from_slice(&chunk_id);
    bytes.extend_from_slice(&(payload.len() as i64).to_be_bytes());
    bytes.extend_from_slice(payload);
}

fn caf_lpcm_bytes(
    sample_rate: u32,
    channels: u32,
    valid_bits_per_sample: u32,
    container_bits_per_sample: u32,
    little_endian: bool,
    samples: &[i32],
) -> Vec<u8> {
    let bytes_per_sample = container_bits_per_sample / 8;
    let bytes_per_packet = channels * bytes_per_sample;
    let mut desc = Vec::new();
    desc.extend_from_slice(&(sample_rate as f64).to_bits().to_be_bytes());
    desc.extend_from_slice(&LPCM_FORMAT_ID);
    desc.extend_from_slice(&(u32::from(little_endian) << 1).to_be_bytes());
    desc.extend_from_slice(&bytes_per_packet.to_be_bytes());
    desc.extend_from_slice(&1u32.to_be_bytes());
    desc.extend_from_slice(&channels.to_be_bytes());
    desc.extend_from_slice(&valid_bits_per_sample.to_be_bytes());

    let mut data = Vec::new();
    data.extend_from_slice(&0u32.to_be_bytes());
    for &sample in samples {
        let shifted = if valid_bits_per_sample == container_bits_per_sample {
            sample
        } else {
            sample << (container_bits_per_sample - valid_bits_per_sample)
        };
        match container_bits_per_sample {
            16 => {
                let value = shifted as i16;
                if little_endian {
                    data.extend_from_slice(&value.to_le_bytes());
                } else {
                    data.extend_from_slice(&value.to_be_bytes());
                }
            }
            24 => {
                let value = shifted as u32;
                let chunk = if little_endian {
                    [
                        (value & 0xff) as u8,
                        ((value >> 8) & 0xff) as u8,
                        ((value >> 16) & 0xff) as u8,
                    ]
                } else {
                    [
                        ((value >> 16) & 0xff) as u8,
                        ((value >> 8) & 0xff) as u8,
                        (value & 0xff) as u8,
                    ]
                };
                data.extend_from_slice(&chunk);
            }
            32 => {
                if little_endian {
                    data.extend_from_slice(&shifted.to_le_bytes());
                } else {
                    data.extend_from_slice(&shifted.to_be_bytes());
                }
            }
            _ => unreachable!(),
        }
    }

    let mut bytes = Vec::new();
    bytes.extend_from_slice(&CAF_MAGIC);
    bytes.extend_from_slice(&1u16.to_be_bytes());
    bytes.extend_from_slice(&0u16.to_be_bytes());
    append_chunk(&mut bytes, DESC_CHUNK_ID, &desc);
    append_chunk(&mut bytes, DATA_CHUNK_ID, &data);
    bytes
}

#[test]
fn inspects_and_reads_stereo_caf_lpcm() {
    let bytes = caf_lpcm_bytes(44_100, 2, 16, 16, false, &[1, -2, 3, -4]);
    assert_eq!(
        inspect_caf_total_samples(&mut ByteReader::new(bytes.clone())).unwrap(),
        2
    );
    let reader = CafReader::new(ByteReader::new(bytes)).unwrap();
    let mut stream = reader.into_pcm_stream();
    let mut samples = Vec::new();
    stream.read_chunk(2, &mut samples).unwrap();
    assert_eq!(samples, vec![1, -2, 3, -4]);
}

#[test]
fn rejects_packet_tables_in_stage_three() {
    let mut bytes = caf_lpcm_bytes(44_100, 2, 16, 16, true, &[1, -2, 3, -4]);
    append_chunk(&mut bytes, *b"pakt", &[0; 24]);
    let error = CafReader::new(ByteReader::new(bytes)).err().unwrap();
    assert!(error.message().contains("packet table"));
}

#[test]
fn rejects_multichannel_without_supported_layout_mapping() {
    let bytes = caf_lpcm_bytes(48_000, 4, 16, 16, true, &[0; 16]);
    let error = CafReader::new(ByteReader::new(bytes)).err().unwrap();
    assert!(error.message().contains("channel layout"));
}

#[test]
fn accepts_multichannel_bitmap_layouts_with_supported_masks() {
    let mut bytes = caf_lpcm_bytes(48_000, 4, 16, 16, true, &[0; 16]);
    let mut chan = Vec::new();
    chan.extend_from_slice(&CAF_LAYOUT_TAG_USE_CHANNEL_BITMAP.to_be_bytes());
    chan.extend_from_slice(&0x0033u32.to_be_bytes());
    chan.extend_from_slice(&0u32.to_be_bytes());
    append_chunk(&mut bytes, CHAN_CHUNK_ID, &chan);
    let parsed = CafReader::new(ByteReader::new(bytes)).unwrap();
    assert_eq!(parsed.spec().channel_mask, 0x0033);
}

#[test]
fn directly_constructs_caf_stream_from_descriptor() {
    let descriptor = RawPcmDescriptor {
        sample_rate: 48_000,
        channels: 4,
        valid_bits_per_sample: 16,
        container_bits_per_sample: 16,
        byte_order: RawPcmByteOrder::LittleEndian,
        channel_mask: Some(0x0033),
    };
    let data = [1i16, -2, 3, -4, 5, -6, 7, -8]
        .into_iter()
        .flat_map(i16::to_le_bytes)
        .collect::<Vec<_>>();

    let mut stream = CafPcmStream::new(ByteReader::new(data), descriptor, 2).unwrap();
    let mut samples = Vec::new();
    stream.read_chunk(2, &mut samples).unwrap();

    assert_eq!(stream.spec().channel_mask, 0x0033);
    assert_eq!(samples, vec![1, -2, 3, -4, 5, -6, 7, -8]);
}

#[test]
fn rejects_zero_bitmap_in_direct_caf_descriptor() {
    let descriptor = RawPcmDescriptor {
        sample_rate: 44_100,
        channels: 2,
        valid_bits_per_sample: 16,
        container_bits_per_sample: 16,
        byte_order: RawPcmByteOrder::BigEndian,
        channel_mask: Some(0),
    };
    let error = CafPcmStream::new(ByteReader::new(vec![0; 4]), descriptor, 1).err().unwrap();
    assert!(error.message().contains("channel bitmap"));
}
