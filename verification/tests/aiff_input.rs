//! Reading AIFF and AIFF-C files.

use flacx::aiff::{AIFC_FORM_TYPE, AIFC_NONE, AIFC_SOWT, AIFF_FORM_TYPE};
use flacx::aiff_reader::inspect_aiff_total_samples;
use flacx::{AiffPcmDescriptor, AiffPcmStream, AiffReader, ByteReader, EncodePcmStream, RawPcmByteOrder};

fn encode_extended_u32(value: u32) -> [u8; 10] {
    assert!(value > 0);
    let exponent = 31 - value.leading_zeros();
    let biased_exponent = (16_383 + exponent as u16).to_be_bytes();
    let mantissa = (u64::from(value)) << (63 - exponent);
    let mut bytes = [0u8; 10];
    bytes[..2].copy_from_slice(&biased_exponent);
    bytes[2..].copy_from_slice(&mantissa.to_be_bytes());
    bytes
}

fn container_bits(valid_bits: u16) -> u16 {
    match valid_bits {
        0..=8 => 8,
        9..=16 => 16,
        17..=24 => 24,
        _ => 32,
    }
}

fn write_samples(bytes: &mut Vec<u8>, valid_bits: u16, samples: &[i32], little_endian: bool) {
    let container_bits = container_bits(valid_bits);
    let shift = u32::from(container_bits - valid_bits);
    for &sample in samples {
        let shifted = if shift == 0 { sample } else { sample << shift };
        match container_bits {
            8 => bytes.push(i8::try_from(shifted).unwrap() as u8),
            16 => {
                let value = i16::try_from(shifted).unwrap();
                if little_endian {
                    bytes.extend_from_slice(&value.to_le_bytes());
                } else {
                    bytes.extend_from_slice(&value.to_be_bytes());
                }
            }
            24 => {
                let value = shifted as u32;
                let chunk = if little_endian {
                    [
                        (value & 0xff) as u8,
                        ((value >> 8) & 0xff) as u8,
                        ((value >> 16) & 0xff) as u8,
                    ]
                } else {
                    [
                        ((value >> 16) & 0xff) as u8,
                        ((value >> 8) & 0xff) as u8,
                        (value & 0xff) as u8,
                    ]
                };
                bytes.extend_from_slice(&chunk);
            }
            32 => {
                if little_endian {
                    bytes.extend_from_slice(&shifted.to_le_bytes());
                } else {
                    bytes.extend_from_slice(&shifted.to_be_bytes());
                }
            }
            _ => unreachable!(),
        }
    }
}

fn append_chunk(bytes: &mut Vec<u8>, chunk_id: [u8; 4], payload: &[u8]) {
    bytes.extend_from_slice(&chunk_id);
    bytes.extend_from_slice(&(payload.len() as u32).to_be_bytes());
    bytes.extend_from_slice(payload);
    if !payload.len().is_multiple_of(2) {
        bytes.push(0);
    }
}

fn aiff_like_bytes(
    form_type: [u8; 4],
    compression_id: Option<[u8; 4]>,
    valid_bits: u16,
    channels: u16,
    sample_rate: u32,
    samples: &[i32],
) -> Vec<u8> {
    let sample_frames = (samples.len() / usize::from(channels)) as u32;
    let little_endian = compression_id == Some(AIFC_SOWT);
    let mut comm = Vec::new();
    comm.extend_from_slice(&channels.to_be_bytes());
    comm.extend_from_slice(&sample_frames.to_be_bytes());
    comm.extend_from_slice(&valid_bits.to_be_bytes());
    comm.extend_from_slice(&encode_extended_u32(sample_rate));
    if let Some(compression_id) = compression_id {
        comm.extend_from_slice(&compression_id);
        comm.push(0);
    }

    let mut ssnd = Vec::new();
    ssnd.extend_from_slice(&0u32.to_be_bytes());
    ssnd.extend_from_slice(&0u32.to_be_bytes());
    write_samples(&mut ssnd, valid_bits, samples, little_endian);

    let mut bytes = Vec::new();
    bytes.extend_from_slice(b"FORM");
    bytes.extend_from_slice(&0u32.to_be_bytes());
    bytes.extend_from_slice(&form_type);
    append_chunk(&mut bytes, *b"COMM", &comm);
    append_chunk(&mut bytes, *b"SSND", &ssnd);
    let form_size = (bytes.len() - 8) as u32;
    bytes[4..8].copy_from_slice(&form_size.to_be_bytes());
    bytes
}

#[test]
fn inspects_and_reads_aiff_integer_pcm() {
    let bytes = aiff_like_bytes(AIFF_FORM_TYPE, None, 24, 3, 48_000, &[1, -2, 3, -4, 5, -6]);
    assert_eq!(
        inspect_aiff_total_samples(&mut ByteReader::new(bytes.clone())).unwrap(),
        2
    );
    let reader = AiffReader::new(ByteReader::new(bytes)).unwrap();
    let spec = reader.spec();
    let mut stream = reader.into_pcm_stream();
    let mut samples = Vec::new();
    stream.read_chunk(2, &mut samples).unwrap();
    assert_eq!(spec.sample_rate, 48_000);
    assert_eq!(spec.channels, 3);
    assert_eq!(spec.bits_per_sample, 24);
    assert_eq!(samples, vec![1, -2, 3, -4, 5, -6]);
}

#[test]
fn accepts_aifc_none_and_sowt() {
    let none = aiff_like_bytes(
        AIFC_FORM_TYPE,
        Some(AIFC_NONE),
        20,
        2,
        44_100,
        &[1, -2, 3, -4],
    );
    let parsed_none = AiffReader::new(ByteReader::new(none)).unwrap();
    assert_eq!(parsed_none.spec().bits_per_sample, 20);

    let sowt = aiff_like_bytes(
        AIFC_FORM_TYPE,
        Some(AIFC_SOWT),
        16,
        2,
        44_100,
        &[10, -11, 12, -13],
    );
    let parsed_sowt = AiffReader::new(ByteReader::new(sowt)).unwrap();
    let mut stream = parsed_sowt.into_pcm_stream();
    let mut samples = Vec::new();
    stream.read_chunk(2, &mut samples).unwrap();
    assert_eq!(samples, vec![10, -11, 12, -13]);
}

#[test]
fn rejects_unsupported_aifc_compression_variants() {
    for compression in [*b"ACE2", *b"ACE8", *b"MAC3", *b"MAC6", *b"fl32", *b"????"] {
        let bytes = aiff_like_bytes(AIFC_FORM_TYPE, Some(compression), 16, 1, 44_100, &[1, -1]);
        let error = AiffReader::new(ByteReader::new(bytes)).err().unwrap();
        assert!(error.message().contains("AIFC"));
    }
}

#[test]
fn rejects_sowt_outside_16bit_pcm() {
    let bytes = aiff_like_bytes(AIFC_FORM_TYPE, Some(AIFC_SOWT), 24, 1, 44_100, &[1, -1]);
    let error = AiffReader::new(ByteReader::new(bytes)).err().unwrap();
    assert!(error.message().contains("16-bit"));
}

#[test]
fn rejects_malformed_ssnd_size_mismatch() {
    let mut bytes = aiff_like_bytes(AIFF_FORM_TYPE, None, 16, 2, 44_100, &[1, -2, 3, -4]);
    let ssnd_header = bytes
        .windows(4)
        .position(|window| window == b"SSND")
        .expect("SSND chunk present");
    let payload_size_offset = ssnd_header + 4;
    bytes[payload_size_offset..payload_size_offset + 4].copy_from_slice(&8u32.to_be_bytes());
    let error = AiffReader::new(ByteReader::new(bytes)).err().unwrap();
    assert!(error.message().contains("sample frame count"));
}

#[test]
fn rejects_denormal_sample_rates_without_panicking() {
    let mut bytes = aiff_like_bytes(AIFF_FORM_TYPE, None, 16, 1, 44_100, &[1, -1, 2, -2]);
    bytes[28..38].copy_from_slice(&[0x00, 0x01, 0x80, 0, 0, 0, 0, 0, 0, 0]);
    let error = AiffReader::new(ByteReader::new(bytes)).err().unwrap();
    assert!(
        error.message().contains("sample rate") || error.message().contains("fractional")
    );
}

#[test]
fn directly_constructs_big_endian_aiff_stream() {
    let descriptor = AiffPcmDescriptor {
        sample_rate: 48_000,
        channels: 3,
        valid_bits_per_sample: 24,
        total_samples: 2,
        byte_order: RawPcmByteOrder::BigEndian,
    };
    let mut data = Vec::new();
    write_samples(&mut data, 24, &[1, -2, 3, -4, 5, -6], false);

    let mut stream = AiffPcmStream::new(ByteReader::new(data), descriptor).unwrap();
    let mut samples = Vec::new();
    stream.read_chunk(2, &mut samples).unwrap();

    assert_eq!(stream.spec().channel_mask, 0x0007);
    assert_eq!(samples, vec![1, -2, 3, -4, 5, -6]);
}

#[test]
fn directly_constructs_little_endian_sowt_stream() {
    let descriptor = AiffPcmDescriptor {
        sample_rate: 44_100,
        channels: 2,
        valid_bits_per_sample: 16,
        total_samples: 2,
        byte_order: RawPcmByteOrder::LittleEndian,
    };
    let mut data = Vec::new();
    write_samples(&mut data, 16, &[10, -11, 12, -13], true);

    let mut stream = AiffPcmStream::new(ByteReader::new(data), descriptor).unwrap();
    let mut samples = Vec::new();
    stream.read_chunk(2, &mut samples).unwrap();

    assert_eq!(samples, vec![10, -11, 12, -13]);
}

#[test]
fn rejects_direct_little_endian_non_16bit_aiff() {
    let descriptor = AiffPcmDescriptor {
        sample_rate: 44_100,
        channels: 1,
        valid_bits_per_sample: 24,
        total_samples: 2,
        byte_order: RawPcmByteOrder::LittleEndian,
    };
    let error = AiffPcmStream::new(ByteReader::new(vec![0; 6]), descriptor).err().unwrap();
    assert!(error.message().contains("16-bit"));
}

#[test]
fn unreadable_compression_names_are_shown_with_replacements() {
    let bytes = aiff_like_bytes(
        AIFC_FORM_TYPE,
        Some([b'A', 0xff, b'B', b'C']),
        16,
        1,
        44_100,
        &[1, -1],
    );
    let error = AiffReader::new(ByteReader::new(bytes)).err().unwrap();
    assert!(error.message().contains("'A\u{fffd}BC'"));
}
