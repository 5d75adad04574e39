//! MD5 digests of bytes and of samples.

use flacx::md5::{digest_bytes, streaminfo_md5, EMPTY_STREAM_MD5};
use flacx::pcm::ordinary_channel_mask;
use flacx::PcmSpec;

#[test]
fn digest_matches_empty_vector() {
    assert_eq!(digest_bytes(b""), EMPTY_STREAM_MD5);
}

#[test]
fn digest_matches_abc_vector() {
    assert_eq!(
        digest_bytes(b"abc"),
        [
            0x90, 0x01, 0x50, 0x98, 0x3c, 0xd2, 0x4f, 0xb0, 0xd6, 0x96, 0x3f, 0x7d, 0x28, 0xe1,
            0x7f, 0x72,
        ]
    );
}

#[test]
fn streaminfo_md5_matches_simple_16bit_pcm_fixture() {
    let spec = PcmSpec {
        sample_rate: 44_100,
        channels: 1,
        bits_per_sample: 16,
        total_samples: 4,
        bytes_per_sample: 2,
        channel_mask: ordinary_channel_mask(1).unwrap(),
    };
    let samples = [1, -2, 3, -4];

    assert_eq!(
        streaminfo_md5(spec, &samples).unwrap(),
        [
            0x4e, 0xee, 0x3c, 0x56, 0x22, 0x45, 0x41, 0xfe, 0x00, 0x81, 0x1d, 0x91, 0xd5, 0x24,
            0x24, 0x56,
        ]
    );
}
