//! What is taken as input and as output, and what its numbers stand for.

use vstd::arithmetic::div_mod::{lemma_div_multiples_vanish, lemma_fundamental_div_mod, lemma_mod_multiples_basic};
use vstd::arithmetic::mul::lemma_mul_is_associative;
use vstd::arithmetic::power2::{lemma_pow2_adds, lemma_pow2_pos, lemma_pow2_unfold, pow2};
use vstd::prelude::*;

use crate::aiff::{common_chunk, common_envelope, extended_rate, sound_data, CommonChunk, COMM_CHUNK_ID};
use crate::aiff_output::{comm_payload, extended_float, leading_chunks, output_envelope, pascal, AiffContainer, AIFC_FVER_VERSION, AIFC_NONE_COMPRESSION_NAME, AIFC_NONE_COMPRESSION_TYPE, FVER_CHUNK_ID};
use crate::aiff_reader::{direct_envelope, AiffPcmDescriptor};
use crate::byte_reader::{be_at, bytes_at};
use crate::bytes::{be_bytes, be_value, law_be_bytes_read_back};
use crate::caf::{channel_layout, resolved_mask, CafChannelLayout};
use crate::caf_output::{layout_payload, shape_failure, width_failure};
use crate::caf_reader::direct_failure;
use crate::decode_output::{decode_chunk_frames, is_decoded_at_once};
use crate::draft::unterminated;
use crate::float::whole_double;
use crate::input::{input_kind, PcmInputKind};
use crate::metadata::MetadataView;
use crate::pcm::{mask_is_supported, ordinary_mask, set_bits, ByteOrder, PcmEnvelope, PcmSpec};
use crate::raw::{raw_envelope, RawPcmByteOrder, RawPcmDescriptor};
use crate::sample_source::frame_size;
use crate::stream_info::StreamInfo;
use crate::wav_output::wave_envelope;

verus! {

/// A double-precision float is read as the whole number that it stands for: its significand,
/// with a leading one in front of the 52 bits, times two to the power of its exponent, which is
/// biased by 1023. Nothing is read from negative numbers, from numbers too small or too large
/// for a normal exponent, and from fractions.
pub proof fn law_doubles_are_read_as_whole_numbers(pattern: nat, value: nat)
    ensures
        ({
            let exponent = pattern / pow2(52) % 2048;
            let significand = pow2(52) + pattern % pow2(52);
            whole_double(pattern) == Some(value) <==> {
                &&& pattern < pow2(63)
                &&& 1 <= exponent <= 2046
                &&& value * pow2(1023 + 52) == significand * pow2(exponent)
            }
        }),
{
    let exponent = pattern / pow2(52) % 2048;
    let significand = pow2(52) + pattern % pow2(52);
    lemma_pow2_pos(1075);
    lemma_pow2_pos(exponent);
    if exponent >= 1075 {
        let high = (exponent - 1075) as nat;
        lemma_pow2_adds(high, 1075);
        lemma_mul_is_associative(significand as int, pow2(high) as int, pow2(1075) as int);
        lemma_same_factor(
            value as int,
            (significand * pow2(high)) as int,
            pow2(1075) as int,
        );
    } else {
        let low = (1075 - exponent) as nat;
        lemma_pow2_pos(low);
        lemma_pow2_adds(low, exponent);
        lemma_mul_is_associative(value as int, pow2(low) as int, pow2(exponent) as int);
        lemma_same_factor(
            (value * pow2(low)) as int,
            significand as int,
            pow2(exponent) as int,
        );
        lemma_quotient(significand, value, pow2(low));
    }
}

proof fn lemma_same_factor(left: int, right: int, factor: int)
    requires
        factor > 0,
    ensures
        left * factor == right * factor <==> left == right,
{
    assert(left * factor == right * factor ==> left == right) by (nonlinear_arith)
        requires
            factor > 0,
    ;
}

proof fn lemma_quotient(whole: nat, part: nat, factor: nat)
    requires
        factor > 0,
    ensures
        whole % factor == 0 && whole / factor == part <==> part * factor == whole,
{
    if part * factor == whole {
        lemma_mod_multiples_basic(part as int, factor as int);
        lemma_div_multiples_vanish(part as int, factor as int);
    } else if whole % factor == 0 {
        lemma_fundamental_div_mod(whole as int, factor as int);
        assert(factor * part == part * factor) by (nonlinear_arith);
    }
}

/// An extended-precision float is read as the whole number that it stands for: its mantissa of
/// 64 bits times two to the power of its exponent, which is biased by 16383. Nothing is read
/// from negative numbers and from fractions.
pub proof fn law_extended_floats_are_read_as_whole_numbers(bytes: Seq<u8>, rate: u32)
    ensures
        ({
            let word = be_value(bytes.subrange(0, 2));
            let mantissa = be_value(bytes.subrange(2, 10));
            &&& word >= 0x8000 ==> extended_rate(bytes) is Err
            &&& 16_383 <= word <= 16_383 + 63 && mantissa > 0 ==> (extended_rate(bytes) == Ok::<
                u32,
                crate::error::ErrorView,
            >(rate) <==> rate * pow2((16_383 + 63 - word) as nat) == mantissa)
        }),
{
    let word = be_value(bytes.subrange(0, 2));
    let mantissa = be_value(bytes.subrange(2, 10));
    if 16_383 <= word <= 16_446 && mantissa > 0 {
        let shift = (16_446 - word) as nat;
        lemma_pow2_pos(shift);
        lemma_quotient(mantissa, rate as nat, pow2(shift));
    }
}

/// The compression of an AIFC file gives the byte order: samples are little-endian exactly if
/// the file is an AIFC file with the letters `sowt`, which stand for 16 bits only, and
/// big-endian in any AIFF file and with the letters `NONE`. No other letters are taken. The
/// numbers of the chunk are those of the stream.
pub proof fn law_aifc_letters_give_the_byte_order(
    bytes: Seq<u8>,
    start: nat,
    size: nat,
    is_aifc: bool,
)
    ensures
        common_chunk(bytes, start, size, is_aifc) matches Ok(common) ==> {
            let letters = bytes_at(bytes, start + 18, 4);
            let sowt = seq!['s' as u8, 'o' as u8, 'w' as u8, 't' as u8];
            let none = seq!['N' as u8, 'O' as u8, 'N' as u8, 'E' as u8];
            &&& common.byte_order == ByteOrder::Little <==> is_aifc && letters == sowt
            &&& common.byte_order == ByteOrder::Big <==> !is_aifc || letters == none
            &&& common.byte_order == ByteOrder::Little ==> common.valid_bits_per_sample == 16
            &&& common.channels == be_at(bytes, start, 2)
            &&& common.sample_frames == be_at(bytes, start + 2, 4)
            &&& common.valid_bits_per_sample == be_at(bytes, start + 6, 2)
            &&& extended_rate(bytes_at(bytes, start + 8, 10)) == Ok::<u32, crate::error::ErrorView>(
                common.sample_rate,
            )
        },
{
    crate::bytes::lemma_byte_ranges();
    crate::bytes::lemma_be_value_bound(bytes_at(bytes, start, 2));
    crate::bytes::lemma_be_value_bound(bytes_at(bytes, start + 2, 4));
    crate::bytes::lemma_be_value_bound(bytes_at(bytes, start + 6, 2));
    let sowt = seq!['s' as u8, 'o' as u8, 'w' as u8, 't' as u8];
    let none = seq!['N' as u8, 'O' as u8, 'N' as u8, 'E' as u8];
    assert(sowt == crate::aiff::AIFC_SOWT@);
    assert(none == crate::aiff::AIFC_NONE@);
    assert(sowt[0] != none[0]);
}

/// The samples of an AIFF file stand behind two numbers of four bytes each and as many bytes as
/// the first of them says, up to the end of their chunk.
pub proof fn law_aiff_samples_follow_their_offset(bytes: Seq<u8>, start: nat, size: nat)
    requires
        size <= u64::MAX,
    ensures
        sound_data(bytes, start, size) matches Ok((place, length)) ==> {
            &&& place == start + 8 + be_at(bytes, start, 4)
            &&& place + length == start + size
        },
{
}

/// A stream of an AIFF file is taken exactly if it has a rate, one to eight channels and four
/// to thirty-two bits. Its samples are stored in the smallest containers and its channels
/// stand in the positions of convention.
pub proof fn law_aiff_streams_are_taken(common: CommonChunk)
    ensures
        common_envelope(common) is Ok <==> common.sample_rate > 0 && 1 <= common.channels <= 8 && 4
            <= common.valid_bits_per_sample <= 32,
        common_envelope(common) matches Ok(envelope) ==> {
            &&& envelope.channels == common.channels
            &&& envelope.valid_bits_per_sample == common.valid_bits_per_sample
            &&& envelope.container_bits_per_sample - 8 < envelope.valid_bits_per_sample
                <= envelope.container_bits_per_sample
            &&& envelope.container_bits_per_sample % 8 == 0
            &&& ordinary_mask(common.channels) == Some(envelope.channel_mask)
        },
{
}

/// A channel layout of a Core Audio file says three numbers of four bytes each: its tag, its
/// bitmap and how many descriptions follow.
pub proof fn law_caf_layouts_say_three_numbers(bytes: Seq<u8>, start: nat, size: nat)
    ensures
        channel_layout(bytes, start, size) matches Ok(layout) ==> {
            &&& layout.layout_tag == be_at(bytes, start, 4)
            &&& layout.channel_bitmap == be_at(bytes, start + 4, 4)
            &&& layout.number_channel_descriptions == be_at(bytes, start + 8, 4)
        },
{
    crate::bytes::lemma_byte_ranges();
    crate::bytes::lemma_be_value_bound(bytes_at(bytes, start, 4));
    crate::bytes::lemma_be_value_bound(bytes_at(bytes, start + 4, 4));
    crate::bytes::lemma_be_value_bound(bytes_at(bytes, start + 8, 4));
}

/// Speaker positions of a Core Audio file are those of a bitmap, where the layout is one and
/// describes nothing further. One or two channels do without any other layout, and more
/// channels do not.
pub proof fn law_caf_positions_are_those_of_a_bitmap(
    channels: u8,
    layout: Option<CafChannelLayout>,
    mask: Option<u32>,
)
    ensures
        ({
            let has_bitmap = layout matches Some(found) && found.layout_tag == 0x1_0000
                && found.number_channel_descriptions == 0;
            resolved_mask(channels, layout) == Ok::<Option<u32>, crate::error::ErrorView>(mask)
                <==> if has_bitmap {
                &&& mask == Some(layout.unwrap().channel_bitmap)
                &&& mask_is_supported(channels as u16, mask.unwrap())
            } else {
                &&& mask is None
                &&& channels <= 2
            }
        }),
{
}

/// A mask is supported for as many channels as it has positions: no position for no channel,
/// and one position more for one channel more, as long as the position is one of the first 18.
pub proof fn law_masks_have_a_position_for_each_channel(channels: u16, mask: u32, place: nat)
    requires
        channels < u16::MAX,
        place < 32,
        mask as nat / pow2(place) % 2 == 0,
        mask + pow2(place) <= u32::MAX,
        mask <= 0x3_ffff,
    ensures
        mask_is_supported(0, 0),
        channels > 0 ==> !mask_is_supported(channels, 0),
        place >= 18 ==> !mask_is_supported((channels + 1) as u16, (mask + pow2(place)) as u32),
        place < 18 ==> (mask_is_supported(
            (channels + 1) as u16,
            (mask + pow2(place)) as u32,
        ) <==> mask_is_supported(channels, mask)),
{
    lemma_one_more_bit(mask as nat, place);
    vstd::arithmetic::power2::lemma2_to64();
    if place >= 18 {
        if place > 18 {
            vstd::arithmetic::power2::lemma_pow2_strictly_increases(18, place);
        }
    } else {
        lemma_room_for_bit(mask as nat, place, 18);
    }
}

proof fn lemma_one_more_bit(mask: nat, place: nat)
    requires
        mask / pow2(place) % 2 == 0,
    ensures
        set_bits(mask + pow2(place)) == set_bits(mask) + 1,
    decreases place,
{
    lemma_pow2_pos(place);
    if place == 0 {
        vstd::arithmetic::power2::lemma2_to64();
        assert((mask + 1) / 2 == mask / 2);
        reveal_with_fuel(set_bits, 2);
    } else {
        let below = (place - 1) as nat;
        lemma_pow2_unfold(place);
        lemma_pow2_pos(below);
        vstd::arithmetic::div_mod::lemma_div_denominator(mask as int, 2, pow2(below) as int);
        lemma_one_more_bit(mask / 2, below);
        assert((mask + pow2(place)) / 2 == mask / 2 + pow2(below));
        assert((mask + pow2(place)) % 2 == mask % 2);
    }
}

proof fn lemma_room_for_bit(mask: nat, place: nat, width: nat)
    requires
        place < width,
        mask < pow2(width),
        mask / pow2(place) % 2 == 0,
    ensures
        mask + pow2(place) < pow2(width),
    decreases place,
{
    lemma_pow2_unfold(width);
    lemma_pow2_pos(place);
    if place == 0 {
        vstd::arithmetic::power2::lemma2_to64();
    } else {
        let below = (place - 1) as nat;
        lemma_pow2_unfold(place);
        lemma_pow2_pos(below);
        vstd::arithmetic::div_mod::lemma_div_denominator(mask as int, 2, pow2(below) as int);
        lemma_room_for_bit(mask / 2, below, (width - 1) as nat);
    }
}

/// The samples of a stream that can be written at all can be written to every container but
/// for its channels: AIFF needs the positions of convention, Core Audio files need positions
/// from three channels on, and wave files take any. The length of an AIFF file is limited to 32
/// bits.
pub proof fn law_outputs_are_taken(spec: PcmSpec)
    ensures
        ({
            let is_stored = {
                &&& 1 <= spec.channels <= 8
                &&& 4 <= spec.bits_per_sample <= 32
                &&& spec.bytes_per_sample * 8 - 8 < spec.bits_per_sample <= spec.bytes_per_sample
                    * 8
            };
            let is_placed = mask_is_supported(spec.channels as u16, spec.channel_mask);
            &&& output_envelope(spec) is Ok <==> {
                &&& is_stored
                &&& ordinary_mask(spec.channels as u16) == Some(spec.channel_mask)
                &&& spec.total_samples < 0x1_0000_0000
            }
            &&& wave_envelope(spec) is Ok <==> {
                &&& is_stored
                &&& spec.channel_mask == 0 || is_placed
                &&& spec.total_samples < 0x100_0000_0000_0000
            }
            &&& shape_failure(spec) is None && width_failure(spec) is None <==> is_stored
            &&& is_stored ==> (layout_payload(spec) is Ok <==> is_placed || (spec.channel_mask == 0
                && spec.channels <= 2))
        }),
{
}

/// A channel layout is written where it is not the one of convention for one or two channels,
/// as a bitmap that is read again as the same positions.
pub proof fn law_caf_positions_are_written_as_a_bitmap(spec: PcmSpec)
    requires
        1 <= spec.channels <= 8,
    ensures
        layout_payload(spec) matches Ok(Some(payload)) ==> {
            &&& payload.len() == 12
            &&& be_value(payload.subrange(0, 4)) == 0x1_0000
            &&& be_value(payload.subrange(4, 8)) == spec.channel_mask
            &&& be_value(payload.subrange(8, 12)) == 0
            &&& resolved_mask(
                spec.channels,
                Some(
                    CafChannelLayout {
                        layout_tag: 0x1_0000,
                        channel_bitmap: spec.channel_mask,
                        number_channel_descriptions: 0,
                    },
                ),
            ) == Ok::<Option<u32>, crate::error::ErrorView>(Some(spec.channel_mask))
        },
        layout_payload(spec) matches Ok(None) ==> spec.channels <= 2 && (spec.channel_mask == 0
            || ordinary_mask(spec.channels as u16) == Some(spec.channel_mask)),
{
    if let Ok(Some(payload)) = layout_payload(spec) {
        reveal_with_fuel(crate::bytes::byte_range, 5);
        law_be_bytes_read_back(0x1_0000, 4);
        law_be_bytes_read_back(spec.channel_mask as nat, 4);
        law_be_bytes_read_back(0, 4);
        assert(payload.subrange(0, 4) == be_bytes(0x1_0000, 4));
        assert(payload.subrange(4, 8) == be_bytes(spec.channel_mask as nat, 4));
        assert(payload.subrange(8, 12) == be_bytes(0, 4));
    }
}

/// The letters and words by which an AIFC file says that nothing is compressed: a type, and a
/// name behind its length, padded.
pub open spec fn uncompressed() -> Seq<u8> {
    seq![
        'N' as u8,
        'O' as u8,
        'N' as u8,
        'E' as u8,
        14u8,
        'n' as u8,
        'o' as u8,
        't' as u8,
        ' ' as u8,
        'c' as u8,
        'o' as u8,
        'm' as u8,
        'p' as u8,
        'r' as u8,
        'e' as u8,
        's' as u8,
        's' as u8,
        'e' as u8,
        'd' as u8,
        0u8,
    ]
}

proof fn lemma_uncompressed()
    ensures
        AIFC_NONE_COMPRESSION_TYPE@ + pascal(AIFC_NONE_COMPRESSION_NAME@) == uncompressed(),
{
}

proof fn lemma_aifc_description(spec: PcmSpec, envelope: PcmEnvelope)
    ensures
        comm_payload(spec, envelope, AiffContainer::AifcNone) == comm_payload(
            spec,
            envelope,
            AiffContainer::Aiff,
        ) + uncompressed(),
{
    lemma_uncompressed();
    let numbers = be_bytes(spec.channels as nat, 2) + be_bytes(spec.total_samples as nat, 4)
        + be_bytes(envelope.valid_bits_per_sample as nat, 2) + extended_float(spec.sample_rate);
    assert(numbers + Seq::<u8>::empty() == numbers);
}

/// An AIFC file opens with its version, and says in letters and words that nothing is
/// compressed; an AIFF file does neither.
pub proof fn law_aifc_files_say_version_and_compression(
    spec: PcmSpec,
    envelope: PcmEnvelope,
    metadata: MetadataView,
)
    ensures
        ({
            let chunks = leading_chunks(spec, envelope, metadata, AiffContainer::AifcNone);
            let plain = comm_payload(spec, envelope, AiffContainer::Aiff);
            &&& chunks[0].id == seq!['F' as u8, 'V' as u8, 'E' as u8, 'R' as u8]
            &&& be_value(chunks[0].payload) == 0xa280_5140
            &&& chunks[0].payload.len() == 4
            &&& chunks[1].id == seq!['C' as u8, 'O' as u8, 'M' as u8, 'M' as u8]
            &&& chunks[1].payload == plain + uncompressed()
            &&& leading_chunks(spec, envelope, metadata, AiffContainer::Aiff)[0].payload == plain
        }),
{
    reveal_with_fuel(crate::bytes::byte_range, 5);
    law_be_bytes_read_back(AIFC_FVER_VERSION as nat, 4);
    lemma_aifc_description(spec, envelope);
    reveal(leading_chunks);
    assert(FVER_CHUNK_ID@ == seq!['F' as u8, 'V' as u8, 'E' as u8, 'R' as u8]);
    assert(COMM_CHUNK_ID@ == seq!['C' as u8, 'O' as u8, 'M' as u8, 'M' as u8]);
}

/// A stream of at most eight million samples, to the power of two above, is decoded at once; a
/// longer one a thousand of its blocks at a time, to the power of two above.
pub proof fn law_long_streams_are_decoded_in_chunks(info: StreamInfo, total_samples: u64)
    ensures
        is_decoded_at_once(total_samples) <==> total_samples <= 8 * 1024 * 1024,
        info.max_block_size > 0 ==> decode_chunk_frames(info) == info.max_block_size * 1024,
        info.max_block_size == 0 ==> decode_chunk_frames(info) == 1024,
{
}

/// The text of a chunk is what is in front of the zeros at its end: zeros inside stay.
pub proof fn law_texts_end_before_their_zeros(bytes: Seq<u8>)
    ensures
        ({
            let text = unterminated(bytes);
            &&& text.len() <= bytes.len()
            &&& text == bytes.take(text.len() as int)
            &&& text.len() > 0 ==> text.last() != 0
            &&& forall|i: int| text.len() <= i < bytes.len() ==> #[trigger] bytes[i] == 0
        }),
    decreases bytes.len(),
{
    if bytes.len() > 0 && bytes.last() == 0 {
        law_texts_end_before_their_zeros(bytes.drop_last());
        let text = unterminated(bytes);
        assert(bytes.drop_last().take(text.len() as int) == bytes.take(text.len() as int));
        assert forall|i: int| text.len() <= i < bytes.len() implies #[trigger] bytes[i] == 0 by {
            if i < bytes.len() - 1 {
                assert(bytes.drop_last()[i] == bytes[i]);
            }
        }
    } else {
        assert(bytes.take(bytes.len() as int) == bytes);
    }
}

/// The first four letters tell the family of a file: `FORM` opens AIFF files and `caff` Core
/// Audio files; anything else is taken as a wave file.
pub proof fn law_inputs_are_told_by_their_letters(bytes: Seq<u8>)
    requires
        bytes.len() >= 4,
    ensures
        input_kind(bytes, 0) == PcmInputKind::AiffLike <==> bytes.take(4) == seq![
            'F' as u8,
            'O' as u8,
            'R' as u8,
            'M' as u8,
        ],
        input_kind(bytes, 0) == PcmInputKind::Caf <==> bytes.take(4) == seq![
            'c' as u8,
            'a' as u8,
            'f' as u8,
            'f' as u8,
        ],
{
    assert(bytes.take(4) == bytes_at(bytes, 0, 4));
    let form = seq!['F' as u8, 'O' as u8, 'R' as u8, 'M' as u8];
    let caff = seq!['c' as u8, 'a' as u8, 'f' as u8, 'f' as u8];
    assert(form == crate::aiff::FORM_ID@);
    assert(caff == crate::caf::CAF_MAGIC@);
    assert(form[0] != caff[0]);
}

/// Samples that are described from outside are taken as those of a file of the container:
/// little-endian AIFC samples have 16 bits, and Core Audio samples have no empty bitmap.
pub proof fn law_described_inputs_are_taken(aiff: AiffPcmDescriptor, caf: RawPcmDescriptor)
    ensures
        direct_envelope(aiff) is Ok <==> {
            &&& aiff.sample_rate > 0
            &&& 1 <= aiff.channels <= 8
            &&& 4 <= aiff.valid_bits_per_sample <= 32
            &&& aiff.byte_order == RawPcmByteOrder::LittleEndian ==> aiff.valid_bits_per_sample
                == 16
        },
        direct_failure(caf) is None <==> raw_envelope(caf) is Ok && caf.channel_mask != Some(0u32),
{
    if let Ok(envelope) = raw_envelope(caf) {
        assert(0nat % frame_size(envelope) == 0) by {
            let size = frame_size(envelope) as int;
            assert(size > 0) by (nonlinear_arith)
                requires
                    size == envelope.channels * (envelope.container_bits_per_sample / 8),
                    envelope.channels >= 1,
                    envelope.container_bits_per_sample >= 8,
            ;
            vstd::arithmetic::div_mod::lemma_small_mod(0, size as nat);
        }
    }
}

} // verus!
