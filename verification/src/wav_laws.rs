//! RIFF/WAVE files come back from their streams.

use vstd::arithmetic::div_mod::{lemma_div_by_multiple, lemma_mod_multiples_basic};
use vstd::arithmetic::mul::lemma_mul_is_associative;
use vstd::prelude::*;

use crate::aiff_round_trip::lemma_fitting_samples_are_stored;
use crate::config::{DecodeSettings, EncoderSettings};
use crate::convenience::{input_is_fit, is_encoding_of, reader_options};
use crate::encode_frames::all_predictors_are_valid;
use crate::encoder::EncodeSummary;
use crate::error::{ErrorView, Result};
use crate::flac_bytes::{decode_options, decoded_bytes};
use crate::flac_laws::{law_decoded_files_hold_the_input, metadata_is_carried, restored_spec};
use crate::input::{input_contents, input_kind, InputContents, PcmInputKind};
use crate::input_laws::lemma_encoded_session;
use crate::md5::digest_envelope;
use crate::metadata::{emitted, flac_block_views, layout_of_entries, BlockView, LayoutView, MetadataView};
use crate::metadata_laws::{carried_metadata, law_wav_metadata_are_carried};
use crate::pcm::{mask_is_supported, ByteOrder, PcmSpec};
use crate::pcm_output::{output_family, OutputFamily};
use crate::recompress_laws::taken;
use crate::rice::all_fit;
use crate::sample_source::frame_size;
use crate::subframe::LpcPredictors;
use crate::vorbis::vorbis_block;
use crate::wav::WaveKind;
use crate::wav_output::{payloads_fit, wav_file, wave_body, wave_chunks, wave_envelope, wave_head, wave_size};
use crate::wav_reader::WavReaderOptions;
use crate::wav_round_trip::lemma_ordinary_masks;

verus! {

/// The sizes that a file has to tell are not too large for it.
pub open spec fn wav_has_room(kind: WaveKind, spec: PcmSpec, metadata: MetadataView) -> bool {
    let envelope = wave_envelope(spec)->Ok_0;
    let chunks = wave_body(spec.sample_rate, envelope, metadata);
    let data = (spec.total_samples * frame_size(envelope)) as nat;
    &&& payloads_fit(chunks)
    &&& kind == WaveKind::Riff ==> wave_size(kind, wave_chunks(kind, chunks).len(), data) - 8
        <= u32::MAX
}

/// Samples of a supported format that fit their width are written, where the file has room
/// for them.
pub proof fn law_wav_files_are_owed(
    kind: WaveKind,
    spec: PcmSpec,
    samples: Seq<i32>,
    metadata: MetadataView,
)
    requires
        wave_envelope(spec) is Ok,
        samples.len() == spec.total_samples * spec.channels,
        all_fit(samples, spec.bits_per_sample as nat),
        wav_has_room(kind, spec, metadata),
    ensures
        wav_file(kind, spec, samples, metadata) is Ok,
{
    let envelope = wave_envelope(spec)->Ok_0;
    let width = (envelope.container_bits_per_sample / 8) as int;
    reveal(wave_head);
    lemma_mod_multiples_basic(spec.total_samples as int, spec.channels as int);
    lemma_div_by_multiple(spec.total_samples as int, spec.channels as int);
    lemma_mul_is_associative(spec.total_samples as int, spec.channels as int, width);
    lemma_fitting_samples_are_stored(samples, digest_envelope(spec), ByteOrder::Little);
    lemma_fitting_samples_are_stored(samples, envelope, ByteOrder::Wave);
}

/// A file with the samples, the rate, the channels, the width and the length of contents.
pub open spec fn is_wav_of(file: Seq<u8>, options: WavReaderOptions, contents: InputContents) -> bool {
    &&& input_contents(file, 0, options) matches Ok(found)
    &&& found.is_complete
    &&& found.samples == contents.samples
    &&& found.spec.sample_rate == contents.spec.sample_rate
    &&& found.spec.channels == contents.spec.channels
    &&& found.spec.bits_per_sample == contents.spec.bits_per_sample
    &&& found.spec.total_samples == contents.spec.total_samples
}

/// Speaker positions that comments name match the channels.
proof fn lemma_named_layout(layout: LayoutView, entries: Seq<Seq<char>>, channels: u8)
    requires
        layout.channel_mask matches Some(mask) ==> mask == 0 || mask_is_supported(
            channels as u16,
            mask,
        ),
    ensures
        layout_of_entries(layout, entries, channels) matches Ok(found) ==> (
        found.channel_mask matches Some(mask) ==> mask == 0 || mask_is_supported(
            channels as u16,
            mask,
        )),
    decreases entries.len(),
{
    if entries.len() > 0 {
        lemma_named_layout(layout, entries.drop_last(), channels);
    }
}

/// Speaker positions that blocks name match the channels.
proof fn lemma_taken_layout(
    blocks: Seq<BlockView>,
    count: nat,
    total_samples: u64,
    strict: bool,
    channels: u8,
)
    ensures
        taken(blocks, count, total_samples, strict, channels) matches Ok(metadata) ==> (
        metadata.channel_mask matches Some(mask) ==> mask == 0 || mask_is_supported(
            channels as u16,
            mask,
        )),
    decreases count,
{
    if count > 0 {
        lemma_taken_layout(blocks, (count - 1) as nat, total_samples, strict, channels);
        if let Ok(earlier) = taken(blocks, (count - 1) as nat, total_samples, strict, channels) {
            if let Some(block) = vorbis_block(blocks[count - 1].payload) {
                lemma_named_layout(
                    LayoutView {
                        channel_mask: earlier.channel_mask,
                        provenance: earlier.provenance,
                    },
                    block.entries,
                    channels,
                );
            }
        }
    }
}

/// A container that was encoded is decoded to a RIFF/WAVE file that holds the same: its
/// stream can be read if its metadata can, and what it holds can be written wherever there
/// is room for it.
pub proof fn law_containers_come_back_as_wav(
    bytes: Seq<u8>,
    contents: InputContents,
    settings: EncoderSettings,
    predictors: Seq<Vec<LpcPredictors>>,
    after: Seq<u8>,
    summary: Result<EncodeSummary>,
    decode: DecodeSettings,
    kind: WaveKind,
    carried: MetadataView,
    again: WavReaderOptions,
)
    requires
        input_contents(bytes, 0, reader_options(settings)) == Ok::<InputContents, ErrorView>(
            contents,
        ),
        input_is_fit(bytes, settings),
        all_predictors_are_valid(predictors),
        is_encoding_of(contents, settings, predictors, after, summary),
        summary is Ok,
        metadata_is_carried(contents, decode_options(decode), carried),
        output_family(decode.output_container) == OutputFamily::Wave(kind),
        wav_has_room(
            kind,
            restored_spec(contents.spec, carried),
            emitted(carried, decode.emit_fxmd),
        ),
        8 * after.len() <= usize::MAX,
        contents.samples.len() * 4 <= usize::MAX,
        decoded_bytes(after, decode) matches Ok(file) ==> file.len() + 64 <= u64::MAX,
    ensures
        decoded_bytes(after, decode) matches Ok(file) && is_wav_of(file, again, contents),
{
    let total = contents.spec.total_samples;
    let spec = restored_spec(contents.spec, carried);
    let blocks = flac_block_views(contents.metadata, total);
    lemma_encoded_session(bytes, contents, settings, predictors, after, summary);
    lemma_taken_layout(
        blocks,
        blocks.len(),
        total,
        decode_options(decode).strict_seektable_validation,
        contents.spec.channels,
    );
    lemma_ordinary_masks(contents.spec.channels as u16);
    assert(wave_envelope(spec) is Ok);
    law_wav_files_are_owed(
        kind,
        spec,
        contents.samples,
        emitted(carried, decode.emit_fxmd),
    );
    law_decoded_files_hold_the_input(
        bytes,
        contents,
        settings,
        predictors,
        after,
        summary,
        decode,
        carried,
        again,
    );
}

/// A RIFF/WAVE file that does not keep whole blocks comes back with its samples.
pub proof fn law_wav_files_come_back(
    bytes: Seq<u8>,
    contents: InputContents,
    settings: EncoderSettings,
    predictors: Seq<Vec<LpcPredictors>>,
    after: Seq<u8>,
    summary: Result<EncodeSummary>,
    decode: DecodeSettings,
    kind: WaveKind,
    again: WavReaderOptions,
)
    requires
        input_kind(bytes, 0) == PcmInputKind::RiffLike,
        input_contents(bytes, 0, reader_options(settings)) == Ok::<InputContents, ErrorView>(
            contents,
        ),
        contents.metadata.preserved.len() == 0,
        input_is_fit(bytes, settings),
        all_predictors_are_valid(predictors),
        is_encoding_of(contents, settings, predictors, after, summary),
        summary is Ok,
        output_family(decode.output_container) == OutputFamily::Wave(kind),
        ({
            let carried = carried_metadata(contents.metadata, contents.spec.total_samples);
            wav_has_room(
                kind,
                restored_spec(contents.spec, carried),
                emitted(carried, decode.emit_fxmd),
            )
        }),
        8 * after.len() <= usize::MAX,
        contents.samples.len() * 4 <= usize::MAX,
        decoded_bytes(after, decode) matches Ok(file) ==> file.len() + 64 <= u64::MAX,
    ensures
        decoded_bytes(after, decode) matches Ok(file) && is_wav_of(file, again, contents),
{
    lemma_encoded_session(bytes, contents, settings, predictors, after, summary);
    law_wav_metadata_are_carried(
        bytes,
        contents,
        reader_options(settings),
        decode_options(decode),
    );
    law_containers_come_back_as_wav(
        bytes,
        contents,
        settings,
        predictors,
        after,
        summary,
        decode,
        kind,
        carried_metadata(contents.metadata, contents.spec.total_samples),
        again,
    );
}

} // verus!
