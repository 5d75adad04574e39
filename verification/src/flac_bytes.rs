//! One-shot helpers on FLAC streams in memory.

use vstd::prelude::*;

use crate::config::{default_encoder, with_block_size_set, with_level_set, with_threads_set, DecodeConfig, DecodeSettings, EncoderConfig, EncoderSettings};
use crate::decode_output::{digest_agrees, digest_mismatch, is_decoded_at_once, streamed_outcome, whole_frames, whole_outcome};
use crate::encode_frames::{all_predictors_are_valid, differences_fit, lemma_frame_count};
use crate::encode_pipeline::{lemma_first_snapshots, snapshots_of};
use crate::encoder::{buffered_frames, can_be_started, flac_stream, head_length, is_given_up, leaves, lemma_digest_len, plan_view};
use crate::error::{ErrorView, Result};
use crate::flac_reader::{contents_spec, flac_contents, law_decoded_samples_fit, read_flac_reader_with_options, too_large, FlacContents};
use crate::input_laws::lemma_narrow_differences;
use crate::level::profile_of;
use crate::md5::{digest_envelope, streaminfo_digest, streaminfo_md5, verify_streaminfo_digest};
use crate::metadata::{emitted, MetadataView};
use crate::pcm::{encoded_samples, ByteOrder, PcmSpec};
use crate::pcm_output::output_family;
use crate::progress::{front_is_told, lemma_none_is_told, refusal_is_told, NoProgress, ProgressSink, ProgressSnapshot};
use crate::recompress::{default_recompression, recompress_reader_options, FlacReaderOptions, RecompressConfig, RecompressMode, RecompressSettings};
use crate::stream_info::digest_array;
use crate::subframe::LpcPredictors;

verus! {

/// What a decoder insists on.
pub open spec fn decode_options(settings: DecodeSettings) -> FlacReaderOptions {
    FlacReaderOptions {
        strict_seektable_validation: settings.strict_seektable_validation,
        strict_channel_mask_provenance: settings.strict_channel_mask_provenance,
    }
}

/// The PCM file that the contents of a stream are decoded to, or why there is none.
pub open spec fn decoded_file(contents: FlacContents, settings: DecodeSettings)
    -> std::result::Result<Seq<u8>, ErrorView> {
    let spec = contents_spec(contents);
    let family = output_family(settings.output_container);
    let metadata = emitted(contents.metadata, settings.emit_fxmd);
    if is_decoded_at_once(spec.total_samples) {
        whole_outcome(family, spec, contents.info.md5, metadata, contents.samples)
    } else {
        streamed_outcome(
            family,
            spec,
            contents.info.md5,
            metadata,
            whole_frames(contents.samples, spec.channels),
        )
    }
}

/// The PCM file that a stream is decoded to, or why there is none.
pub open spec fn decoded_bytes(input: Seq<u8>, settings: DecodeSettings) -> std::result::Result<
    Seq<u8>,
    ErrorView,
> {
    if 8 * input.len() > usize::MAX {
        Err(too_large())
    } else {
        match flac_contents(input, decode_options(settings)) {
            Err(error) => Err(error),
            Ok(contents) => decoded_file(contents, settings),
        }
    }
}

/// Decodes a FLAC stream into a PCM container.
pub fn decode_bytes_with_config(config: &DecodeConfig, input: &[u8]) -> (file: Result<Vec<u8>>)
    ensures
        match decoded_bytes(input@, config@) {
            Ok(expected) => file matches Ok(bytes) && bytes@ == expected,
            Err(expected) => file matches Err(error) && error@ == expected,
        },
{
    let options = FlacReaderOptions {
        strict_seektable_validation: config.strict_seektable_validation(),
        strict_channel_mask_provenance: config.strict_channel_mask_provenance(),
    };
    let reader = match read_flac_reader_with_options(input, options) {
        Ok(reader) => reader,
        Err(error) => return Err(error),
    };
    let ghost contents = reader.contents();
    let source = reader.into_decode_source();
    let ghost stream = source.samples();
    let mut decoder = (*config).into_decoder(Vec::new());
    let summary = decoder.decode_source(source);
    let bytes = decoder.into_inner();
    proof {
        if let Ok(file) = decoded_file(contents, config@) {
            assert(Seq::<u8>::empty() + file == file);
        }
    }
    match summary {
        Ok(_) => Ok(bytes),
        Err(error) => Err(error),
    }
}

/// Decodes a FLAC stream with the default settings.
pub fn decode_bytes(input: &[u8]) -> (file: Result<Vec<u8>>)
    ensures
        match decoded_bytes(input@, crate::config::default_decoder()) {
            Ok(expected) => file matches Ok(bytes) && bytes@ == expected,
            Err(expected) => file matches Err(error) && error@ == expected,
        },
{
    decode_bytes_with_config(&DecodeConfig::default(), input)
}

/// The encoder settings of a recompression.
pub open spec fn recompress_encoder(settings: RecompressSettings) -> EncoderSettings {
    with_block_size_set(
        with_threads_set(with_level_set(default_encoder(), settings.level), settings.threads),
        settings.block_size,
    )
}

/// What a recompression insists on.
pub open spec fn recompress_options(settings: RecompressSettings) -> FlacReaderOptions {
    FlacReaderOptions {
        strict_seektable_validation: settings.mode == RecompressMode::Strict,
        strict_channel_mask_provenance: settings.mode == RecompressMode::Strict,
    }
}

/// The samples of a stream can be encoded again: in stereo of 32 bits the differences
/// between the channels have to fit where they are taken.
pub open spec fn stream_is_refit(input: Seq<u8>, settings: RecompressSettings) -> bool {
    flac_contents(input, recompress_options(settings)) matches Ok(contents)
        ==> contents.info.bits_per_sample < 32 || differences_fit(
        contents_spec(contents),
        profile_of(settings.level),
        contents.samples,
    )
}

/// The stream that the contents of another stream are encoded to, or why there is none.
pub open spec fn reencoded(
    contents: FlacContents,
    settings: RecompressSettings,
    predictors: Seq<Vec<LpcPredictors>>,
) -> std::result::Result<Seq<u8>, ErrorView> {
    let spec = contents_spec(contents);
    let encoder = recompress_encoder(settings);
    match streaminfo_digest(spec, contents.samples) {
        Err(error) => Err(error),
        Ok(digest) => if !digest_agrees(contents.info.md5, digest) {
            Err(digest_mismatch())
        } else {
            match buffered_frames(
                spec,
                encoder,
                contents.metadata,
                contents.samples,
                predictors,
            ) {
                Err(error) => Err(error),
                Ok(frames) => Ok(flac_stream(spec, encoder, contents.metadata, digest, frames)),
            }
        },
    }
}

/// The stream that a stream is recompressed to, or why there is none.
pub open spec fn recompressed_bytes(
    input: Seq<u8>,
    settings: RecompressSettings,
    predictors: Seq<Vec<LpcPredictors>>,
) -> std::result::Result<Seq<u8>, ErrorView> {
    if 8 * input.len() > usize::MAX {
        Err(too_large())
    } else {
        match flac_contents(input, recompress_options(settings)) {
            Err(error) => Err(error),
            Ok(contents) => reencoded(contents, settings, predictors),
        }
    }
}

/// Recompresses a FLAC stream.
pub fn recompress_bytes_with_config(
    config: &RecompressConfig,
    input: &[u8],
    predictors: &[Vec<LpcPredictors>],
) -> (flac: Result<Vec<u8>>)
    requires
        stream_is_refit(input@, config@),
        all_predictors_are_valid(predictors@),
    ensures
        match recompressed_bytes(input@, config@, predictors@) {
            Ok(expected) => flac matches Ok(bytes) && bytes@ == expected,
            Err(expected) => flac matches Err(error) && error@ == expected,
        },
{
    let mut progress = NoProgress::new();
    recompress_with_progress(config, input, &mut progress, predictors)
}

/// The reports on the frames of a recompressed stream.
pub open spec fn recompression_reports(
    input: Seq<u8>,
    settings: RecompressSettings,
    predictors: Seq<Vec<LpcPredictors>>,
) -> Seq<ProgressSnapshot> {
    let contents = flac_contents(input, recompress_options(settings))->Ok_0;
    let spec = contents_spec(contents);
    let frames = buffered_frames(
        spec,
        recompress_encoder(settings),
        contents.metadata,
        contents.samples,
        predictors,
    )->Ok_0;
    snapshots_of(
        frames,
        0,
        spec,
        0,
        frames.len() as usize,
        head_length(spec, contents.metadata),
    )
}

/// A recompression that was given up has told of its first frames.
proof fn lemma_given_up(
    spec: PcmSpec,
    settings: EncoderSettings,
    metadata: MetadataView,
    samples: Seq<i32>,
    predictors: Seq<Vec<LpcPredictors>>,
    digest: Seq<u8>,
    outputs: (Seq<u8>, Seq<u8>),
    told: (Seq<ProgressSnapshot>, Seq<ProgressSnapshot>),
)
    requires
        ({
            let outcome = buffered_frames(spec, settings, metadata, samples, predictors);
            is_given_up(
                spec,
                settings,
                metadata,
                digest,
                match outcome {
                    Ok(frames) => frames,
                    Err(_) => Seq::empty(),
                },
                outputs,
                told,
            )
        }),
    ensures
        ({
            let frames = buffered_frames(spec, settings, metadata, samples, predictors)->Ok_0;
            front_is_told(
                snapshots_of(
                    frames,
                    0,
                    spec,
                    0,
                    frames.len() as usize,
                    head_length(spec, metadata),
                ),
                told.0,
                told.1,
            )
        }),
{
    let outcome = buffered_frames(spec, settings, metadata, samples, predictors);
    let frames = outcome->Ok_0;
    let written = head_length(spec, metadata);
    let reports = snapshots_of(frames, 0, spec, 0, frames.len() as usize, written);
    lemma_none_is_told(reports, told.0);
    if can_be_started(spec, settings, metadata) {
        let plan = plan_view(spec, settings);
        let found = match outcome {
            Ok(frames) => frames,
            Err(_) => Seq::empty(),
        };
        let count = choose|count: int|
            #![trigger leaves(
                spec,
                settings,
                metadata,
                digest,
                found,
                count,
                outputs.0,
                outputs.1,
            )]
            {
                &&& leaves(
                    spec,
                    settings,
                    metadata,
                    digest,
                    found,
                    count,
                    outputs.0,
                    outputs.1,
                )
                &&& told.1 == told.0 + snapshots_of(
                    found.take(count),
                    0,
                    spec,
                    0,
                    plan.blocks.len() as usize,
                    written,
                )
            };
        if outcome is Ok {
            lemma_frame_count(plan, samples, 0, predictors, 0, plan.blocks.len() as int);
            lemma_first_snapshots(frames, count, 0, spec, 0, frames.len() as usize, written);
            assert(told.1 == told.0 + reports.take(count));
        } else {
            assert(found.take(count).len() == 0);
            assert(told.1 == told.0);
        }
    }
}

/// Recompresses a FLAC stream while reporting frame-level progress.
#[verifier::rlimit(60)]
#[verifier::spinoff_prover]
pub fn recompress_with_progress<P: ProgressSink>(
    config: &RecompressConfig,
    input: &[u8],
    progress: &mut P,
    predictors: &[Vec<LpcPredictors>],
) -> (flac: Result<Vec<u8>>)
    requires
        stream_is_refit(input@, config@),
        all_predictors_are_valid(predictors@),
    ensures
        refusal_is_told(*old(progress), *final(progress), flac),
        old(progress).accepts() ==> match recompressed_bytes(input@, config@, predictors@) {
            Ok(expected) => flac matches Ok(bytes) && bytes@ == expected,
            Err(expected) => flac matches Err(error) && error@ == expected,
        },
        flac is Err ==> front_is_told(
            recompression_reports(input@, config@, predictors@),
            old(progress).told(),
            final(progress).told(),
        ),
        flac matches Ok(bytes) ==> {
            &&& recompressed_bytes(input@, config@, predictors@) == Ok::<Seq<u8>, ErrorView>(
                bytes@,
            )
            &&& final(progress).told() == old(progress).told() + recompression_reports(
                input@,
                config@,
                predictors@,
            )
        },
{
    let options = recompress_reader_options(*config);
    proof {
        lemma_none_is_told(
            recompression_reports(input@, config@, predictors@),
            progress.told(),
        );
    }
    let reader = match read_flac_reader_with_options(input, options) {
        Ok(reader) => reader,
        Err(error) => return Err(error),
    };
    let ghost told = progress.told();
    let ghost contents = reader.contents();
    proof {
        law_decoded_samples_fit(input@, options);
        if contents.info.bits_per_sample < 32 {
            lemma_narrow_differences(contents.samples, contents.info.bits_per_sample);
        }
    }
    let info = reader.stream_info();
    let (metadata, pcm) = reader.into_parts();
    let digest = match streaminfo_md5(pcm.spec, pcm.samples.as_slice()) {
        Ok(digest) => digest,
        Err(error) => return Err(error),
    };
    match verify_streaminfo_digest(digest.as_slice(), info.md5.as_slice()) {
        Ok(()) => {},
        Err(error) => return Err(error),
    }
    proof {
        lemma_digest_len(
            encoded_samples(pcm.samples@, digest_envelope(pcm.spec), ByteOrder::Little)->Ok_0,
        );
    }
    let md5: [u8; 16] = digest_array(digest.as_slice());
    let encoder_config = EncoderConfig::default().with_level(config.level()).with_threads(
        config.threads(),
    ).with_block_size(config.block_size());
    let mut encoder = encoder_config.into_encoder(Vec::new());
    let summary = encoder.encode_buffered_pcm_with_sink(
        &metadata,
        &pcm,
        md5,
        progress,
        predictors,
    );
    let bytes = encoder.into_inner();
    match summary {
        Ok(_) => {
            assert(bytes@ == reencoded(contents, config@, predictors@)->Ok_0);
            Ok(bytes)
        },
        Err(error) => {
            proof {
                lemma_given_up(
                    pcm.spec,
                    recompress_encoder(config@),
                    metadata@,
                    pcm.samples@,
                    predictors@,
                    md5@,
                    (Seq::empty(), bytes@),
                    (told, progress.told()),
                );
            }
            Err(error)
        },
    }
}

/// Recompresses a FLAC stream with the default settings.
pub fn recompress_bytes(input: &[u8], predictors: &[Vec<LpcPredictors>]) -> (flac: Result<Vec<u8>>)
    requires
        stream_is_refit(input@, default_recompression()),
        all_predictors_are_valid(predictors@),
    ensures
        match recompressed_bytes(input@, default_recompression(), predictors@) {
            Ok(expected) => flac matches Ok(bytes) && bytes@ == expected,
            Err(expected) => flac matches Err(error) && error@ == expected,
        },
{
    recompress_bytes_with_config(&RecompressConfig::default(), input, predictors)
}

} // verus!
