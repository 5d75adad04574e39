//! One-shot helpers on bytes in memory.

use vstd::prelude::*;

use crate::byte_reader::ByteReader;
use crate::config::{default_encoder, EncoderConfig, EncoderSettings};
use crate::encode_frames::{all_predictors_are_valid, differences_fit};
use crate::encoder::{is_written, EncodeSummary};
use crate::error::{Error, ErrorView, Result};
use crate::input::{input_contents, lemma_input_stream, read_pcm_reader_with_options, InputContents, WavReaderOptions};
use crate::input_laws::{law_input_samples_fit, lemma_narrow_differences};
use crate::level::profile_of;
use crate::names::same_name;
use crate::pcm::PcmContainer;
use crate::subframe::LpcPredictors;
use crate::text::concat;

verus! {

/// The options under which an encoder reads its input.
pub open spec fn reader_options(settings: EncoderSettings) -> WavReaderOptions {
    WavReaderOptions {
        capture_fxmd: settings.capture_fxmd,
        strict_fxmd_validation: settings.strict_fxmd_validation,
    }
}

/// The samples of a container can be encoded with the given settings: in stereo of 32
/// bits the differences between the channels have to fit where they are taken.
pub open spec fn input_is_fit(bytes: Seq<u8>, settings: EncoderSettings) -> bool {
    input_contents(bytes, 0, reader_options(settings)) matches Ok(contents) ==> contents.spec.bits_per_sample < 32
        || differences_fit(contents.spec, profile_of(settings.level), contents.samples)
}

/// Encodes a PCM container into a FLAC stream.
pub fn encode_bytes_with_config(
    config: &EncoderConfig,
    input: Vec<u8>,
    predictors: &[Vec<LpcPredictors>],
) -> (flac: Result<Vec<u8>>)
    requires
        input_is_fit(input@, config@),
        all_predictors_are_valid(predictors@),
    ensures
        match input_contents(input@, 0, reader_options(config@)) {
            Err(expected) => flac matches Err(error) && error@ == expected,
            Ok(contents) => exists|summary: Result<EncodeSummary>, after: Seq<u8>|
                #![trigger is_encoding_of(contents, config@, predictors@, after, summary)]
                is_encoding_of(contents, config@, predictors@, after, summary) && match flac {
                    Ok(bytes) => summary is Ok && bytes@ == after,
                    Err(error) => summary matches Err(other) && other@ == error@,
                },
        },
{
    let options = WavReaderOptions {
        capture_fxmd: config.capture_fxmd(),
        strict_fxmd_validation: config.strict_fxmd_validation(),
    };
    let ghost bytes = input@;
    let reader = match read_pcm_reader_with_options(ByteReader::new(input), options) {
        Ok(reader) => reader,
        Err(error) => return Err(error),
    };
    let ghost found = reader;
    let source = reader.into_source();
    proof {
        lemma_input_stream(bytes, 0, found, source.samples(), options);
        law_input_samples_fit(bytes, 0, options);
        let contents = input_contents(bytes, 0, options)->Ok_0;
        if contents.spec.bits_per_sample < 32 {
            lemma_narrow_differences(
                contents.samples,
                contents.spec.bits_per_sample as nat,
            );
        }
    }
    let mut encoder = config.copied().into_encoder(Vec::new());
    let summary = encoder.encode_source(source, predictors);
    let output = encoder.into_inner();
    proof {
        let contents = input_contents(bytes, 0, options)->Ok_0;
        assert(is_encoding_of(contents, config@, predictors@, output@, summary));
    }
    match summary {
        Ok(_) => Ok(output),
        Err(error) => Err(error),
    }
}

/// Encodes a PCM container into a FLAC stream with the default settings.
pub fn encode_bytes(input: Vec<u8>, predictors: &[Vec<LpcPredictors>]) -> (flac: Result<Vec<u8>>)
    requires
        input_is_fit(input@, default_encoder()),
        all_predictors_are_valid(predictors@),
    ensures
        match input_contents(input@, 0, reader_options(default_encoder())) {
            Err(expected) => flac matches Err(error) && error@ == expected,
            Ok(contents) => exists|summary: Result<EncodeSummary>, after: Seq<u8>|
                #![trigger is_encoding_of(contents, default_encoder(), predictors@, after, summary)]
                is_encoding_of(contents, default_encoder(), predictors@, after, summary)
                    && match flac {
                    Ok(bytes) => summary is Ok && bytes@ == after,
                    Err(error) => summary matches Err(other) && other@ == error@,
                },
        },
{
    encode_bytes_with_config(&EncoderConfig::default(), input, predictors)
}

/// What encoding the contents of a container gives.
pub open spec fn is_encoding_of(
    contents: InputContents,
    settings: EncoderSettings,
    predictors: Seq<Vec<LpcPredictors>>,
    after: Seq<u8>,
    summary: Result<EncodeSummary>,
) -> bool {
    is_written(
        contents.spec,
        contents.samples,
        contents.is_complete,
        contents.breaks_off,
        (None, None),
        settings,
        contents.metadata,
        predictors,
        Seq::empty(),
        after,
        true,
        summary,
    )
}

/// The container family that a file extension stands for, or why there is none.
pub open spec fn container_for_extension(extension: Option<Seq<char>>) -> std::result::Result<
    Option<PcmContainer>,
    ErrorView,
> {
    match extension {
        None => Ok(None),
        Some(text) => if same_name(text, "rf64"@) {
            Ok(Some(PcmContainer::Rf64))
        } else if same_name(text, "w64"@) {
            Ok(Some(PcmContainer::Wave64))
        } else if same_name(text, "wav"@) {
            Ok(Some(PcmContainer::Wave))
        } else if same_name(text, "aif"@) || same_name(text, "aiff"@) {
            Ok(Some(PcmContainer::Aiff))
        } else if same_name(text, "aifc"@) {
            Ok(Some(PcmContainer::Aifc))
        } else if same_name(text, "caf"@) {
            Ok(Some(PcmContainer::Caf))
        } else {
            Err(ErrorView::Decode("unsupported decode output extension '."@ + text + "'"@))
        },
    }
}

/// The container family that a file extension stands for.
pub fn inferred_output_container(extension: Option<&str>) -> (container: Result<Option<PcmContainer>>)
    ensures
        match container_for_extension(
            match extension {
                Some(text) => Some(text@),
                None => None,
            },
        ) {
            Ok(expected) => container == Ok::<Option<PcmContainer>, Error>(expected),
            Err(expected) => container matches Err(error) && error@ == expected,
        },
{
    let text = match extension {
        Some(text) => text,
        None => return Ok(None),
    };
    if text.eq_ignore_ascii_case("rf64") {
        return Ok(Some(PcmContainer::Rf64));
    }
    if text.eq_ignore_ascii_case("w64") {
        return Ok(Some(PcmContainer::Wave64));
    }
    if text.eq_ignore_ascii_case("wav") {
        return Ok(Some(PcmContainer::Wave));
    }
    if text.eq_ignore_ascii_case("aif") || text.eq_ignore_ascii_case("aiff") {
        return Ok(Some(PcmContainer::Aiff));
    }
    if text.eq_ignore_ascii_case("aifc") {
        return Ok(Some(PcmContainer::Aifc));
    }
    if text.eq_ignore_ascii_case("caf") {
        return Ok(Some(PcmContainer::Caf));
    }
    let opening = concat("unsupported decode output extension '.", text);
    Err(Error::Decode(concat(opening.as_str(), "'")))
}

} // verus!
