//! How the rules of the command line hang together.

use vstd::prelude::*;
use vstd::string::*;

use crate::aiff_output::AiffContainer;
use crate::cli_modes::{decode_settings, encode_settings, raw_description, recompression_of, reporting_for, without_hex_prefix, ModePreset, ProgressReportingMode, RawFlags};
use crate::cli_plan::{overall_samples, root_failure, rule_for, single_output_failure, OutputRule, RequestedOutput};
use crate::cli_text::{command_name, container_extension, empty_directory_text, family_for_extension, is_source_extension, joined_names, lemma_names_differ, named_container, planning_failure, target_name, CommandKind, EncodeInputFamily};
use crate::config::{default_decoder, default_encoder, DecodeSettings, EncoderSettings};
use crate::convenience::container_for_extension;
use crate::error::{error_text, ErrorView};
use crate::flac_bytes::recompress_options;
use crate::hex::{digits_value, hex_value};
use crate::names::same_name;
use crate::pcm::PcmContainer;
use crate::pcm_output::{output_family, OutputFamily};
use crate::raw::RawPcmDescriptor;
use crate::recompress::{default_recompression, RecompressMode, RecompressSettings};
use crate::text::decimal;

verus! {

/// An extension is one of some names, up to the case of its letters.
pub open spec fn is_named(extension: Seq<char>, names: Seq<Seq<char>>) -> bool {
    exists|i: int| 0 <= i < names.len() && same_name(extension, #[trigger] names[i])
}

/// The extensions of the wave family.
pub open spec fn wave_names() -> Seq<Seq<char>> {
    seq!["wav"@, "rf64"@, "w64"@]
}

/// The extensions of the AIFF family.
pub open spec fn aiff_names() -> Seq<Seq<char>> {
    seq!["aif"@, "aiff"@, "aifc"@]
}

/// The extensions of Core Audio files.
pub open spec fn caf_names() -> Seq<Seq<char>> {
    seq!["caf"@]
}

/// No two extensions are the same.
proof fn lemma_extensions_differ()
    ensures
        !same_name("rf64"@, "w64"@),
        !same_name("rf64"@, "aif"@),
        !same_name("rf64"@, "aiff"@),
        !same_name("rf64"@, "aifc"@),
        !same_name("rf64"@, "caf"@),
        !same_name("rf64"@, "wav"@),
        !same_name("w64"@, "aif"@),
        !same_name("w64"@, "aiff"@),
        !same_name("w64"@, "aifc"@),
        !same_name("w64"@, "caf"@),
        !same_name("w64"@, "wav"@),
        !same_name("aif"@, "aiff"@),
        !same_name("aif"@, "aifc"@),
        !same_name("aif"@, "caf"@),
        !same_name("aif"@, "wav"@),
        !same_name("aiff"@, "aifc"@),
        !same_name("aiff"@, "caf"@),
        !same_name("aiff"@, "wav"@),
        !same_name("aifc"@, "caf"@),
        !same_name("aifc"@, "wav"@),
        !same_name("caf"@, "wav"@),
        !same_name("flac"@, "wav"@),
        !same_name("flac"@, "rf64"@),
        !same_name("flac"@, "w64"@),
        !same_name("flac"@, "aif"@),
        !same_name("flac"@, "aiff"@),
        !same_name("flac"@, "aifc"@),
        !same_name("flac"@, "caf"@),
{
    reveal_strlit("rf64");
    reveal_strlit("w64");
    reveal_strlit("aif");
    reveal_strlit("aiff");
    reveal_strlit("aifc");
    reveal_strlit("caf");
    reveal_strlit("wav");
    reveal_strlit("flac");
    lemma_names_differ("rf64"@, "w64"@, 0);
    lemma_names_differ("rf64"@, "aif"@, 0);
    lemma_names_differ("rf64"@, "aiff"@, 0);
    lemma_names_differ("rf64"@, "aifc"@, 0);
    lemma_names_differ("rf64"@, "caf"@, 0);
    lemma_names_differ("rf64"@, "wav"@, 0);
    lemma_names_differ("w64"@, "aif"@, 0);
    lemma_names_differ("w64"@, "aiff"@, 0);
    lemma_names_differ("w64"@, "aifc"@, 0);
    lemma_names_differ("w64"@, "caf"@, 0);
    lemma_names_differ("w64"@, "wav"@, 1);
    lemma_names_differ("aif"@, "aiff"@, 0);
    lemma_names_differ("aif"@, "aifc"@, 0);
    lemma_names_differ("aif"@, "caf"@, 0);
    lemma_names_differ("aif"@, "wav"@, 0);
    lemma_names_differ("aiff"@, "aifc"@, 3);
    lemma_names_differ("aiff"@, "caf"@, 0);
    lemma_names_differ("aiff"@, "wav"@, 0);
    lemma_names_differ("aifc"@, "caf"@, 0);
    lemma_names_differ("aifc"@, "wav"@, 0);
    lemma_names_differ("caf"@, "wav"@, 0);
    lemma_names_differ("flac"@, "wav"@, 0);
    lemma_names_differ("flac"@, "rf64"@, 0);
    lemma_names_differ("flac"@, "w64"@, 0);
    lemma_names_differ("flac"@, "aif"@, 0);
    lemma_names_differ("flac"@, "aiff"@, 0);
    lemma_names_differ("flac"@, "aifc"@, 0);
    lemma_names_differ("flac"@, "caf"@, 0);
}

proof fn lemma_named(extension: Seq<char>)
    ensures
        is_named(extension, wave_names()) <==> same_name(extension, "wav"@) || same_name(
            extension,
            "rf64"@,
        ) || same_name(extension, "w64"@),
        is_named(extension, aiff_names()) <==> same_name(extension, "aif"@) || same_name(
            extension,
            "aiff"@,
        ) || same_name(extension, "aifc"@),
        is_named(extension, caf_names()) <==> same_name(extension, "caf"@),
{
    let wave = wave_names();
    let aiff = aiff_names();
    let caf = caf_names();
    assert(wave[0] == "wav"@ && wave[1] == "rf64"@ && wave[2] == "w64"@);
    assert(aiff[0] == "aif"@ && aiff[1] == "aiff"@ && aiff[2] == "aifc"@);
    assert(caf[0] == "caf"@);
}

/// An input is read as the family that its extension names, in any case of the letters: `wav`,
/// `rf64` and `w64` name the wave family, `aif`, `aiff` and `aifc` AIFF, and `caf` Core Audio.
/// Any other extension, or none, leaves the family to the bytes.
pub proof fn law_extensions_name_families(extension: Seq<char>)
    ensures
        family_for_extension(Some(extension)) == EncodeInputFamily::WavLike <==> is_named(
            extension,
            wave_names(),
        ),
        family_for_extension(Some(extension)) == EncodeInputFamily::AiffLike <==> is_named(
            extension,
            aiff_names(),
        ),
        family_for_extension(Some(extension)) == EncodeInputFamily::Caf <==> is_named(
            extension,
            caf_names(),
        ),
        family_for_extension(Some(extension)) == EncodeInputFamily::Dynamic <==> !is_named(
            extension,
            wave_names() + aiff_names() + caf_names(),
        ),
        family_for_extension(None) == EncodeInputFamily::Dynamic,
{
    lemma_extensions_differ();
    lemma_named(extension);
    let names = wave_names() + aiff_names() + caf_names();
    assert(names[0] == "wav"@ && names[1] == "rf64"@ && names[2] == "w64"@);
    assert(names[3] == "aif"@ && names[4] == "aiff"@ && names[5] == "aifc"@);
    assert(names[6] == "caf"@);
}

/// A directory is searched for every file that a single command takes: encoding takes the
/// extensions that name a family, which are those that a decoded file can have, and decoding
/// and recompression take `flac`. No extension is one of both.
pub proof fn law_sources_are_what_commands_take(extension: Seq<char>)
    ensures
        is_source_extension(CommandKind::Encode, extension) <==> family_for_extension(
            Some(extension),
        ) != EncodeInputFamily::Dynamic,
        is_source_extension(CommandKind::Encode, extension) <==> is_named(
            extension,
            wave_names() + aiff_names() + caf_names(),
        ),
        is_source_extension(CommandKind::Encode, extension) <==> named_container(
            Some(extension),
        ) is Ok,
        is_source_extension(CommandKind::Decode, extension) <==> same_name(extension, "flac"@),
        is_source_extension(CommandKind::Recompress, extension) <==> same_name(
            extension,
            "flac"@,
        ),
        !(is_source_extension(CommandKind::Encode, extension) && is_source_extension(
            CommandKind::Decode,
            extension,
        )),
{
    lemma_extensions_differ();
    law_extensions_name_families(extension);
}

/// The family whose reader reads an output family.
pub open spec fn reading_family(family: OutputFamily) -> EncodeInputFamily {
    match family {
        OutputFamily::Wave(_) => EncodeInputFamily::WavLike,
        OutputFamily::Aiff(_) => EncodeInputFamily::AiffLike,
        OutputFamily::Caf => EncodeInputFamily::Caf,
    }
}

/// The extension of a decoded file names its container for the decoder and its family for the
/// encoder, and both agree: what is decoded into a file of some extension is read again as the
/// family that was written. Each container has an extension of its own.
pub proof fn law_decoded_extensions_are_read_as_written(
    extension: Seq<char>,
    container: PcmContainer,
    other: PcmContainer,
)
    ensures
        named_container(Some(extension)) matches Ok(found) ==> {
            &&& found is Some
            &&& family_for_extension(Some(extension)) == reading_family(
                output_family(found->Some_0),
            )
        },
        named_container(Some(extension)) is Err <==> family_for_extension(Some(extension))
            == EncodeInputFamily::Dynamic,
        named_container(None) == Ok::<Option<PcmContainer>, ErrorView>(None),
        container_for_extension(Some(extension)) == named_container(Some(extension)),
        container_for_extension(None) == named_container(None),
        family_for_extension(Some(container_extension(container))) == reading_family(
            output_family(container),
        ),
        is_source_extension(CommandKind::Encode, container_extension(container)),
        container_extension(container) == container_extension(other) <==> output_family(container)
            == output_family(other),
{
    lemma_extensions_differ();
    reveal_strlit("rf64");
    reveal_strlit("w64");
    reveal_strlit("aiff");
    reveal_strlit("aifc");
    reveal_strlit("caf");
    reveal_strlit("wav");
    assert("wav"@[0] != "caf"@[0]);
    assert("wav"@[1] != "w64"@[1]);
    assert("caf"@[0] != "w64"@[0]);
    assert("aiff"@[3] != "aifc"@[3]);
    assert("aiff"@[0] != "rf64"@[0]);
    assert("aifc"@[0] != "rf64"@[0]);
}

/// A container is the output family of its own name.
pub proof fn law_containers_are_written_as_named(container: PcmContainer)
    ensures
        output_family(container) is Caf <==> container == PcmContainer::Caf,
        output_family(container) is Aiff <==> container == PcmContainer::Aiff || container
            == PcmContainer::Aifc,
        output_family(PcmContainer::Aiff) == OutputFamily::Aiff(AiffContainer::Aiff),
        output_family(PcmContainer::Aifc) == OutputFamily::Aiff(AiffContainer::AifcNone),
        output_family(PcmContainer::Auto) == output_family(PcmContainer::Wave),
{
}

/// What a command writes, another one takes: encoded and recompressed files can be decoded and
/// recompressed, and decoded files, which have the extension of the container that a decoder
/// has by default, can be encoded.
pub proof fn law_targets_are_sources(kind: CommandKind)
    ensures
        kind != CommandKind::Decode ==> is_source_extension(CommandKind::Decode, target_name(kind))
            && is_source_extension(CommandKind::Recompress, target_name(kind)),
        kind == CommandKind::Decode ==> is_source_extension(
            CommandKind::Encode,
            target_name(kind),
        ) && target_name(kind) == container_extension(default_decoder().output_container),
        !is_source_extension(kind, target_name(kind)) <==> kind != CommandKind::Recompress,
{
    lemma_extensions_differ();
}

/// An output replaces its input exactly if a recompression is asked to work in place. Otherwise
/// it goes under the output root where there is one, and beside the input where there is none,
/// and there a recompression marks its name, so that no input is written over.
pub proof fn law_outputs_replace_inputs_only_in_place(
    kind: CommandKind,
    extension: &'static str,
    in_place: bool,
    has_root: bool,
)
    ensures
        ({
            let rule = rule_for(kind, extension, in_place, has_root);
            let replaces = kind == CommandKind::Recompress && in_place;
            &&& rule is InPlace <==> replaces
            &&& rule is UnderRoot <==> has_root && !replaces
            &&& rule is BesideRecompressed <==> kind == CommandKind::Recompress && !in_place
                && !has_root
            &&& rule is Beside <==> kind != CommandKind::Recompress && !has_root
            &&& rule matches OutputRule::UnderRoot(found) ==> found == extension
            &&& rule matches OutputRule::Beside(found) ==> found == extension
        }),
{
}

/// The work on a file is a pass over its samples, or two passes for a recompression, as far as
/// it can be counted.
pub proof fn law_work_is_one_pass_or_two(kind: CommandKind, samples: u64)
    ensures
        kind != CommandKind::Recompress ==> overall_samples(kind, samples) == samples,
        kind == CommandKind::Recompress && samples + samples <= u64::MAX ==> overall_samples(
            kind,
            samples,
        ) == samples + samples,
        kind == CommandKind::Recompress && samples + samples > u64::MAX ==> overall_samples(
            kind,
            samples,
        ) == u64::MAX,
{
}

/// A file takes the output of a file and a directory that of a directory, and neither takes the
/// output of a recompression of itself; nothing else is refused. The error is one of decoding
/// for a decode, and one of encoding for the others.
pub proof fn law_outputs_have_to_be_of_the_kind(kind: CommandKind, output: RequestedOutput)
    ensures
        single_output_failure(kind, output) is Some <==> output.is_dir || (kind
            == CommandKind::Recompress && output.is_input),
        root_failure(kind, output) is Some <==> (output.exists && !output.is_dir) || (kind
            == CommandKind::Recompress && output.is_input),
        single_output_failure(kind, output) matches Some(error) ==> (if kind
            == CommandKind::Decode {
            error is Decode
        } else {
            error is Encode
        }),
        root_failure(kind, output) matches Some(error) ==> (if kind == CommandKind::Decode {
            error is Decode
        } else {
            error is Encode
        }),
{
}

/// Raw samples are described exactly if they are asked for with everything that describes them,
/// and with speaker positions for three to eight channels; they are then as they are described.
/// Without a request nothing may describe them.
pub proof fn law_raw_samples_need_a_whole_description(flags: RawFlags, mask: Option<Option<u32>>)
    ensures
        raw_description(flags, mask) == Ok::<Option<RawPcmDescriptor>, Seq<char>>(None) <==> {
            &&& !flags.raw
            &&& flags.sample_rate is None
            &&& flags.channels is None
            &&& flags.bits_per_sample is None
            &&& flags.container_bits is None
            &&& flags.byte_order is None
            &&& flags.channel_mask is None
        },
        (raw_description(flags, mask) matches Ok(Some(_))) <==> {
            &&& flags.raw
            &&& flags.sample_rate is Some
            &&& flags.channels is Some
            &&& flags.bits_per_sample is Some
            &&& flags.container_bits is Some
            &&& flags.byte_order is Some
            &&& mask matches Some(given) ==> given is Some
            &&& mask is None ==> flags.channels->Some_0 < 3 || flags.channels->Some_0 > 8
        },
        raw_description(flags, mask) matches Ok(Some(described)) ==> {
            &&& flags.sample_rate == Some(described.sample_rate)
            &&& flags.channels == Some(described.channels)
            &&& flags.bits_per_sample == Some(described.valid_bits_per_sample)
            &&& flags.container_bits == Some(described.container_bits_per_sample)
            &&& flags.byte_order == Some(described.byte_order)
            &&& mask == Some(described.channel_mask) || mask is None && described.channel_mask
                is None
        },
{
}

/// The default preset settles what is settled by default, the loose one asks for less and the
/// strict one for all: what is captured, emitted and checked.
pub proof fn law_presets_grow_from_loose_to_strict(
    encoder: EncoderSettings,
    decoder: DecodeSettings,
    recompression: RecompressSettings,
    mode: ModePreset,
)
    ensures
        encode_settings(default_encoder(), ModePreset::Default) == default_encoder(),
        decode_settings(default_decoder(), ModePreset::Default) == default_decoder(),
        recompression_of(ModePreset::Default) == default_recompression().mode,
        ({
            let encoding = encode_settings(encoder, mode);
            let decoding = decode_settings(decoder, mode);
            &&& encoding.capture_fxmd <==> mode != ModePreset::Loose
            &&& encoding.strict_fxmd_validation <==> encoding.capture_fxmd
            &&& decoding.emit_fxmd <==> encoding.capture_fxmd
            &&& decoding.strict_seektable_validation <==> mode == ModePreset::Strict
            &&& decoding.strict_channel_mask_provenance <==> mode == ModePreset::Strict
            &&& encoding.level == encoder.level
            &&& encoding.threads == encoder.threads
            &&& encoding.block_size == encoder.block_size
            &&& encoding.block_schedule == encoder.block_schedule
            &&& decoding.threads == decoder.threads
            &&& decoding.output_container == decoder.output_container
            &&& recompression.mode == recompression_of(mode) ==> {
                &&& recompress_options(recompression).strict_seektable_validation
                    == decoding.strict_seektable_validation
                &&& recompress_options(recompression).strict_channel_mask_provenance
                    == decoding.strict_channel_mask_provenance
            }
        }),
        recompression_of(mode) == RecompressMode::Strict <==> mode == ModePreset::Strict,
        recompression_of(mode) == RecompressMode::Loose <==> mode == ModePreset::Loose,
{
}

/// Progress is reported exactly if someone sees it.
pub proof fn law_progress_is_reported_where_it_is_seen(interactive: bool, traced: bool)
    ensures
        reporting_for(interactive, traced) == ProgressReportingMode::Disabled <==> !interactive
            && !traced,
{
}

/// A command that cannot start fails as decoding or as encoding, which recompression is too,
/// and says so.
pub proof fn law_commands_fail_as_what_they_do(kind: CommandKind, message: Seq<char>)
    ensures
        error_text(planning_failure(kind, message)) == (if kind == CommandKind::Decode {
            "decode error: "@
        } else {
            "encode error: "@
        }) + message,
        command_name(CommandKind::Encode) == "encode"@,
        command_name(CommandKind::Decode) == "decode"@,
        command_name(CommandKind::Recompress) == "recompress"@,
{
}

/// The text of an error opens with its kind and ends with its message.
pub proof fn law_error_texts_open_with_their_kind(message: Seq<char>)
    ensures
        error_text(ErrorView::InvalidFlac(message)) == "invalid flac: "@ + message,
        error_text(ErrorView::UnsupportedFlac(message)) == "unsupported flac: "@ + message,
        error_text(ErrorView::InvalidPcmContainer(message)) == "invalid pcm container: "@
            + message,
        error_text(ErrorView::UnsupportedPcmContainer(message)) == "unsupported pcm container: "@
            + message,
        error_text(ErrorView::Thread(message)) == "thread error: "@ + message,
{
}

/// The names on the way to a file are joined by slashes, one between each two of them.
pub proof fn law_names_are_joined_by_slashes(names: Seq<Seq<char>>, name: Seq<char>)
    ensures
        joined_names(Seq::empty()) == Seq::<char>::empty(),
        joined_names(seq![name]) == name,
        names.len() > 0 ==> joined_names(names.push(name)) == joined_names(names) + "/"@ + name,
{
    assert(names.push(name).drop_last() == names);
}

/// An empty directory is told with the kind of files that are missing, and how deep they were
/// searched for: without a limit where it is zero.
pub proof fn law_empty_directories_are_told(kind: CommandKind, root: Seq<char>, depth: nat)
    ensures
        ({
            let files = if kind == CommandKind::Encode {
                "no "@ + "supported PCM input files"@
            } else {
                "no "@ + "FLAC input files"@
            };
            let reach = if depth == 0 {
                "at any depth"@
            } else {
                "within depth "@ + decimal(depth)
            };
            empty_directory_text(kind, root, depth) == files + " found under '"@ + root + "' "@
                + reach + "; check the directory contents or adjust --depth"@
        }),
{
}

/// Speaker positions are given in hexadecimal digits, with or without `0x` or `0X` in front of
/// them, and with or without a plus sign.
pub proof fn law_masks_may_open_with_a_prefix(digits: Seq<u8>)
    ensures
        without_hex_prefix(seq!['0' as u8, 'x' as u8] + digits) == digits,
        without_hex_prefix(seq!['0' as u8, 'X' as u8] + digits) == digits,
        !(digits.len() >= 2 && digits[0] == '0' as u8 && (digits[1] == 'x' as u8 || digits[1]
            == 'X' as u8)) ==> without_hex_prefix(digits) == digits,
        hex_value(Seq::empty()) is None,
        digits.len() > 0 && digits[0] != '+' as u8 ==> hex_value(seq!['+' as u8] + digits)
            == hex_value(digits),
        hex_value(digits) matches Some(value) ==> (digits[0] != '+' as u8 ==> digits_value(digits)
            == Some(value as nat)),
        digits.len() > 0 && digits[0] != '+' as u8 && (digits_value(digits) matches Some(value)
            && value < 0x1_0000_0000) ==> hex_value(digits) is Some,
{
    assert((seq!['0' as u8, 'x' as u8] + digits).skip(2) == digits);
    assert((seq!['0' as u8, 'X' as u8] + digits).skip(2) == digits);
    assert((seq!['+' as u8] + digits).skip(1) == digits);
}

} // verus!
