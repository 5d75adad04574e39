//! What the flags of the command line stand for.

use vstd::prelude::*;
use vstd::string::*;
use vstd::utf8::encode_utf8;

use crate::config::{DecodeConfig, DecodeSettings, EncoderConfig, EncoderSettings};
use crate::hex::{hex_value, parse_hex};
use crate::raw::{RawPcmByteOrder, RawPcmDescriptor};
use crate::recompress::RecompressMode;

verus! {

/// A preset of metadata and validation settings.
#[derive(Debug, Clone, Copy, PartialEq, Eq, Structural)]
pub enum ModePreset {
    Loose,
    Default,
    Strict,
}

/// Encoder settings under a preset.
pub open spec fn encode_settings(settings: EncoderSettings, mode: ModePreset) -> EncoderSettings {
    EncoderSettings {
        capture_fxmd: mode != ModePreset::Loose,
        strict_fxmd_validation: mode != ModePreset::Loose,
        ..settings
    }
}

/// Applies a preset to an encoder configuration.
pub fn apply_encode_mode(config: EncoderConfig, mode: ModePreset) -> (applied: EncoderConfig)
    ensures
        applied@ == encode_settings(config@, mode),
{
    match mode {
        ModePreset::Loose => config.with_capture_fxmd(false).with_strict_fxmd_validation(false),
        ModePreset::Default => config.with_capture_fxmd(true).with_strict_fxmd_validation(true),
        ModePreset::Strict => config.with_capture_fxmd(true).with_strict_fxmd_validation(true),
    }
}

/// Decoder settings under a preset.
pub open spec fn decode_settings(settings: DecodeSettings, mode: ModePreset) -> DecodeSettings {
    DecodeSettings {
        emit_fxmd: mode != ModePreset::Loose,
        strict_channel_mask_provenance: mode == ModePreset::Strict,
        strict_seektable_validation: mode == ModePreset::Strict,
        ..settings
    }
}

/// Applies a preset to a decoder configuration.
pub fn apply_decode_mode(config: DecodeConfig, mode: ModePreset) -> (applied: DecodeConfig)
    ensures
        applied@ == decode_settings(config@, mode),
{
    let strict = mode == ModePreset::Strict;
    config.with_emit_fxmd(mode != ModePreset::Loose).with_strict_channel_mask_provenance(
        strict,
    ).with_strict_seektable_validation(strict)
}

/// The recompression mode of a preset.
pub open spec fn recompression_of(mode: ModePreset) -> RecompressMode {
    match mode {
        ModePreset::Loose => RecompressMode::Loose,
        ModePreset::Default => RecompressMode::Default,
        ModePreset::Strict => RecompressMode::Strict,
    }
}

/// The recompression mode of a preset.
pub fn recompress_mode(mode: ModePreset) -> (recompress: RecompressMode)
    ensures
        recompress == recompression_of(mode),
{
    match mode {
        ModePreset::Loose => RecompressMode::Loose,
        ModePreset::Default => RecompressMode::Default,
        ModePreset::Strict => RecompressMode::Strict,
    }
}

/// Presets settle everything that they speak of: the one applied last counts.
pub proof fn law_last_preset_counts(
    encoder: EncoderSettings,
    decoder: DecodeSettings,
    first: ModePreset,
    second: ModePreset,
)
    ensures
        encode_settings(encode_settings(encoder, first), second) == encode_settings(
            encoder,
            second,
        ),
        decode_settings(decode_settings(decoder, first), second) == decode_settings(
            decoder,
            second,
        ),
{
}

/// Refuses to run without a terminal where one is required.
pub fn enforce_interactive_mode(interactive: bool, require_interactive: bool) -> (result:
    std::result::Result<(), &'static str>)
    ensures
        match result {
            Ok(()) => interactive || !require_interactive,
            Err(text) => require_interactive && !interactive && text@
                == "interactive terminal required for this proof run"@,
        },
{
    if require_interactive && !interactive {
        return Err("interactive terminal required for this proof run");
    }
    Ok(())
}

/// Whether progress is reported.
#[derive(Debug, Clone, Copy, PartialEq, Eq, Structural)]
pub enum ProgressReportingMode {
    Disabled,
    Events,
}

/// Progress is reported to a terminal and to a trace.
pub open spec fn reporting_for(interactive: bool, trace_enabled: bool) -> ProgressReportingMode {
    if interactive || trace_enabled {
        ProgressReportingMode::Events
    } else {
        ProgressReportingMode::Disabled
    }
}

/// Progress is reported to a terminal and to a trace.
pub fn progress_reporting_mode(interactive: bool, trace_enabled: bool) -> (mode:
    ProgressReportingMode)
    ensures
        mode == reporting_for(interactive, trace_enabled),
{
    if interactive || trace_enabled {
        ProgressReportingMode::Events
    } else {
        ProgressReportingMode::Disabled
    }
}

/// The text without the white space around it.
pub uninterp spec fn trimmed_text(text: Seq<char>) -> Seq<char>;

/// `str::trim`: the text without the white space around it. A text that begins and ends
/// with visible ASCII characters stays as it is.
#[verifier::external_body]
fn trimmed<'a>(text: &'a str) -> (rest: &'a str)
    ensures
        rest@ == trimmed_text(text@),
        (text@.len() > 0 && '!' <= text@[0] <= '~' && '!' <= text@.last() <= '~') ==> rest@
            == text@,
{
    text.trim()
}

/// The part of a text behind a `0x` or `0X`.
pub open spec fn without_hex_prefix(text: Seq<u8>) -> Seq<u8> {
    if text.len() >= 2 && text[0] == 0x30 && (text[1] == 0x78 || text[1] == 0x58) {
        text.skip(2)
    } else {
        text
    }
}

/// The speaker positions that a hexadecimal text gives, if it gives any.
pub open spec fn mask_in_text(text: Seq<char>) -> Option<u32> {
    hex_value(without_hex_prefix(encode_utf8(text)))
}

/// The speaker positions that a text without white space around it gives, if it gives
/// any.
pub fn parse_trimmed_mask(text: &str) -> (mask: Option<u32>)
    ensures
        mask == mask_in_text(text@),
{
    let bytes = text.as_bytes();
    if bytes.len() >= 2 && bytes[0] == 0x30 && (bytes[1] == 0x78 || bytes[1] == 0x58) {
        let digits = vstd::slice::slice_subrange(bytes, 2, bytes.len());
        assert(digits@ == bytes@.skip(2));
        parse_hex(digits)
    } else {
        parse_hex(bytes)
    }
}

/// The speaker positions that a text gives, if it gives any.
pub fn parse_channel_mask(mask: &str) -> (parsed: Option<u32>)
    ensures
        parsed == mask_in_text(trimmed_text(mask@)),
{
    parse_trimmed_mask(trimmed(mask))
}

/// The flags that describe raw samples.
#[derive(Debug, Clone)]
pub struct RawFlags {
    pub raw: bool,
    pub sample_rate: Option<u32>,
    pub channels: Option<u8>,
    pub bits_per_sample: Option<u8>,
    pub container_bits: Option<u8>,
    pub byte_order: Option<RawPcmByteOrder>,
    pub channel_mask: Option<String>,
}

/// Some flag describes raw samples.
pub open spec fn describes_raw(flags: RawFlags) -> bool {
    ||| flags.sample_rate is Some
    ||| flags.channels is Some
    ||| flags.bits_per_sample is Some
    ||| flags.container_bits is Some
    ||| flags.byte_order is Some
    ||| flags.channel_mask is Some
}

/// The raw samples that flags describe, given what their channel mask stands for, or
/// what is wrong with them.
pub open spec fn raw_description(flags: RawFlags, mask: Option<Option<u32>>) -> std::result::Result<
    Option<RawPcmDescriptor>,
    Seq<char>,
> {
    if !flags.raw {
        if describes_raw(flags) {
            Err("raw PCM flags require --raw"@)
        } else {
            Ok(None)
        }
    } else if flags.sample_rate is None {
        Err("--raw requires --sample-rate"@)
    } else if flags.channels is None {
        Err("--raw requires --channels"@)
    } else if flags.bits_per_sample is None {
        Err("--raw requires --bits-per-sample"@)
    } else if flags.container_bits is None {
        Err("--raw requires --container-bits"@)
    } else if flags.byte_order is None {
        Err("--raw requires --byte-order"@)
    } else if mask == Some(None::<u32>) {
        Err("invalid --channel-mask value"@)
    } else if 3 <= flags.channels.unwrap() <= 8 && mask is None {
        Err("--raw 3..=8 channel input requires --channel-mask"@)
    } else {
        Ok(
            Some(
                RawPcmDescriptor {
                    sample_rate: flags.sample_rate.unwrap(),
                    channels: flags.channels.unwrap(),
                    valid_bits_per_sample: flags.bits_per_sample.unwrap(),
                    container_bits_per_sample: flags.container_bits.unwrap(),
                    byte_order: flags.byte_order.unwrap(),
                    channel_mask: match mask {
                        Some(parsed) => parsed,
                        None => None,
                    },
                },
            ),
        )
    }
}

/// The raw samples that flags describe, given what their channel mask stands for.
pub fn describe_raw(flags: &RawFlags, mask: Option<Option<u32>>) -> (descriptor: std::result::Result<
    Option<RawPcmDescriptor>,
    &'static str,
>)
    ensures
        match raw_description(*flags, mask) {
            Ok(expected) => descriptor == Ok::<Option<RawPcmDescriptor>, &'static str>(expected),
            Err(expected) => descriptor matches Err(text) && text@ == expected,
        },
{
    if !flags.raw {
        if flags.sample_rate.is_some() || flags.channels.is_some() || flags.bits_per_sample.is_some()
            || flags.container_bits.is_some() || flags.byte_order.is_some()
            || flags.channel_mask.is_some() {
            return Err("raw PCM flags require --raw");
        }
        return Ok(None);
    }
    let sample_rate: u32 = match flags.sample_rate {
        Some(value) => value,
        None => return Err("--raw requires --sample-rate"),
    };
    let channels: u8 = match flags.channels {
        Some(value) => value,
        None => return Err("--raw requires --channels"),
    };
    let bits_per_sample: u8 = match flags.bits_per_sample {
        Some(value) => value,
        None => return Err("--raw requires --bits-per-sample"),
    };
    let container_bits: u8 = match flags.container_bits {
        Some(value) => value,
        None => return Err("--raw requires --container-bits"),
    };
    let byte_order = match flags.byte_order {
        Some(value) => value,
        None => return Err("--raw requires --byte-order"),
    };
    let channel_mask: Option<u32> = match mask {
        Some(Some(mask)) => Some(mask),
        Some(None) => return Err("invalid --channel-mask value"),
        None => None,
    };
    if 3 <= channels && channels <= 8 && channel_mask.is_none() {
        return Err("--raw 3..=8 channel input requires --channel-mask");
    }
    Ok(
        Some(
            RawPcmDescriptor {
                sample_rate,
                channels,
                valid_bits_per_sample: bits_per_sample,
                container_bits_per_sample: container_bits,
                byte_order,
                channel_mask,
            },
        ),
    )
}

/// The raw samples that flags describe.
pub fn build_raw_descriptor(flags: &RawFlags) -> (descriptor: std::result::Result<
    Option<RawPcmDescriptor>,
    &'static str,
>)
    ensures
        ({
            let mask = match flags.channel_mask {
                Some(text) => Some(mask_in_text(trimmed_text(text@))),
                None => None,
            };
            match raw_description(*flags, mask) {
                Ok(expected) => descriptor == Ok::<Option<RawPcmDescriptor>, &'static str>(
                    expected,
                ),
                Err(expected) => descriptor matches Err(text) && text@ == expected,
            }
        }),
{
    let mask: Option<Option<u32>> = match &flags.channel_mask {
        Some(text) => Some(parse_channel_mask(text.as_str())),
        None => None,
    };
    describe_raw(flags, mask)
}

} // verus!
