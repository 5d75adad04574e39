//! Writing PCM containers whose family is only known at run time.

use vstd::prelude::*;

use crate::aiff_output::{aiff_file, file_head, output_envelope, write_aiff_with_metadata_and_md5, AiffContainer, AiffStreamWriter};
use crate::caf_output::{caf_file, streamed_head, write_caf, CafStreamWriter};
use crate::error::{ErrorView, Result};
use crate::md5::{digest_envelope, streaminfo_digest, StreaminfoMd5};
use crate::metadata::{empty_metadata, Metadata, MetadataView};
use crate::pcm::{encoded_samples, stored_front, ByteOrder, PcmContainer, PcmSpec, PcmStream};
use crate::sample_source::frame_size;
use crate::wav::{chunk_padding, WaveKind};
use crate::wav_output::{streamed_wave_head, wav_file, write_wav_with_metadata_and_md5, zeros, WavStreamWriter};

verus! {

/// The family that stands for an output container.
#[derive(Debug, Clone, Copy, PartialEq, Eq, Structural)]
pub enum OutputFamily {
    Wave(WaveKind),
    Aiff(AiffContainer),
    Caf,
}

/// The family that stands for an output container: a RIFF/WAVE file unless another one is
/// asked for.
pub open spec fn output_family(container: PcmContainer) -> OutputFamily {
    match container {
        PcmContainer::Auto => OutputFamily::Wave(WaveKind::Riff),
        PcmContainer::Wave => OutputFamily::Wave(WaveKind::Riff),
        PcmContainer::Rf64 => OutputFamily::Wave(WaveKind::Rf64),
        PcmContainer::Wave64 => OutputFamily::Wave(WaveKind::Wave64),
        PcmContainer::Aiff => OutputFamily::Aiff(AiffContainer::Aiff),
        PcmContainer::Aifc => OutputFamily::Aiff(AiffContainer::AifcNone),
        PcmContainer::Caf => OutputFamily::Caf,
    }
}

/// The family that stands for an output container.
pub fn family_for(container: PcmContainer) -> (family: OutputFamily)
    ensures
        family == output_family(container),
{
    match container {
        PcmContainer::Auto => OutputFamily::Wave(WaveKind::Riff),
        PcmContainer::Wave => OutputFamily::Wave(WaveKind::Riff),
        PcmContainer::Rf64 => OutputFamily::Wave(WaveKind::Rf64),
        PcmContainer::Wave64 => OutputFamily::Wave(WaveKind::Wave64),
        PcmContainer::Aiff => OutputFamily::Aiff(AiffContainer::Aiff),
        PcmContainer::Aifc => OutputFamily::Aiff(AiffContainer::AifcNone),
        PcmContainer::Caf => OutputFamily::Caf,
    }
}

/// The file with the given samples, or why there is none.
pub open spec fn container_file(
    family: OutputFamily,
    spec: PcmSpec,
    samples: Seq<i32>,
    metadata: MetadataView,
) -> std::result::Result<Seq<u8>, ErrorView> {
    match family {
        OutputFamily::Wave(kind) => wav_file(kind, spec, samples, metadata),
        OutputFamily::Aiff(container) => aiff_file(spec, samples, metadata, container),
        OutputFamily::Caf => caf_file(spec, samples, metadata),
    }
}

/// Appends the file with the given samples, and returns the digest of the samples.
pub fn write_container(
    output: &mut Vec<u8>,
    family: OutputFamily,
    spec: PcmSpec,
    samples: &[i32],
    metadata: &Metadata,
) -> (digest: Result<Vec<u8>>)
    requires
        samples@.len() * 32 <= u64::MAX,
    ensures
        match container_file(family, spec, samples@, metadata@) {
            Ok(file) => {
                &&& final(output)@ == old(output)@ + file
                &&& digest matches Ok(bytes) && streaminfo_digest(spec, samples@) == Ok::<
                    Seq<u8>,
                    ErrorView,
                >(bytes@)
            },
            Err(expected) => {
                &&& final(output)@ == old(output)@
                &&& digest matches Err(error) && error@ == expected
            },
        },
{
    match family {
        OutputFamily::Wave(kind) => {
            write_wav_with_metadata_and_md5(output, kind, spec, samples, metadata)
        },
        OutputFamily::Aiff(container) => {
            write_aiff_with_metadata_and_md5(output, spec, samples, metadata, container)
        },
        OutputFamily::Caf => write_caf(output, spec, samples, metadata),
    }
}

/// Write a typed [`PcmStream`] out to a supported PCM-container family.
pub fn write_pcm_stream(output: &mut Vec<u8>, stream: &PcmStream, container: PcmContainer) -> (result:
    Result<()>)
    requires
        stream.samples@.len() * 32 <= u64::MAX,
    ensures
        match container_file(
            output_family(container),
            stream.spec,
            stream.samples@,
            empty_metadata(),
        ) {
            Ok(file) => result is Ok && final(output)@ == old(output)@ + file,
            Err(expected) => {
                &&& final(output)@ == old(output)@
                &&& result matches Err(error) && error@ == expected
            },
        },
{
    let family = family_for(container);
    let metadata = Metadata::default();
    match write_container(output, family, stream.spec, stream.samples.as_slice(), &metadata) {
        Ok(_) => Ok(()),
        Err(error) => Err(error),
    }
}

/// The order of the bytes of a sample in a family.
pub open spec fn family_order(family: OutputFamily) -> ByteOrder {
    match family {
        OutputFamily::Wave(_) => ByteOrder::Wave,
        OutputFamily::Aiff(_) => ByteOrder::Big,
        OutputFamily::Caf => ByteOrder::Little,
    }
}

/// What a file whose samples come piece by piece starts with, or why there is none.
pub open spec fn family_head(family: OutputFamily, spec: PcmSpec, metadata: MetadataView)
    -> std::result::Result<Seq<u8>, ErrorView> {
    match family {
        OutputFamily::Wave(kind) => streamed_wave_head(kind, spec, metadata),
        OutputFamily::Aiff(container) => match output_envelope(spec) {
            Err(error) => Err(error),
            Ok(envelope) => file_head(
                spec,
                envelope,
                metadata,
                container,
                (spec.total_samples * frame_size(envelope)) as nat,
            ),
        },
        OutputFamily::Caf => streamed_head(spec, metadata),
    }
}

/// What a file whose samples come piece by piece ends with.
pub open spec fn family_tail(family: OutputFamily, spec: PcmSpec) -> Seq<u8> {
    match family {
        OutputFamily::Wave(kind) => zeros(
            chunk_padding(
                kind,
                (spec.total_samples * frame_size(digest_envelope(spec))) as nat,
            ),
        ),
        OutputFamily::Aiff(_) => if (spec.total_samples * frame_size(digest_envelope(spec))) % 2
            != 0 {
            seq![0u8]
        } else {
            Seq::empty()
        },
        OutputFamily::Caf => Seq::empty(),
    }
}

/// The writer of a family.
#[derive(Debug, Clone)]
pub enum FamilyWriter {
    Wave(WavStreamWriter),
    Aiff(AiffStreamWriter),
    Caf(CafStreamWriter),
}

/// Writes a container whose samples come piece by piece.
#[derive(Debug, Clone)]
pub struct StreamingPcmWriter {
    family: OutputFamily,
    spec: PcmSpec,
    writer: FamilyWriter,
}

impl StreamingPcmWriter {
    /// The family of the container.
    pub closed spec fn family(&self) -> OutputFamily {
        self.family
    }

    /// The description of the samples.
    pub closed spec fn description(&self) -> PcmSpec {
        self.spec
    }

    /// The bytes written so far.
    pub closed spec fn written(&self) -> Seq<u8> {
        match self.writer {
            FamilyWriter::Wave(writer) => writer.written(),
            FamilyWriter::Aiff(writer) => writer.written(),
            FamilyWriter::Caf(writer) => writer.written(),
        }
    }

    /// The writer keeps its own rules.
    pub closed spec fn is_valid(&self) -> bool {
        match (self.writer, self.family) {
            (FamilyWriter::Wave(writer), OutputFamily::Wave(kind)) => {
                &&& writer.layout() == digest_envelope(self.spec)
                &&& writer.pads() == chunk_padding(
                    kind,
                    (self.spec.total_samples * frame_size(digest_envelope(self.spec))) as nat,
                )
                &&& writer.pads() < 8
            },
            (FamilyWriter::Aiff(writer), OutputFamily::Aiff(_)) => {
                &&& writer.layout() == digest_envelope(self.spec)
                &&& writer.pads() == (family_tail(self.family, self.spec).len() > 0)
            },
            (FamilyWriter::Caf(writer), OutputFamily::Caf) => writer.layout() == digest_envelope(
                self.spec,
            ),
            _ => false,
        }
    }

    /// Starts a file behind the bytes that `output` holds.
    pub fn new(output: Vec<u8>, family: OutputFamily, spec: PcmSpec, metadata: &Metadata) -> (writer:
        Result<Self>)
        ensures
            match family_head(family, spec, metadata@) {
                Err(expected) => writer matches Err(error) && error@ == expected,
                Ok(head) => writer matches Ok(found) && {
                    &&& found.is_valid()
                    &&& found.family() == family
                    &&& found.description() == spec
                    &&& found.written() == output@ + head
                },
            },
    {
        let writer = match family {
            OutputFamily::Wave(kind) => match WavStreamWriter::new(output, kind, spec, metadata) {
                Ok(writer) => FamilyWriter::Wave(writer),
                Err(error) => return Err(error),
            },
            OutputFamily::Aiff(container) => match AiffStreamWriter::new(
                output,
                spec,
                metadata,
                container,
            ) {
                Ok(writer) => FamilyWriter::Aiff(writer),
                Err(error) => return Err(error),
            },
            OutputFamily::Caf => match CafStreamWriter::new(output, spec, metadata) {
                Ok(writer) => FamilyWriter::Caf(writer),
                Err(error) => return Err(error),
            },
        };
        Ok(StreamingPcmWriter { family, spec, writer })
    }

    /// Writes the next samples, and adds them to a digest.
    pub fn write_samples_and_update_md5(&mut self, samples: &[i32], md5: &mut StreaminfoMd5) -> (result:
        Result<()>)
        requires
            old(self).is_valid(),
            old(md5).is_valid(),
            old(md5).layout() == digest_envelope(old(self).description()),
            old(md5).digested().len() + 4 * samples@.len() <= u64::MAX,
        ensures
            final(self).is_valid(),
            final(self).family() == old(self).family(),
            final(self).description() == old(self).description(),
            final(md5).is_valid(),
            final(md5).layout() == old(md5).layout(),
            match encoded_samples(
                samples@,
                old(md5).layout(),
                family_order(old(self).family()),
            ) {
                Err(expected) => {
                    &&& result matches Err(error) && error@ == expected
                    &&& final(self).written() == old(self).written() + stored_front(
                        samples@,
                        old(md5).layout(),
                        family_order(old(self).family()),
                    )
                },
                Ok(bytes) => match encoded_samples(samples@, old(md5).layout(), ByteOrder::Little) {
                    Err(expected) => result matches Err(error) && error@ == expected,
                    Ok(digested) => {
                        &&& result is Ok
                        &&& final(self).written() == old(self).written() + bytes
                        &&& final(md5).digested() == old(md5).digested() + digested
                    },
                },
            },
    {
        let written = match &mut self.writer {
            FamilyWriter::Wave(writer) => writer.write_samples(samples),
            FamilyWriter::Aiff(writer) => writer.write_samples(samples),
            FamilyWriter::Caf(writer) => writer.write_samples(samples),
        };
        match written {
            Ok(()) => md5.update_samples(samples),
            Err(error) => Err(error),
        }
    }

    /// The number of bytes written so far.
    pub fn bytes_written(&self) -> (count: usize)
        ensures
            count == self.written().len(),
    {
        match &self.writer {
            FamilyWriter::Wave(writer) => writer.bytes_written(),
            FamilyWriter::Aiff(writer) => writer.bytes_written(),
            FamilyWriter::Caf(writer) => writer.bytes_written(),
        }
    }

    /// Gives up the file and returns what was written of it.
    pub fn into_unfinished(self) -> (bytes: Vec<u8>)
        ensures
            bytes@ == self.written(),
    {
        match self.writer {
            FamilyWriter::Wave(writer) => writer.into_unfinished(),
            FamilyWriter::Aiff(writer) => writer.into_unfinished(),
            FamilyWriter::Caf(writer) => writer.into_unfinished(),
        }
    }

    /// Ends the file and returns all bytes.
    pub fn finish(self) -> (file: Result<Vec<u8>>)
        requires
            self.is_valid(),
        ensures
            file matches Ok(bytes) && bytes@ == self.written() + family_tail(
                self.family(),
                self.description(),
            ),
    {
        proof {
            assert(self.written() + Seq::<u8>::empty() == self.written());
        }
        match self.writer {
            FamilyWriter::Wave(writer) => writer.finish(),
            FamilyWriter::Aiff(writer) => writer.finish(),
            FamilyWriter::Caf(writer) => writer.finish(),
        }
    }
}

} // verus!
