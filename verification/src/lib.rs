//! FLAC encoding and decoding, PCM containers and metadata.
pub mod acceptance_laws;
pub mod aiff;
pub mod aiff_output;
pub mod aiff_reader;
pub mod aiff_round_trip;
pub mod bit_reader;
pub mod bit_writer;
pub mod bits;
pub mod bitstream_laws;
pub mod byte_reader;
pub mod bytes;
pub mod caf;
pub mod caf_output;
pub mod caf_reader;
pub mod caf_round_trip;
pub mod chunk_laws;
pub mod chunk_queue;
pub mod cli_laws;
pub mod cli_modes;
pub mod cli_plan;
pub mod cli_text;
pub mod config;
pub mod container_laws;
pub mod convenience;
pub mod crc;
pub mod cuesheet;
pub mod decode;
pub mod decode_output;
pub mod display_laws;
pub mod display_width;
pub mod draft;
pub mod encodability;
pub mod encode_frames;
pub mod encode_pipeline;
pub mod encode_session;
pub mod encoder;
pub mod error;
pub mod flac_bytes;
pub mod flac_laws;
pub mod flac_reader;
pub mod flac_writer;
pub mod float;
pub mod format_laws;
pub mod fourcc;
pub mod frame;
pub mod fxmd;
pub mod frame_decoding;
pub mod frame_header;
pub mod frame_reading;
pub mod hex;
pub mod input;
pub mod input_laws;
pub mod level;
pub mod lossless;
pub mod md5;
pub mod metadata;
pub mod metadata_laws;
pub mod names;
pub mod pcm;
pub mod pcm_output;
pub mod plan;
pub mod prediction;
pub mod progress;
pub mod progress_batch;
pub mod progress_lines;
pub mod progress_renderer;
pub mod raw;
pub mod reading;
pub mod recompress;
pub mod recompress_laws;
pub mod residual;
pub mod restoring;
pub mod rice;
pub mod riff_chunks;
pub mod search_laws;
pub mod seektable;
pub mod sample_source;
pub mod selection;
pub mod session_laws;
pub mod size_laws;
pub mod storage_laws;
pub mod stream;
pub mod stream_info;
pub mod stream_laws;
pub mod subframe;
pub mod subframe_reading;
pub mod subframe_search;
pub mod tag_laws;
pub mod text;
pub mod vorbis;
pub mod wav;
pub mod wav_laws;
pub mod wav_output;
pub mod wav_reader;
pub mod wav_round_trip;
pub mod written_laws;

pub use aiff_reader::{AiffPcmDescriptor, AiffPcmStream, AiffReader};
pub use byte_reader::ByteReader;
pub use caf_reader::{CafPcmStream, CafReader};
pub use config::{DecodeBuilder, DecodeConfig, EncoderBuilder, EncoderConfig};
pub use convenience::{encode_bytes, encode_bytes_with_config};
pub use decode::{DecodeSource, Decoder};
pub use decode_output::{DecodePcmStream, DecodeSummary};
pub use encoder::{EncodeSummary, Encoder};
pub use error::{Error, Result};
pub use flac_bytes::{
    decode_bytes, decode_bytes_with_config, recompress_bytes, recompress_bytes_with_config,
    recompress_with_progress,
};
pub use flac_reader::{
    inspect_flac_total_samples, read_flac_reader, read_flac_reader_with_options, FlacReader,
};
pub use input::{inspect_wav_total_samples, PcmReader, WavReaderOptions};
pub use metadata::Metadata;
pub use pcm::{PcmContainer, PcmSpec, PcmStream};
pub use pcm_output::write_pcm_stream;
pub use progress::{ProgressSink, ProgressSnapshot};
pub use raw::{RawPcmByteOrder, RawPcmDescriptor, RawPcmStream};
pub use recompress::{
    FlacReaderOptions, RecompressConfig, RecompressMode, RecompressPhase, RecompressProgress,
};
pub use stream::{EncodePcmStream, EncodeSource};
pub use stream_info::StreamInfo;
pub use wav_reader::{WavPcmStream, WavReader};
