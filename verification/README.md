# flacx

A FLAC encoder and decoder with its PCM containers, written in Verus: the functions of the
library carry contracts that Verus proves, apart from a few wrappers around calls into
`std`, `bitstream-io` and `unicode-width`, whose contracts are taken on trust.

- `src/` is the library.
  - Containers: `wav*`, `aiff*`, `caf*`, `raw`, `input`, `pcm`, `pcm_output`, `riff_chunks`.
  - Frames: `prediction`, `rice`, `residual`, `subframe*`, `frame*`, `restoring`, `crc`,
    `bit_writer`, `bit_reader`.
  - Streams: `plan`, `encode_*`, `encoder`, `flac_*`, `stream*`, `md5`, `decode*`.
  - Metadata: `metadata`, `draft`, `fxmd`, `vorbis`, `cuesheet`, `seektable`.
  - Command line: `cli_*`, `display_width`, `progress*`, `config`, `recompress`.
  - Laws that span modules: `reading`, `frame_reading`, `lossless`, `encodability`,
    `wav_round_trip`, `aiff_round_trip`, `caf_round_trip`, `wav_laws`, `stream_laws`,
    `input_laws`, `metadata_laws`, `flac_laws`, `recompress_laws`.
- `tests/` runs the library, with a small FLAC reader of its own.
- `app/` is the program around the library: arguments, files, threads, the terminal, and
  the estimation of linear predictors, which computes with floating-point numbers.

Frames hold one to eight channels.
