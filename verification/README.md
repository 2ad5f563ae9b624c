# OpenHoshimi

A decoder for amateur satellites, written in Verus: the codecs, the image
reassembly, the satellite definitions and the decisions of the receiver are
executable Rust whose behaviour is stated in contracts and proved.

## Layout

`src/` is the verified library.

- Channel codes: `gf256`, `gf_tables`, `poly`, `rs_code`, `rs_lemmas`, `rs_laws`,
  `rs_engine`, `reed_solomon`, `rs8`, `viterbi`, `golay`, `golay_code`, `crc32c`,
  `ccsds_randomizer`, `pn9`, `fec`.
- Frame formats: `ax25`, `ao40`, `ax100`, `ccsds_concat`, `geoscan`, `ssdv`.
- Images: `bitmap`, `image`, `image_laws`, `jpeg_huffman`, `jpeg_writer`, `ssdv_jpeg`,
  `ssdv_jpeg_laws`, `jpeg_frames`, `render`, `gallery`, `sstv`.
- Text modes: `varicode_table`, `psk_varicode`, `morse`, `cw`.
- Definitions: `model`, `satellite`.
- The receiver: `session` (threads, step by step), `receiver` (the state of the
  window), `rows` (the frame table), `ordering`, `labels`.
- Helpers: `bits`, `slices`, `text`, `words`.

`law_*` proof functions state what holds across functions, such as what a decoder
gives back of what an encoder wrote.

`tests/` runs the library. `app/` is the desktop program around it: windows, files,
threads, and everything in floating point. Its signal-processing backend is a trait;
without an implementation linked in, the program shows definitions and refuses to
receive.

## What is trusted

Three functions outside the library are believed and not proved: `String::push`
(`src/text.rs`), the decoder of the crate `jpeg-decoder` and the encoder of the crate
`png` (both in `src/render.rs`).
