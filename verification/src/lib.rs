//! Decoding of amateur satellites: channel codes, frame formats, image reassembly,
//! satellite definitions, and the decisions of a receiver.
//!
//! Measuring the signal itself (demodulation, tones, levels) is left to the caller;
//! what comes in here are bits, bytes and the answers to questions about tones.

pub mod gf256;
pub mod gf_tables;
pub mod poly;
pub mod rs_code;
pub mod rs_lemmas;
pub mod rs_laws;
pub mod model;
pub mod rs_engine;
pub mod reed_solomon;
pub mod rs_field_laws;
pub mod rs8;
pub mod viterbi;
pub mod golay;
pub mod golay_code;
pub mod text;
pub mod crc32c;
pub mod ccsds_randomizer;
pub mod pn9;
pub mod fec;
pub mod bits;
pub mod slices;
pub mod geoscan;
pub mod ax25;
pub mod ax25_laws;
pub mod ao40;
pub mod ccsds_concat;
pub mod ax100;
pub mod ax100_laws;
pub mod ax100_frame_laws;
pub mod delivery_laws;
pub mod ssdv;
pub mod ssdv_laws;
pub mod jpeg_huffman;
pub mod jpeg_code_laws;
pub mod jpeg_writer;
pub mod ssdv_jpeg;
pub mod ssdv_jpeg_laws;
pub mod jpeg_scan_laws;
pub mod satellite;
pub mod satellite_laws;
pub mod bitmap;
pub mod image;
pub mod image_laws;
pub mod image_intake_laws;
pub mod varicode_table;
pub mod psk_varicode;
pub mod psk_laws;
pub mod morse;
pub mod cw;
pub mod cw_laws;
pub mod sstv;
pub mod sstv_laws;
pub mod jpeg_frames;
pub mod jpeg_file_laws;
pub mod render;
pub mod words;
pub mod word_laws;
pub mod rows;
pub mod row_laws;
pub mod receiver;
pub mod receiver_laws;
pub mod session;
pub mod session_laws;
pub mod ordering;
pub mod labels;
pub mod gallery;
pub mod render_laws;

pub use ao40::{ao40_syncword_bits, Ao40FecDecoder, Ao40FecEncoder, Ao40Frame};
pub use ax100::{ax100_syncword, Ax100Decoder, Ax100Flags, Ax100Frame, Ax100Mode};
pub use ax25::{Ax25Decoder, Ax25Frame, Callsign};
pub use cw::{CwAnalyzer, CwAnalyzerConfig, DEFAULT_ENVELOPE_RATE_HZ};
pub use fec::{ReedSolomon, Viterbi};
pub use geoscan::{
    GeoscanDecoder, GeoscanFrame, GEOSCAN_CRC_LEN, GEOSCAN_FRAME_LEN, GEOSCAN_PAYLOAD_LEN,
};
pub use image::{
    build as build_image_reassembler, GeoscanImageReassembler, ImageDecoder, ImageReassembler,
    ImageSnapshot, ImageStream, PacketUpdate, PixelFormat,
};
pub use pn9::Pn9Whitener;
pub use ssdv::{SsdvDecodeError, SsdvDecoder, SsdvPacket, SsdvPacketKind, SSDV_PKT_SIZE};
pub use sstv::{SstvImage, SstvMode};
