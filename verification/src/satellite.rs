//! Satellite definitions and their validation.
//!
//! Everything that distinguishes one amateur satellite from another - its
//! NORAD ID, its downlink frequencies, the modulation and framing of each
//! downlink, and the layout of the telemetry inside each framing - is data of
//! the types in this module; nothing in here is satellite-specific.
//!
//! Calibration and modem constants are kept as the bit patterns of their
//! IEEE-754 encoding.
use vstd::prelude::*;
use vstd::string::{StrSliceExecFns, StringExecFns};
use crate::model::ConfigError;
use crate::text::{decimal, decimal_string};

verus! {

/// An IEEE-754 binary32 number, by its bits.
#[derive(Debug, Clone, Copy, PartialEq, Eq, Structural)]
pub struct Real32 {
    pub bits: u32,
}

/// An IEEE-754 binary64 number, by its bits.
#[derive(Debug, Clone, Copy, PartialEq, Eq, Structural)]
pub struct Real64 {
    pub bits: u64,
}

impl Real32 {
    /// The number is a NaN: all exponent bits are set and a fraction bit is.
    pub open spec fn nan(self) -> bool {
        self.bits % 0x8000_0000 > 0x7F80_0000
    }

    /// The number is neither infinite nor a NaN.
    pub open spec fn finite(self) -> bool {
        self.bits % 0x8000_0000 < 0x7F80_0000
    }

    /// The number is zero or less.
    pub open spec fn not_positive(self) -> bool {
        !self.nan() && (self.bits == 0 || self.bits >= 0x8000_0000)
    }

    /// The number lies between zero and one.
    pub open spec fn in_unit_range(self) -> bool {
        self.bits <= 0x3F80_0000 || self.bits == 0x8000_0000
    }

    /// Whether the number is neither infinite nor a NaN.
    pub fn is_finite(self) -> (r: bool)
        ensures
            r == self.finite(),
    {
        self.bits % 0x8000_0000 < 0x7F80_0000
    }

    /// Whether the number is zero or less.
    pub fn is_not_positive(self) -> (r: bool)
        ensures
            r == self.not_positive(),
    {
        self.bits % 0x8000_0000 <= 0x7F80_0000 && (self.bits == 0 || self.bits >= 0x8000_0000)
    }

    /// Whether the number lies between zero and one.
    pub fn is_in_unit_range(self) -> (r: bool)
        ensures
            r == self.in_unit_range(),
    {
        self.bits <= 0x3F80_0000 || self.bits == 0x8000_0000
    }
}

/// Top-level structure of a satellite TOML file.
///
/// # Schema
///
/// ```toml
/// [satellite]
/// name = "AO-73"
/// aliases = ["FUNcube-1"]
/// norad_id = 39444
///
/// [[downlink]]
/// label = "1k2 BPSK beacon"
/// freq_hz = 145_935_000
/// modulation = "DBPSK"
/// baudrate = 1200
/// framing = "AO40_FEC"
/// telemetry_schema = "funcube_1"
///
/// [telemetry.funcube_1]
///
/// [[telemetry.funcube_1.field]]
/// name = "bat_voltage"
/// group = "eps"
/// offset = 2
/// length = 2
/// endian = "big"
/// scale = 0.001
/// unit = "V"
/// warn_below = 6.5
/// warn_above = 8.4
/// ```
#[derive(Debug)]
pub struct SatelliteDefinition {
    /// Identifying section: name, aliases, NORAD ID.
    pub satellite: SatelliteHeader,
    /// One entry per distinct downlink the satellite transmits.
    pub downlinks: Vec<DownlinkDef>,
    /// Each `telemetry_schema` name (referenced by a downlink) with its field
    /// layout. A name stands here once.
    pub telemetry: Vec<(String, TelemetrySchemaDef)>,
}

/// No two schemas have the same name.
pub open spec fn names_once(schemas: Seq<(String, TelemetrySchemaDef)>) -> bool {
    forall|i: int, j: int| 0 <= i < j < schemas.len() ==> schemas[i].0@ != schemas[j].0@
}

impl SatelliteDefinition {
    /// The schemas are a map: each name stands once.
    pub open spec fn wf(&self) -> bool {
        names_once(self.telemetry@)
    }
}

/// Identifying header of a satellite definition.
#[derive(Debug)]
pub struct SatelliteHeader {
    /// Primary display name (e.g. `"AO-73"`).
    pub name: String,
    /// Optional alternative names (e.g. `["FUNcube-1"]`).
    pub aliases: Vec<String>,
    /// NORAD catalog number, used as the satellite ID on decoded frames.
    pub norad_id: u32,
}

/// One downlink (a single carrier on a single frequency) of a satellite.
#[derive(Debug)]
pub struct DownlinkDef {
    /// Short human-readable label (e.g. `"1k2 BPSK beacon"`).
    pub label: String,
    /// Centre frequency in Hertz.
    pub freq_hz: u64,
    /// Modulation, e.g. `"DBPSK"`, `"AFSK"`, `"GMSK"`, `"FSK"`.
    pub modulation: String,
    /// Symbol rate in baud.
    pub baudrate: u32,
    /// Framing protocol, e.g. `"AX25"`, `"AO40_FEC"`, `"GOMSPACE_AX100"`.
    pub framing: String,
    /// Name of a telemetry schema in [`SatelliteDefinition::telemetry`].
    /// Optional - some downlinks (e.g. voice repeaters) carry no telemetry.
    pub telemetry_schema: Option<String>,
    /// Structured modem configuration for this downlink.
    pub modem: Option<ModemDef>,
    /// Optional line coding transform after demodulation.
    pub line_coding: Option<LineCodingDef>,
    /// Optional bit descrambler after line decoding.
    pub descrambler: Option<DescramblerDef>,
    /// Structured framer configuration.
    pub framer: Option<FramerDef>,
    /// Optional forward-error-correction stage.
    pub fec: Option<FecDef>,
    /// Structured frame decoder configuration.
    pub codec: Option<CodecDef>,
    /// Optional image-frame reassembly stage. Set when the downlink
    /// carries images split across many small frames (e.g. STRATOSAT-TK-1
    /// thumbnails).
    pub image: Option<ImageDef>,
}

/// Modem configuration for a downlink.
#[allow(inconsistent_fields)]
#[derive(Debug)]
pub enum ModemDef {
    /// Bell 202 audio AFSK.
    Afsk {
        /// Mark tone frequency in Hz.
        mark_hz: Real32,
        /// Space tone frequency in Hz.
        space_hz: Real32,
    },
    /// Binary continuous-phase modulation over IQ.
    Cpm {
        /// CPM family mode.
        mode: CpmModeDef,
        /// Modulation index.
        modulation_index: Option<Real32>,
        /// Frequency offset correction in Hz.
        frequency_offset_hz: Real32,
        /// Gaussian BT product for GFSK/GMSK.
        gaussian_bt: Option<Real32>,
        /// Decode differential encoding after hard slicing.
        differential: bool,
        /// Invert hard symbol decisions.
        invert: bool,
        /// Swap I and Q before demodulation.
        swap_iq: bool,
    },
    /// Linear phase modulation over IQ.
    Linear {
        /// Linear modulation mode.
        mode: LinearModeDef,
        /// Frequency offset correction in Hz, applied before symbol slicing.
        frequency_offset_hz: Real32,
        /// Decode differential encoding after hard slicing.
        differential: bool,
        /// Invert hard symbol decisions.
        invert: bool,
        /// Swap I and Q before demodulation.
        swap_iq: bool,
        /// Closed-loop carrier tracker bandwidth normalized to the symbol
        /// rate. `0.0` keeps the static frequency correction only.
        carrier_loop_bandwidth: Real32,
        /// Frequency-locked loop bandwidth normalized to the symbol rate.
        /// Drives a Kay-style cross-product discriminator on squared symbols
        /// for wide pull-in over Doppler. `0.0` disables the FLL and leaves
        /// only the phase-locked Costas tracker active.
        frequency_loop_bandwidth: Real32,
        /// Maximum absolute offset the NCO is allowed to slew from the
        /// static `frequency_offset_hz` baseline, in Hz. `0.0` selects a
        /// conservative default of one symbol rate. Increase this for LEO
        /// passes whose Doppler swing exceeds the default.
        nco_max_offset_hz: Real32,
        /// Root-raised-cosine matched filter roll-off factor in `(0.0, 1.0]`.
        /// `0.0` disables matched filtering and falls back to a boxcar
        /// integrate-and-dump symbol filter.
        matched_filter_rolloff: Real32,
        /// Matched filter span in symbol periods. Used only when
        /// `matched_filter_rolloff > 0`. `0` selects a default (six symbols).
        matched_filter_span_symbols: usize,
    },
    /// LoRa modem placeholder.
    Lora {
        /// LoRa spreading factor.
        spreading_factor: u8,
        /// LoRa bandwidth in Hz.
        bandwidth_hz: u32,
    },
    /// Four-level FSK modem placeholder.
    FourFsk {
        /// Frequency offsets for the four symbols, in Hz.
        freq_offsets_hz: [Real32; 4],
    },
}

/// CPM modulation mode.
#[derive(Debug, Clone, Copy, PartialEq, Eq, Structural)]
pub enum CpmModeDef {
    /// Binary FSK.
    Fsk,
    /// Minimum-shift keying.
    Msk,
    /// Gaussian FSK.
    Gfsk,
    /// Gaussian MSK.
    Gmsk,
}

/// Linear modulation mode.
#[derive(Debug, Clone, Copy, PartialEq, Eq, Structural)]
pub enum LinearModeDef {
    /// Binary PSK.
    Bpsk,
    /// Differential binary PSK.
    Dbpsk,
    /// Quadrature PSK.
    Qpsk,
    /// Offset quadrature PSK.
    Oqpsk,
}

/// Line coding transform configuration.
#[derive(Debug)]
pub enum LineCodingDef {
    /// NRZI line coding.
    Nrzi,
    /// NRZ-S line coding placeholder.
    Nrzs,
    /// NRZ-M line coding placeholder.
    Nrzm,
}

/// Descrambler configuration.
#[derive(Debug)]
pub enum DescramblerDef {
    /// G3RUH self-synchronising descrambler.
    G3ruh,
    /// CCSDS randomizer descrambler.
    Ccsds,
}

/// Framer configuration.
#[derive(Debug)]
pub enum FramerDef {
    /// HDLC flag-based framing.
    Hdlc,
    /// AO-40 distributed sync framing.
    Ao40 {
        /// Maximum number of bit errors allowed in the distributed sync
        /// vector.
        threshold: usize,
    },
    /// Fixed syncword followed by a fixed-size payload.
    Syncword {
        /// Syncword bits as ASCII `0` and `1` characters.
        syncword: String,
        /// Maximum number of bit errors allowed in the syncword.
        threshold: usize,
        /// Number of payload bits to collect after syncword detection.
        payload_bits: usize,
    },
    /// GOMspace AX100 ASM-prefixed framing. Hunts the 32-bit attached sync
    /// marker `0x930b_51de`, then emits a fixed 258-byte (3-byte Golay header
    /// plus 255-byte CCSDS-randomised RS codeword) payload that the AX100
    /// codec decodes.
    Ax100Asm {
        /// Maximum number of bit errors allowed in the 32-bit ASM.
        threshold: usize,
    },
}

/// Forward-error-correction stage configuration.
#[derive(Debug)]
pub enum FecDef {
    /// Reed-Solomon codeword decoder.
    ReedSolomon {
        /// Interleave factor.
        interleave: usize,
    },
    /// AO-40 FEC decoder placeholder for the full chain.
    Ao40,
    /// GOMspace AX100 FEC wrapper.
    Ax100,
}

/// Frame decoder configuration.
#[derive(Debug)]
pub enum CodecDef {
    /// AX.25 frame decoder.
    Ax25,
    /// AO-40 FEC payload decoder.
    Ao40Fec,
    /// GOMspace AX100 decoder.
    GomspaceAx100 {
        /// AX100 decoder mode.
        mode: Ax100ModeDef,
    },
    /// CCSDS frame decoder placeholder.
    Ccsds,
    /// FX.25 frame decoder placeholder.
    Fx25,
    /// Geoscan custom frame decoder (CC11xx PN9 descrambling +
    /// CC11xx CRC16 over a fixed-size payload).
    Geoscan,
    /// SSDV (Slow-Scan Digital Video) packet decoder. Operates on
    /// 256-byte packets carrying a JPEG MCU slice with optional
    /// Reed-Solomon parity. See [`crate::ssdv`].
    Ssdv,
    /// Unknown or unsupported frame decoder.
    Unknown,
}

/// GOMspace AX100 decoder mode.
#[derive(Debug, Clone, Copy, PartialEq, Eq, Structural)]
pub enum Ax100ModeDef {
    /// AX100 Reed-Solomon mode.
    ReedSolomon,
    /// AX100 ASM and Golay mode with CCSDS scrambling and RS(255,223).
    AsmGolay,
    /// AX100 ASM and Golay mode with CCSDS scrambling and a CRC-32C
    /// trailer, without Reed-Solomon. Used by the GreenCube / IO-117
    /// digipeater downlink.
    AsmGolayCrc,
}

/// Image-frame reassembly configuration.
///
/// When a downlink carries images split across many small frames, the
/// runtime hands each decoded payload to a stateful reassembler that
/// drops it into the correct slot of a per-image canvas.
#[derive(Debug)]
pub enum ImageDef {
    /// Geoscan custom protocol: each frame begins with a fixed
    /// `header_signature`, followed by a 16-bit `packet_offset` field
    /// (byte offset into the linear image buffer) and a fixed-length raw
    /// chunk. The protocol does not carry an explicit image id; new
    /// images are detected by the offset returning to zero (with the
    /// chunk starting with the `decoder`'s start-of-image marker, e.g.
    /// the JPEG `FF D8` SOI).
    Geoscan {
        /// Header bytes that must appear at the start of an image frame's
        /// payload. Whitespace is ignored. Frames whose first
        /// `header_signature.len()/2` bytes do not match are skipped by
        /// the reassembler.
        header_signature: String,
        /// Byte location, length, and endianness of the packet-offset
        /// field inside the frame payload.
        offset_field: ImageField,
        /// First byte of the raw image chunk inside the frame payload.
        chunk_at: usize,
        /// Length of the raw image chunk in bytes (typically 56 for the
        /// 64-byte Geoscan payload).
        chunk_bytes: usize,
        /// How to interpret the reassembled byte stream when rendering
        /// or saving. `Jpeg` decodes a compressed JPEG bitstream and lets
        /// the canvas size follow the image header; `Raw` lays the bytes
        /// out as raw pixels using `width`/`height`/`pixel_format`.
        /// Defaults to `Jpeg` because the only known producer
        /// (STRATOSAT-TK-1 / Geoscan-Edelveis) sends JPEG.
        decoder: ImageDecoderDef,
        /// Canvas width in pixels. Used only when `decoder = "raw"`.
        /// Defaults to 320.
        width: u32,
        /// Canvas height in pixels. Used only when `decoder = "raw"`.
        /// Defaults to 240.
        height: u32,
        /// Pixel format used to interpret raw chunk bytes. Used only
        /// when `decoder = "raw"`. Defaults to `Gray8`.
        pixel_format: PixelFormatDef,
    },
    /// SSDV protocol: each frame's payload is a complete 256-byte
    /// SSDV packet (sync byte, type, base-40 callsign, image_id,
    /// packet_id, geometry, payload, CRC32, optional Reed-Solomon
    /// parity). The reassembler multiplexes by `image_id`, slots
    /// payloads into per-`packet_id` buckets, and lazily builds a
    /// JPEG bitstream with placeholder MCUs for missing packets.
    Ssdv {
        /// Optional callsign filter; when set, packets whose
        /// decoded callsign does not match are ignored. Set when a
        /// downlink legitimately carries traffic from multiple
        /// senders and the operator wants to track one.
        callsign: Option<String>,
    },
    /// Slow-Scan Television (SSTV) audio image. Pixel intensity is
    /// encoded as audio frequency on a 1500-2300 Hz ramp; the mode
    /// (Robot36, PD120, ...) is auto-detected from the 30-bit VIS
    /// code at the start of each transmission. SSTV is fundamentally
    /// not a bit pipeline - the runtime feeds raw audio samples
    /// directly to an SSTV analyzer instead of
    /// going through demodulator / framer / codec stages, so an
    /// SSTV downlink legitimately omits all three. The presence of
    /// this `[downlink.image]` block is the signal that the SSTV
    /// runtime path should be used.
    Sstv {},
}

/// Decoder applied to the reassembled byte stream.
#[derive(Debug, Clone, Copy, PartialEq, Eq, Structural)]
pub enum ImageDecoderDef {
    /// Reassembled bytes are a JPEG bitstream. Image-boundary detection
    /// looks for the JPEG SOI marker (`FF D8`) in the first chunk of a
    /// stream that arrived at offset 0.
    Jpeg,
    /// Reassembled bytes are raw pixels in the `pixel_format` layout.
    /// Image-boundary detection falls back to "offset returned to 0
    /// after the canvas had data".
    Raw,
}

/// Location of a fixed integer field inside a frame payload.
#[derive(Debug, Clone, Copy, PartialEq, Eq, Structural)]
pub struct ImageField {
    /// Byte offset of the field's first byte inside the frame payload.
    pub at: usize,
    /// Field length in bytes.
    pub len: usize,
    /// Byte order of multi-byte fields. Defaults to big-endian.
    pub endian: ByteOrderDef,
}

/// Pixel format for an image-reassembly canvas.
#[derive(Debug, Clone, Copy, PartialEq, Eq, Structural)]
pub enum PixelFormatDef {
    /// 8-bit grayscale; one byte per pixel.
    Gray8,
    /// 16-bit RGB565; two bytes per pixel, big-endian.
    Rgb565,
    /// 24-bit RGB888; three bytes per pixel.
    Rgb888,
}

/// Byte order for multi-byte integer fields.
#[derive(Debug, Clone, Copy, PartialEq, Eq, Structural)]
pub enum ByteOrderDef {
    /// Big-endian (most significant byte first).
    Be,
    /// Little-endian (least significant byte first).
    Le,
}

/// A telemetry schema: the layout of fields inside a frame's payload.
///
/// Schemas are referenced by name from a [`DownlinkDef::telemetry_schema`].
///
/// Two layout shapes are supported:
///
/// * **Flat schema**: a single [`fields`](Self::fields) list applied to
///   every frame. Used by FUNcube-1 (AO-73), HADES-R, IO-117, etc.
/// * **Variant schema**: a [`discriminator`](Self::discriminator) field
///   selects one of [`variants`](Self::variants), each carrying its own
///   `fields` list. Used by satellites whose beacons multiplex several
///   subsystem layouts behind a single packet ID (LUME-1's B1..B5).
///
/// When a schema declares both top-level `fields` and `variants`, the
/// variant whose `match_value` equals the discriminator wins; if no
/// variant matches, the top-level `fields` are used as a fallback.
///
/// [`prefix_skip`](Self::prefix_skip) bytes are stripped from the front of
/// the payload before any field offsets are evaluated. Discriminator
/// offsets are evaluated against the *original* (unstripped) payload so
/// the same TOML can describe a transport-stack header that the field
/// schema otherwise wants to ignore.
#[derive(Debug)]
pub struct TelemetrySchemaDef {
    /// Number of bytes to skip at the start of the payload before
    /// applying field offsets. Defaults to `0`. Discriminator offsets are
    /// evaluated against the unstripped payload.
    pub prefix_skip: usize,
    /// Whitelist of frame lengths that this schema applies to. When
    /// non-empty, the parser returns no fields for any frame whose raw
    /// length is not in the list - guarding against multi-purpose framing
    /// where the same codec emits both telemetry and non-telemetry
    /// payloads (e.g. IO-117's AX.100 link, which carries both 101-byte
    /// HK packets and store-and-forward digipeater traffic).
    pub match_lengths: Vec<usize>,
    /// Optional discriminator that selects one of [`variants`](Self::variants).
    pub discriminator: Option<DiscriminatorDef>,
    /// Per-variant field layouts, keyed by discriminator value.
    pub variants: Vec<TelemetryVariantDef>,
    /// Top-level field layout, used when no discriminator matches (or
    /// when no discriminator is configured).
    pub fields: Vec<TelemetryFieldDef>,
}

/// Discriminator field used by a [`TelemetrySchemaDef`] to pick a variant.
///
/// The discriminator is read as an unsigned big-endian or little-endian
/// integer of `length` bytes from `offset` in the original payload (i.e.
/// before [`TelemetrySchemaDef::prefix_skip`] is applied). `length` must
/// be 1, 2, 4, or 8.
#[derive(Debug)]
pub struct DiscriminatorDef {
    /// Byte offset of the discriminator inside the unstripped payload.
    pub offset: usize,
    /// Discriminator width in bytes; must be 1, 2, 4, or 8.
    pub length: usize,
    /// Byte order of the discriminator value.
    pub endian: Endian,
}

/// One variant inside a [`TelemetrySchemaDef`] keyed by discriminator value.
///
/// A variant matches when the discriminator value equals
/// [`match_value`](Self::match_value) **or** appears in
/// [`match_values`](Self::match_values). Use the list form when several
/// IDs share the exact same field layout (e.g. IO-117's four legal
/// `tlm_id` values 13840 / 13841 / 13842 / 30234 all decoding the same
/// HK block).
#[derive(Debug)]
pub struct TelemetryVariantDef {
    /// Short identifier for the variant (e.g. `"b1_obc"`). Surfaced to
    /// the UI to label which variant produced a given decode.
    pub name: String,
    /// Single discriminator value that selects this variant. Defaults to
    /// `0` and is unused when [`match_values`](Self::match_values) is
    /// non-empty.
    pub match_value: u64,
    /// List of discriminator values that all select this variant. When
    /// non-empty, [`match_value`](Self::match_value) is ignored. Useful
    /// when several IDs share the same field layout.
    pub match_values: Vec<u64>,
    /// Field list applied (against the prefix-stripped payload) when
    /// this variant is selected.
    pub fields: Vec<TelemetryFieldDef>,
}

/// One telemetry field's location and decoding rule inside a frame.
///
/// A field may be addressed in two ways:
///
/// * **Byte-level** by setting [`offset`](Self::offset) and
///   [`length`](Self::length); the raw value is the unsigned integer formed
///   from those bytes in the chosen [`endian`](Self::endian) order.
/// * **Bit-level** by setting [`bit_offset`](Self::bit_offset) and
///   [`bit_length`](Self::bit_length); the payload is treated as an
///   MSB-first bit stream (bit 0 of byte 0 is the most significant bit) and
///   `bit_length` bits are extracted starting at `bit_offset`. The byte
///   `endian` is ignored for bit-level fields.
///
/// The two modes are mutually exclusive. Bit-level addressing is required
/// for densely packed schemas like FUNcube-1's RealTimeFC1 frame.
///
/// Calibration of the raw integer `r` is
/// `engineering = scale * r^power + bias`, where `power` defaults to `1`
/// (a plain linear `scale * r + bias`).
#[derive(Debug)]
pub struct TelemetryFieldDef {
    /// Short identifier (e.g. `"bat_voltage"`).
    pub name: String,
    /// Group/category the field belongs to (e.g. `"eps"`).
    pub group: String,
    /// Byte offset from the start of the frame payload, when addressing
    /// the field byte-by-byte. Mutually exclusive with
    /// [`bit_offset`](Self::bit_offset).
    pub offset: Option<usize>,
    /// Length of the raw field in bytes. Mutually exclusive with
    /// [`bit_length`](Self::bit_length).
    pub length: Option<usize>,
    /// Bit offset from the start of the frame payload, when addressing
    /// the field at sub-byte granularity. Mutually exclusive with
    /// [`offset`](Self::offset).
    pub bit_offset: Option<usize>,
    /// Length of the raw field in bits, up to 64. Mutually exclusive with
    /// [`length`](Self::length).
    pub bit_length: Option<usize>,
    /// Byte order of the raw integer (`"big"` or `"little"`).
    /// Defaults to big-endian, matching the AMSAT/CCSDS convention.
    /// Ignored for bit-level fields, which are always assembled MSB-first.
    pub endian: Endian,
    /// Multiplicative scale: `engineering = scale * raw^power + bias`.
    /// Defaults to `1.0`.
    pub scale: Real64,
    /// Additive bias applied after the scale and power. Defaults to `0.0`.
    pub bias: Real64,
    /// Power exponent applied to the raw value before `scale`. Defaults to
    /// `1.0` (plain linear). Used by FUNcube-1 RF-power telemetry which is
    /// calibrated as `5e-3 * raw^2.0629`.
    pub power: Real64,
    /// Engineering unit (`"V"`, `"C"`, ...), if any.
    pub unit: Option<String>,
    /// Soft lower threshold below which the field is considered abnormal.
    pub warn_below: Option<Real64>,
    /// Soft upper threshold above which the field is considered abnormal.
    pub warn_above: Option<Real64>,
    /// If true, the raw byte value is interpreted as a two's-complement
    /// signed integer of the same width before scale/bias are applied.
    /// Defaults to `false` (unsigned). Only meaningful for byte-level
    /// fields whose [`encoding`](Self::encoding) is the default integer
    /// encoding; ignored for floats and custom encodings.
    pub signed: bool,
    /// Custom raw-value encoding. Defaults to plain unsigned/signed
    /// integer (per the [`signed`](Self::signed) flag). Floats and
    /// satellite-specific encodings are selected here.
    pub encoding: FieldEncoding,
    /// Number of decimal digits encoded in the fractional byte of a
    /// [`FieldEncoding::BcdSplit`] field. Defaults to `1` (e.g. byte
    /// pair `0x0C 0x03` = 12.3). Ignored for other encodings.
    pub decimal_places: u8,
}

/// Raw-value encoding for a telemetry field.
///
/// The default [`Integer`](Self::Integer) encoding pulls a 1/2/4/8-byte
/// integer in the field's byte order, then applies the field's
/// `scale * raw^power + bias` calibration. Other encodings reinterpret
/// the bytes before calibration.
#[derive(Debug, Clone, Copy, PartialEq, Eq, Structural)]
pub enum FieldEncoding {
    /// Plain unsigned (or signed when [`TelemetryFieldDef::signed`] is
    /// set) big/little-endian integer. Default.
    Integer,
    /// IEEE-754 binary32 in the field's byte order. `length` must be 4.
    Float32,
    /// IEEE-754 binary64 in the field's byte order. `length` must be 8.
    Float64,
    /// CAMSAT BCD-split: byte 0 is the integer part, byte 1 is the
    /// fractional part interpreted as decimal digits. The number of
    /// decimal digits is given by the field's
    /// [`decimal_places`](TelemetryFieldDef::decimal_places); the
    /// engineering value is `b0 + b1 / 10^decimal_places`. `length` must
    /// be 2.
    BcdSplit,
    /// 1-byte sign-magnitude temperature (CAS-5A): bit 7 is the sign
    /// (1 = negative), bits 6..0 are the magnitude. `length` must be 1.
    SignMagnitude8,
    /// 2-byte signed Q15 quaternion component (CAS-5A): the bytes are
    /// `[low, high]` in the frame, the assembled int16 is divided by
    /// `32768.0`. `length` must be 2.
    Q15Signed,
}

/// Byte order tag for a telemetry field.
#[derive(Debug, Clone, Copy, PartialEq, Eq, Structural)]
pub enum Endian {
    /// Most significant byte first.
    Big,
    /// Least significant byte first.
    Little,
}

/// Image chunks default to a JPEG stream.
impl Default for ImageDecoderDef {
    fn default() -> (d: Self)
        ensures
            d == ImageDecoderDef::Jpeg,
    {
        ImageDecoderDef::Jpeg
    }
}

impl Default for PixelFormatDef {
    fn default() -> (d: Self)
        ensures
            d == PixelFormatDef::Gray8,
    {
        PixelFormatDef::Gray8
    }
}

impl Default for ByteOrderDef {
    fn default() -> (d: Self)
        ensures
            d == ByteOrderDef::Be,
    {
        ByteOrderDef::Be
    }
}

impl Default for FieldEncoding {
    fn default() -> (d: Self)
        ensures
            d == FieldEncoding::Integer,
    {
        FieldEncoding::Integer
    }
}

/// The byte order of a telemetry field that names none.
pub fn default_endian() -> (e: Endian)
    ensures
        e == Endian::Big,
{
    Endian::Big
}

/// The number of decimal digits of a BCD fraction that names none.
pub fn default_decimal_places() -> (n: u8)
    ensures
        n == 1,
{
    1
}

/// The interleave factor of a Reed-Solomon stage that names none.
pub fn default_interleave() -> (n: usize)
    ensures
        n == 1,
{
    1
}

/// The number of bit errors allowed in an AX100 sync marker.
pub fn default_ax100_asm_threshold() -> (n: usize)
    ensures
        n == 4,
{
    4
}

/// The canvas width of a raw image.
pub fn default_image_width() -> (n: u32)
    ensures
        n == 320,
{
    320
}

/// The canvas height of a raw image.
pub fn default_image_height() -> (n: u32)
    ensures
        n == 240,
{
    240
}

/// What is wrong with a value: the name of the field and the reason.
pub type Fault = Option<(Seq<char>, Seq<char>)>;

/// The result reports exactly this fault.
pub open spec fn reports(res: Result<(), ConfigError>, fault: Fault) -> bool {
    match fault {
        None => res is Ok,
        Some((f, r)) => res matches Err(ConfigError::InvalidValue { field, reason }) && field@ == f
            && reason@ == r,
    }
}

/// A fault of a part of a downlink.
pub open spec fn downlink_part(label: Seq<char>, part: Seq<char>, reason: Seq<char>) -> Fault {
    Some(("downlink["@ + label + "]."@ + part, reason))
}

fn invalid_value(field: String, reason: &str) -> (res: Result<(), ConfigError>)
    ensures
        reports(res, Some((field@, reason@))),
{
    Err(ConfigError::InvalidValue { field, reason: reason.to_string() })
}

fn invalid_downlink(label: &String, part: &str, reason: &str) -> (res: Result<(), ConfigError>)
    ensures
        reports(res, downlink_part(label@, part@, reason@)),
{
    invalid_value(
        "downlink[".to_string().concat(label.as_str()).concat("].").concat(part),
        reason,
    )
}

/// What is wrong with a modem.
pub open spec fn modem_fault(label: Seq<char>, modem: ModemDef) -> Fault {
    match modem {
        ModemDef::Afsk { mark_hz, space_hz } => if mark_hz.not_positive() {
            downlink_part(label, "modem.mark_hz"@, "must be > 0"@)
        } else if space_hz.not_positive() {
            downlink_part(label, "modem.space_hz"@, "must be > 0"@)
        } else {
            None
        },
        ModemDef::Cpm { modulation_index, frequency_offset_hz, gaussian_bt, .. } => if (
        modulation_index matches Some(v) && v.not_positive()) {
            downlink_part(label, "modem.modulation_index"@, "must be > 0"@)
        } else if !frequency_offset_hz.finite() {
            downlink_part(label, "modem.frequency_offset_hz"@, "must be finite"@)
        } else if (gaussian_bt matches Some(v) && v.not_positive()) {
            downlink_part(label, "modem.gaussian_bt"@, "must be > 0"@)
        } else {
            None
        },
        ModemDef::Linear { frequency_offset_hz, matched_filter_rolloff, .. } =>
        if !frequency_offset_hz.finite() {
            downlink_part(label, "modem.frequency_offset_hz"@, "must be finite"@)
        } else if !matched_filter_rolloff.in_unit_range() {
            downlink_part(label, "modem.matched_filter_rolloff"@, "must be in [0.0, 1.0]"@)
        } else {
            None
        },
        ModemDef::Lora { spreading_factor, bandwidth_hz } => if !(6 <= spreading_factor <= 12) {
            downlink_part(label, "modem.spreading_factor"@, "must be between 6 and 12"@)
        } else if bandwidth_hz == 0 {
            downlink_part(label, "modem.bandwidth_hz"@, "must be > 0"@)
        } else {
            None
        },
        ModemDef::FourFsk { freq_offsets_hz } => if exists|i: int|
            0 <= i < 4 && !(#[trigger] freq_offsets_hz@[i]).finite() {
            downlink_part(label, "modem.freq_offsets_hz"@, "all offsets must be finite"@)
        } else {
            None
        },
    }
}

fn not_positive_option(v: &Option<Real32>) -> (r: bool)
    ensures
        r == (*v matches Some(x) && x.not_positive()),
{
    match v {
        Some(x) => x.is_not_positive(),
        None => false,
    }
}

/// Check a modem's constants.
pub fn validate_modem(label: &String, modem: &ModemDef) -> (res: Result<(), ConfigError>)
    ensures
        reports(res, modem_fault(label@, *modem)),
{
    match modem {
        ModemDef::Afsk { mark_hz, space_hz } => {
            if mark_hz.is_not_positive() {
                return invalid_downlink(label, "modem.mark_hz", "must be > 0");
            }
            if space_hz.is_not_positive() {
                return invalid_downlink(label, "modem.space_hz", "must be > 0");
            }
        },
        ModemDef::Cpm { modulation_index, frequency_offset_hz, gaussian_bt, .. } => {
            if not_positive_option(modulation_index) {
                return invalid_downlink(label, "modem.modulation_index", "must be > 0");
            }
            if !frequency_offset_hz.is_finite() {
                return invalid_downlink(label, "modem.frequency_offset_hz", "must be finite");
            }
            if not_positive_option(gaussian_bt) {
                return invalid_downlink(label, "modem.gaussian_bt", "must be > 0");
            }
        },
        ModemDef::Linear { frequency_offset_hz, matched_filter_rolloff, .. } => {
            if !frequency_offset_hz.is_finite() {
                return invalid_downlink(label, "modem.frequency_offset_hz", "must be finite");
            }
            if !matched_filter_rolloff.is_in_unit_range() {
                return invalid_downlink(
                    label,
                    "modem.matched_filter_rolloff",
                    "must be in [0.0, 1.0]",
                );
            }
        },
        ModemDef::Lora { spreading_factor, bandwidth_hz } => {
            if *spreading_factor < 6 || *spreading_factor > 12 {
                return invalid_downlink(
                    label,
                    "modem.spreading_factor",
                    "must be between 6 and 12",
                );
            }
            if *bandwidth_hz == 0 {
                return invalid_downlink(label, "modem.bandwidth_hz", "must be > 0");
            }
        },
        ModemDef::FourFsk { freq_offsets_hz } => {
            let mut i: usize = 0;
            while i < 4
                invariant
                    i <= 4,
                    *modem matches ModemDef::FourFsk { freq_offsets_hz: offsets } && offsets
                        == *freq_offsets_hz,
                    forall|j: int| 0 <= j < i ==> (#[trigger] freq_offsets_hz@[j]).finite(),
                decreases 4 - i,
            {
                if !freq_offsets_hz[i].is_finite() {
                    return invalid_downlink(
                        label,
                        "modem.freq_offsets_hz",
                        "all offsets must be finite",
                    );
                }
                i = i + 1;
            }
        },
    }
    Ok(())
}

/// The characters are zeros and ones.
pub open spec fn is_binary(s: Seq<char>) -> bool {
    forall|i: int| 0 <= i < s.len() ==> #[trigger] s[i] == '0' || s[i] == '1'
}

/// What is wrong with a framer.
pub open spec fn framer_fault(label: Seq<char>, framer: FramerDef) -> Fault {
    match framer {
        FramerDef::Hdlc => None,
        FramerDef::Ao40 { threshold } => if threshold > 65 {
            downlink_part(label, "framer.threshold"@, "must be <= 65"@)
        } else {
            None
        },
        FramerDef::Syncword { syncword, threshold, payload_bits } => if syncword@.len() == 0
            || !is_binary(syncword@) {
            downlink_part(label, "framer.syncword"@, "must contain only 0 and 1 characters"@)
        } else if threshold > syncword@.len() {
            downlink_part(label, "framer.threshold"@, "must be <= syncword length"@)
        } else if payload_bits == 0 {
            downlink_part(label, "framer.payload_bits"@, "must be > 0"@)
        } else {
            None
        },
        FramerDef::Ax100Asm { threshold } => if threshold > 32 {
            downlink_part(label, "framer.threshold"@, "must be <= 32"@)
        } else {
            None
        },
    }
}

/// Check a framer's parameters.
pub fn validate_framer(label: &String, framer: &FramerDef) -> (res: Result<(), ConfigError>)
    ensures
        reports(res, framer_fault(label@, *framer)),
{
    match framer {
        FramerDef::Hdlc => {},
        FramerDef::Ao40 { threshold } => {
            if *threshold > 65 {
                return invalid_downlink(label, "framer.threshold", "must be <= 65");
            }
        },
        FramerDef::Syncword { syncword, threshold, payload_bits } => {
            let len: usize = syncword.as_str().unicode_len();
            let mut binary: bool = true;
            let mut i: usize = 0;
            while i < len
                invariant
                    len == syncword@.len(),
                    i <= len,
                    binary == is_binary(syncword@.take(i as int)),
                decreases len - i,
            {
                let c: char = syncword.as_str().get_char(i);
                let ghost shorter = syncword@.take(i as int);
                i = i + 1;
                proof {
                    let longer = syncword@.take(i as int);
                    assert(longer =~= shorter.push(c));
                    if binary {
                        assert(is_binary(longer) == (c == '0' || c == '1')) by {
                            assert(longer[i - 1] == c);
                        }
                    } else {
                        let k = choose|k: int|
                            0 <= k < shorter.len() && !(#[trigger] shorter[k] == '0' || shorter[k]
                                == '1');
                        assert(longer[k] == shorter[k]);
                    }
                }
                if c != '0' && c != '1' {
                    binary = false;
                }
            }
            assert(syncword@.take(len as int) =~= syncword@);
            if len == 0 || !binary {
                return invalid_downlink(
                    label,
                    "framer.syncword",
                    "must contain only 0 and 1 characters",
                );
            }
            if *threshold > len {
                return invalid_downlink(label, "framer.threshold", "must be <= syncword length");
            }
            if *payload_bits == 0 {
                return invalid_downlink(label, "framer.payload_bits", "must be > 0");
            }
        },
        FramerDef::Ax100Asm { threshold } => {
            if *threshold > 32 {
                return invalid_downlink(label, "framer.threshold", "must be <= 32");
            }
        },
    }
    Ok(())
}

/// What is wrong with an error-correction stage.
pub open spec fn fec_fault(label: Seq<char>, fec: FecDef) -> Fault {
    match fec {
        FecDef::ReedSolomon { interleave } => if interleave == 0 {
            downlink_part(label, "fec.interleave"@, "must be > 0"@)
        } else {
            None
        },
        _ => None,
    }
}

/// Check an error-correction stage.
pub fn validate_fec(label: &String, fec: &FecDef) -> (res: Result<(), ConfigError>)
    ensures
        reports(res, fec_fault(label@, *fec)),
{
    match fec {
        FecDef::ReedSolomon { interleave } => {
            if *interleave == 0 {
                return invalid_downlink(label, "fec.interleave", "must be > 0");
            }
        },
        _ => {},
    }
    Ok(())
}

/// What is wrong with the stages of a downlink: the modem, else the framer, else
/// the error correction.
pub open spec fn pipeline_fault(d: DownlinkDef) -> Fault {
    let modem = match d.modem {
        Some(m) => modem_fault(d.label@, m),
        None => None,
    };
    let framer = match d.framer {
        Some(f) => framer_fault(d.label@, f),
        None => None,
    };
    let fec = match d.fec {
        Some(f) => fec_fault(d.label@, f),
        None => None,
    };
    if modem is Some {
        modem
    } else if framer is Some {
        framer
    } else {
        fec
    }
}

/// Check the stages of a downlink.
pub fn validate_downlink_pipeline(d: &DownlinkDef) -> (res: Result<(), ConfigError>)
    ensures
        reports(res, pipeline_fault(*d)),
{
    match &d.modem {
        Some(modem) => {
            let res = validate_modem(&d.label, modem);
            if res.is_err() {
                return res;
            }
        },
        None => {},
    }
    match &d.framer {
        Some(framer) => {
            let res = validate_framer(&d.label, framer);
            if res.is_err() {
                return res;
            }
        },
        None => {},
    }
    match &d.fec {
        Some(fec) => validate_fec(&d.label, fec),
        None => Ok(()),
    }
}

/// The length that an encoding needs, if any.
pub open spec fn encoded_length(e: FieldEncoding) -> Option<nat> {
    match e {
        FieldEncoding::Float32 => Some(4),
        FieldEncoding::Float64 => Some(8),
        FieldEncoding::BcdSplit => Some(2),
        FieldEncoding::SignMagnitude8 => Some(1),
        FieldEncoding::Q15Signed => Some(2),
        FieldEncoding::Integer => None,
    }
}

/// The name of an encoding.
pub open spec fn encoding_label(e: FieldEncoding) -> Seq<char> {
    match e {
        FieldEncoding::Integer => "Integer"@,
        FieldEncoding::Float32 => "Float32"@,
        FieldEncoding::Float64 => "Float64"@,
        FieldEncoding::BcdSplit => "BcdSplit"@,
        FieldEncoding::SignMagnitude8 => "SignMagnitude8"@,
        FieldEncoding::Q15Signed => "Q15Signed"@,
    }
}

impl FieldEncoding {
    /// The length in bytes that the encoding needs, if any.
    pub fn required_length(self) -> (r: Option<usize>)
        ensures
            match encoded_length(self) {
                Some(n) => r == Some(n as usize),
                None => r is None,
            },
    {
        match self {
            FieldEncoding::Float32 => Some(4),
            FieldEncoding::Float64 => Some(8),
            FieldEncoding::BcdSplit => Some(2),
            FieldEncoding::SignMagnitude8 => Some(1),
            FieldEncoding::Q15Signed => Some(2),
            FieldEncoding::Integer => None,
        }
    }

    /// The name of the encoding.
    pub fn label(self) -> (s: &'static str)
        ensures
            s@ == encoding_label(self),
    {
        match self {
            FieldEncoding::Integer => "Integer",
            FieldEncoding::Float32 => "Float32",
            FieldEncoding::Float64 => "Float64",
            FieldEncoding::BcdSplit => "BcdSplit",
            FieldEncoding::SignMagnitude8 => "SignMagnitude8",
            FieldEncoding::Q15Signed => "Q15Signed",
        }
    }
}

/// A fault of a telemetry field.
pub open spec fn field_part(
    scope: Seq<char>,
    field: TelemetryFieldDef,
    part: Seq<char>,
    reason: Seq<char>,
) -> Fault {
    Some((scope + ".field["@ + field.name@ + "]"@ + part, reason))
}

/// What is wrong with a telemetry field.
pub open spec fn field_fault(scope: Seq<char>, field: TelemetryFieldDef) -> Fault {
    let has_byte = field.offset is Some || field.length is Some;
    let has_bit = field.bit_offset is Some || field.bit_length is Some;
    let needed = encoded_length(field.encoding);
    if has_byte && has_bit {
        field_part(
            scope,
            field,
            ""@,
            "must use either byte-level (offset/length) or bit-level (bit_offset/bit_length) addressing, not both"@,
        )
    } else if !has_byte && !has_bit {
        field_part(scope, field, ""@, "must specify either byte-level or bit-level addressing"@)
    } else if has_byte && (field.offset is None || field.length is None) {
        field_part(scope, field, ""@, "byte-level addressing requires both offset and length"@)
    } else if has_byte && field.length->Some_0 == 0 {
        field_part(scope, field, ".length"@, "must be > 0"@)
    } else if has_byte && (needed matches Some(n) && field.length->Some_0 != n) {
        field_part(
            scope,
            field,
            ".length"@,
            "encoding "@ + encoding_label(field.encoding) + " requires length = "@ + decimal(
                needed->Some_0,
            ),
        )
    } else if has_bit && (field.bit_offset is None || field.bit_length is None) {
        field_part(
            scope,
            field,
            ""@,
            "bit-level addressing requires both bit_offset and bit_length"@,
        )
    } else if has_bit && !(1 <= field.bit_length->Some_0 <= 64) {
        field_part(scope, field, ".bit_length"@, "must be in 1..=64"@)
    } else if has_bit && field.encoding != FieldEncoding::Integer {
        field_part(
            scope,
            field,
            ".encoding"@,
            "bit-level fields only support the integer encoding"@,
        )
    } else if field.encoding == FieldEncoding::BcdSplit && !(1 <= field.decimal_places <= 9) {
        field_part(scope, field, ".decimal_places"@, "must be in 1..=9 for bcd_split"@)
    } else {
        None
    }
}

/// The first fault among the fields from `i` on.
pub open spec fn fields_fault(
    scope: Seq<char>,
    fields: Seq<TelemetryFieldDef>,
    i: int,
) -> Fault
    decreases fields.len() - i,
{
    if i >= fields.len() {
        None
    } else if field_fault(scope, fields[i]) is Some {
        field_fault(scope, fields[i])
    } else {
        fields_fault(scope, fields, i + 1)
    }
}

fn invalid_field(scope: &str, field: &TelemetryFieldDef, part: &str, reason: &str) -> (res: Result<
    (),
    ConfigError,
>)
    ensures
        reports(res, field_part(scope@, *field, part@, reason@)),
{
    invalid_value(
        scope.to_string().concat(".field[").concat(field.name.as_str()).concat("]").concat(part),
        reason,
    )
}

/// Check one telemetry field.
pub fn validate_telemetry_field(scope: &str, field: &TelemetryFieldDef) -> (res: Result<
    (),
    ConfigError,
>)
    ensures
        reports(res, field_fault(scope@, *field)),
{
    let has_byte: bool = field.offset.is_some() || field.length.is_some();
    let has_bit: bool = field.bit_offset.is_some() || field.bit_length.is_some();
    if has_byte && has_bit {
        return invalid_field(
            scope,
            field,
            "",
            "must use either byte-level (offset/length) or bit-level (bit_offset/bit_length) addressing, not both",
        );
    }
    if has_byte {
        match (field.offset, field.length) {
            (Some(_), Some(length)) => {
                if length == 0 {
                    return invalid_field(scope, field, ".length", "must be > 0");
                }
                match field.encoding.required_length() {
                    Some(req) => {
                        if length != req {
                            let reason: String = "encoding ".to_string().concat(
                                field.encoding.label(),
                            ).concat(" requires length = ").concat(
                                decimal_string(req as u64).as_str(),
                            );
                            return invalid_field(scope, field, ".length", reason.as_str());
                        }
                    },
                    None => {},
                }
            },
            _ => {
                return invalid_field(
                    scope,
                    field,
                    "",
                    "byte-level addressing requires both offset and length",
                );
            },
        }
    } else if has_bit {
        match (field.bit_offset, field.bit_length) {
            (Some(_), Some(length)) => {
                if length == 0 || length > 64 {
                    return invalid_field(scope, field, ".bit_length", "must be in 1..=64");
                }
            },
            _ => {
                return invalid_field(
                    scope,
                    field,
                    "",
                    "bit-level addressing requires both bit_offset and bit_length",
                );
            },
        }
        if field.encoding != FieldEncoding::Integer {
            return invalid_field(
                scope,
                field,
                ".encoding",
                "bit-level fields only support the integer encoding",
            );
        }
    } else {
        return invalid_field(
            scope,
            field,
            "",
            "must specify either byte-level or bit-level addressing",
        );
    }
    if field.encoding == FieldEncoding::BcdSplit && (field.decimal_places == 0
        || field.decimal_places > 9) {
        return invalid_field(scope, field, ".decimal_places", "must be in 1..=9 for bcd_split");
    }
    Ok(())
}

/// Check a list of telemetry fields.
pub fn validate_telemetry_fields(scope: &str, fields: &Vec<TelemetryFieldDef>) -> (res: Result<
    (),
    ConfigError,
>)
    ensures
        reports(res, fields_fault(scope@, fields@, 0)),
{
    let len: usize = fields.len();
    let mut i: usize = 0;
    while i < len
        invariant
            len == fields@.len(),
            i <= len,
            fields_fault(scope@, fields@, 0) == fields_fault(scope@, fields@, i as int),
        decreases len - i,
    {
        let res = validate_telemetry_field(scope, &fields[i]);
        if res.is_err() {
            return res;
        }
        i = i + 1;
    }
    Ok(())
}

/// The discriminator values that select a variant.
pub open spec fn candidates(v: TelemetryVariantDef) -> Seq<u64> {
    if v.match_values@.len() == 0 {
        seq![v.match_value]
    } else {
        v.match_values@
    }
}

/// The first of the values from `k` on that was seen before it, in an earlier
/// variant or earlier in this one.
pub open spec fn repeated(seen: Seq<u64>, values: Seq<u64>, k: int) -> Option<u64>
    decreases values.len() - k,
{
    if k >= values.len() {
        None
    } else if (seen + values.take(k)).contains(values[k]) {
        Some(values[k])
    } else {
        repeated(seen, values, k + 1)
    }
}

/// The scope of the fields of a variant.
pub open spec fn variant_scope(name: Seq<char>, v: TelemetryVariantDef) -> Seq<char> {
    "telemetry."@ + name + ".variant["@ + v.name@ + "]"@
}

/// The first fault among the variants from `i` on, given the values seen before.
pub open spec fn variants_fault(
    name: Seq<char>,
    variants: Seq<TelemetryVariantDef>,
    seen: Seq<u64>,
    i: int,
) -> Fault
    decreases variants.len() - i,
{
    if i >= variants.len() {
        None
    } else {
        let v = variants[i];
        let scope = variant_scope(name, v);
        match repeated(seen, candidates(v), 0) {
            Some(value) => Some(
                (scope, "duplicate discriminator value "@ + decimal(value as nat)),
            ),
            None => if fields_fault(scope, v.fields@, 0) is Some {
                fields_fault(scope, v.fields@, 0)
            } else {
                variants_fault(name, variants, seen + candidates(v), i + 1)
            },
        }
    }
}

/// The index of the first zero from `i` on.
pub open spec fn zero_at(lens: Seq<usize>, i: int) -> Option<int>
    decreases lens.len() - i,
{
    if i >= lens.len() {
        None
    } else if lens[i] == 0 {
        Some(i)
    } else {
        zero_at(lens, i + 1)
    }
}

/// What is wrong with a telemetry schema.
pub open spec fn schema_fault(name: Seq<char>, schema: TelemetrySchemaDef) -> Fault {
    let scope = "telemetry."@ + name;
    if (schema.discriminator matches Some(d) && !(d.length == 1 || d.length == 2 || d.length == 4
        || d.length == 8)) {
        Some((scope + ".discriminator.length"@, "must be 1, 2, 4, or 8"@))
    } else {
        match zero_at(schema.match_lengths@, 0) {
            Some(i) => Some(
                (scope + ".match_lengths["@ + decimal(i as nat) + "]"@, "must be > 0"@),
            ),
            None => if schema.variants@.len() > 0 && schema.discriminator is None {
                Some((scope, "variants require a discriminator"@))
            } else if variants_fault(name, schema.variants@, Seq::empty(), 0) is Some {
                variants_fault(name, schema.variants@, Seq::empty(), 0)
            } else {
                fields_fault(scope, schema.fields@, 0)
            },
        }
    }
}

fn contains_value(values: &Vec<u64>, value: u64) -> (r: bool)
    ensures
        r == values@.contains(value),
{
    let len: usize = values.len();
    let mut i: usize = 0;
    while i < len
        invariant
            len == values@.len(),
            i <= len,
            forall|j: int| 0 <= j < i ==> #[trigger] values@[j] != value,
        decreases len - i,
    {
        if values[i] == value {
            return true;
        }
        i = i + 1;
    }
    false
}

/// Note the values of a variant; the first one that was seen before.
fn note_values(seen: &mut Vec<u64>, values: &Vec<u64>) -> (r: Option<u64>)
    ensures
        r == repeated(old(seen)@, values@, 0),
        r is None ==> final(seen)@ == old(seen)@ + values@,
{
    let len: usize = values.len();
    let mut k: usize = 0;
    assert(seen@ =~= old(seen)@ + values@.take(0));
    while k < len
        invariant
            len == values@.len(),
            k <= len,
            seen@ == old(seen)@ + values@.take(k as int),
            repeated(old(seen)@, values@, 0) == repeated(old(seen)@, values@, k as int),
        decreases len - k,
    {
        let value: u64 = values[k];
        if contains_value(seen, value) {
            return Some(value);
        }
        seen.push(value);
        k = k + 1;
        assert(seen@ =~= old(seen)@ + values@.take(k as int));
    }
    assert(values@.take(len as int) =~= values@);
    None
}

/// Check the variants of a schema.
pub fn validate_variants(name: &String, variants: &Vec<TelemetryVariantDef>) -> (res: Result<
    (),
    ConfigError,
>)
    ensures
        reports(res, variants_fault(name@, variants@, Seq::empty(), 0)),
{
    let mut seen: Vec<u64> = Vec::new();
    let len: usize = variants.len();
    let mut i: usize = 0;
    while i < len
        invariant
            len == variants@.len(),
            i <= len,
            variants_fault(name@, variants@, Seq::empty(), 0) == variants_fault(
                name@,
                variants@,
                seen@,
                i as int,
            ),
        decreases len - i,
    {
        let variant = &variants[i];
        let scope: String = "telemetry.".to_string().concat(name.as_str()).concat(
            ".variant[",
        ).concat(variant.name.as_str()).concat("]");
        let single: Vec<u64> = vec![variant.match_value];
        assert(single@ =~= seq![variant.match_value]);
        let repeat: Option<u64> = if variant.match_values.len() == 0 {
            note_values(&mut seen, &single)
        } else {
            note_values(&mut seen, &variant.match_values)
        };
        match repeat {
            Some(value) => {
                let reason: String = "duplicate discriminator value ".to_string().concat(
                    decimal_string(value).as_str(),
                );
                return invalid_value(scope, reason.as_str());
            },
            None => {},
        }
        let res = validate_telemetry_fields(scope.as_str(), &variant.fields);
        if res.is_err() {
            return res;
        }
        i = i + 1;
    }
    Ok(())
}

/// Check a telemetry schema.
pub fn validate_telemetry_schema(name: &String, schema: &TelemetrySchemaDef) -> (res: Result<
    (),
    ConfigError,
>)
    ensures
        reports(res, schema_fault(name@, *schema)),
{
    let scope: String = "telemetry.".to_string().concat(name.as_str());
    match &schema.discriminator {
        Some(disc) => {
            if !(disc.length == 1 || disc.length == 2 || disc.length == 4 || disc.length == 8) {
                return invalid_value(
                    scope.concat(".discriminator.length"),
                    "must be 1, 2, 4, or 8",
                );
            }
        },
        None => {},
    }
    let len: usize = schema.match_lengths.len();
    let mut i: usize = 0;
    while i < len
        invariant
            len == schema.match_lengths@.len(),
            i <= len,
            scope@ == "telemetry."@ + name@,
            !(schema.discriminator matches Some(d) && !(d.length == 1 || d.length == 2 || d.length
                == 4 || d.length == 8)),
            zero_at(schema.match_lengths@, 0) == zero_at(schema.match_lengths@, i as int),
        decreases len - i,
    {
        if schema.match_lengths[i] == 0 {
            return invalid_value(
                scope.concat(".match_lengths[").concat(decimal_string(i as u64).as_str()).concat(
                    "]",
                ),
                "must be > 0",
            );
        }
        i = i + 1;
    }
    if schema.variants.len() > 0 && schema.discriminator.is_none() {
        return invalid_value(scope, "variants require a discriminator");
    }
    let res = validate_variants(name, &schema.variants);
    if res.is_err() {
        return res;
    }
    validate_telemetry_fields(scope.as_str(), &schema.fields)
}

/// A schema of that name is there.
pub open spec fn has_schema(schemas: Seq<(String, TelemetrySchemaDef)>, name: Seq<char>) -> bool {
    exists|i: int| 0 <= i < schemas.len() && (#[trigger] schemas[i]).0@ == name
}

/// What is wrong with a downlink.
pub open spec fn downlink_fault(
    d: DownlinkDef,
    schemas: Seq<(String, TelemetrySchemaDef)>,
) -> Fault {
    if d.baudrate == 0 && !(d.image matches Some(ImageDef::Sstv {  })) {
        downlink_part(d.label@, "baudrate"@, "must be > 0"@)
    } else if (d.telemetry_schema matches Some(name) && !has_schema(schemas, name@)) {
        downlink_part(
            d.label@,
            "telemetry_schema"@,
            "references unknown schema '"@ + d.telemetry_schema->Some_0@ + "'"@,
        )
    } else {
        pipeline_fault(d)
    }
}

/// The first fault among the downlinks from `i` on.
pub open spec fn downlinks_fault(
    downlinks: Seq<DownlinkDef>,
    schemas: Seq<(String, TelemetrySchemaDef)>,
    i: int,
) -> Fault
    decreases downlinks.len() - i,
{
    if i >= downlinks.len() {
        None
    } else if downlink_fault(downlinks[i], schemas) is Some {
        downlink_fault(downlinks[i], schemas)
    } else {
        downlinks_fault(downlinks, schemas, i + 1)
    }
}

/// The first fault among the schemas from `i` on.
pub open spec fn schemas_fault(schemas: Seq<(String, TelemetrySchemaDef)>, i: int) -> Fault
    decreases schemas.len() - i,
{
    if i >= schemas.len() {
        None
    } else if schema_fault(schemas[i].0@, schemas[i].1) is Some {
        schema_fault(schemas[i].0@, schemas[i].1)
    } else {
        schemas_fault(schemas, i + 1)
    }
}

/// What is wrong with a definition: the first fault of its downlinks, else the
/// first of its schemas.
pub open spec fn definition_fault(def: SatelliteDefinition) -> Fault {
    let downlinks = downlinks_fault(def.downlinks@, def.telemetry@, 0);
    if downlinks is Some {
        downlinks
    } else {
        schemas_fault(def.telemetry@, 0)
    }
}

fn schema_known(schemas: &Vec<(String, TelemetrySchemaDef)>, name: &String) -> (r: bool)
    ensures
        r == has_schema(schemas@, name@),
{
    let len: usize = schemas.len();
    let mut i: usize = 0;
    while i < len
        invariant
            len == schemas@.len(),
            i <= len,
            forall|j: int| 0 <= j < i ==> (#[trigger] schemas@[j]).0@ != name@,
        decreases len - i,
    {
        if schemas[i].0 == *name {
            return true;
        }
        i = i + 1;
    }
    false
}

/// Check a downlink.
pub fn validate_downlink(d: &DownlinkDef, schemas: &Vec<(String, TelemetrySchemaDef)>) -> (res:
    Result<(), ConfigError>)
    ensures
        reports(res, downlink_fault(*d, schemas@)),
{
    let sstv: bool = match &d.image {
        Some(ImageDef::Sstv {  }) => true,
        _ => false,
    };
    if d.baudrate == 0 && !sstv {
        return invalid_downlink(&d.label, "baudrate", "must be > 0");
    }
    match &d.telemetry_schema {
        Some(name) => {
            if !schema_known(schemas, name) {
                let reason: String = "references unknown schema '".to_string().concat(
                    name.as_str(),
                ).concat("'");
                return invalid_downlink(&d.label, "telemetry_schema", reason.as_str());
            }
        },
        None => {},
    }
    validate_downlink_pipeline(d)
}

/// Check a satellite definition.
///
/// # Errors
///
/// Returns [`ConfigError::InvalidValue`] for the first field whose value is
/// invalid.
pub fn validate(def: &SatelliteDefinition) -> (res: Result<(), ConfigError>)
    requires
        def.wf(),
    ensures
        reports(res, definition_fault(*def)),
{
    let n: usize = def.downlinks.len();
    let mut i: usize = 0;
    while i < n
        invariant
            n == def.downlinks@.len(),
            i <= n,
            downlinks_fault(def.downlinks@, def.telemetry@, 0) == downlinks_fault(
                def.downlinks@,
                def.telemetry@,
                i as int,
            ),
        decreases n - i,
    {
        let res = validate_downlink(&def.downlinks[i], &def.telemetry);
        if res.is_err() {
            return res;
        }
        i = i + 1;
    }
    let m: usize = def.telemetry.len();
    let mut k: usize = 0;
    while k < m
        invariant
            m == def.telemetry@.len(),
            k <= m,
            downlinks_fault(def.downlinks@, def.telemetry@, 0) is None,
            schemas_fault(def.telemetry@, 0) == schemas_fault(def.telemetry@, k as int),
        decreases m - k,
    {
        let res = validate_telemetry_schema(&def.telemetry[k].0, &def.telemetry[k].1);
        if res.is_err() {
            return res;
        }
        k = k + 1;
    }
    Ok(())
}

/// The text stands at `at` in `s`.
pub open spec fn text_at(s: Seq<char>, text: Seq<char>, at: int) -> bool {
    at + text.len() <= s.len() && s.subrange(at, at + text.len()) == text
}

/// Where the text first stands in `s`, from `from` on.
pub open spec fn find_text(s: Seq<char>, text: Seq<char>, from: int) -> Option<int>
    decreases s.len() + 1 - from,
{
    if from > s.len() {
        None
    } else if text_at(s, text, from) {
        Some(from)
    } else {
        find_text(s, text, from + 1)
    }
}

/// The name between backquotes after the first "missing field".
pub open spec fn missing_field(msg: Seq<char>) -> Option<Seq<char>> {
    match find_text(msg, "missing field `"@, 0) {
        None => None,
        Some(at) => {
            let rest = msg.skip(at + "missing field `"@.len());
            match find_text(rest, "`"@, 0) {
                None => None,
                Some(end) => Some(rest.take(end)),
            }
        },
    }
}

fn text_here(s: &str, len: usize, text: &str, n: usize, at: usize) -> (r: bool)
    requires
        len == s@.len(),
        n == text@.len(),
        at <= len,
    ensures
        r == text_at(s@, text@, at as int),
{
    if n > len - at {
        return false;
    }
    let mut k: usize = 0;
    while k < n
        invariant
            len == s@.len(),
            n == text@.len(),
            n <= len - at,
            at <= len,
            k <= n,
            forall|j: int| 0 <= j < k ==> s@[at + j] == #[trigger] text@[j],
        decreases n - k,
    {
        if s.get_char(at + k) != text.get_char(k) {
            assert(s@.subrange(at as int, at + n)[k as int] != text@[k as int]);
            return false;
        }
        k = k + 1;
    }
    assert(s@.subrange(at as int, at + n) =~= text@);
    true
}

/// Where a text first stands, in characters.
pub fn find(s: &str, text: &str, from: usize) -> (r: Option<usize>)
    requires
        from <= s@.len(),
    ensures
        match find_text(s@, text@, from as int) {
            Some(at) => r == Some(at as usize) && from <= at && at + text@.len() <= s@.len(),
            None => r is None,
        },
{
    let len: usize = s.unicode_len();
    let n: usize = text.unicode_len();
    let mut at: usize = from;
    while at < len
        invariant
            len == s@.len(),
            n == text@.len(),
            from <= at <= len,
            find_text(s@, text@, from as int) == find_text(s@, text@, at as int),
        decreases len - at,
    {
        if text_here(s, len, text, n, at) {
            return Some(at);
        }
        at = at + 1;
    }
    if text_here(s, len, text, n, at) {
        Some(at)
    } else {
        assert(find_text(s@, text@, len + 1) is None);
        None
    }
}

/// The field name in a message that one is missing.
pub fn missing_field_name(msg: &str) -> (r: Option<String>)
    ensures
        match missing_field(msg@) {
            Some(name) => r matches Some(s) && s@ == name,
            None => r is None,
        },
{
    let marker: &str = "missing field `";
    let n: usize = marker.unicode_len();
    let len: usize = msg.unicode_len();
    match find(msg, marker, 0) {
        None => None,
        Some(at) => {
            let rest: &str = msg.substring_char(at + n, len);
            assert(rest@ =~= msg@.skip(at + n));
            match find(rest, "`", 0) {
                None => None,
                Some(end) => {
                    let name: &str = rest.substring_char(0, end);
                    assert(name@ =~= rest@.take(end as int));
                    Some(name.to_string())
                },
            }
        },
    }
}

/// The error for a definition that does not parse, from the parser's message and
/// its full text.
pub fn translate_toml_error(message: &str, text: String) -> (e: ConfigError)
    ensures
        match missing_field(message@) {
            Some(name) => e matches ConfigError::MissingField(f) && f@ == name,
            None => e matches ConfigError::Toml(t) && t@ == text@,
        },
{
    match missing_field_name(message) {
        Some(name) => ConfigError::MissingField(name),
        None => ConfigError::Toml(text),
    }
}

/// In a definition without fault every downlink has a baud rate or carries SSTV,
/// and every schema it names is defined, by one entry only.
pub proof fn law_valid_references(def: SatelliteDefinition, i: int)
    requires
        def.wf(),
        definition_fault(def) is None,
        0 <= i < def.downlinks@.len(),
    ensures
        def.downlinks@[i].baudrate > 0 || def.downlinks@[i].image matches Some(ImageDef::Sstv {  }),
        def.downlinks@[i].telemetry_schema matches Some(name) ==> has_schema(
            def.telemetry@,
            name@,
        ) && forall|j: int, k: int|
            0 <= j < def.telemetry@.len() && 0 <= k < def.telemetry@.len()
                && #[trigger] def.telemetry@[j].0@ == name@ && #[trigger] def.telemetry@[k].0@
                == name@ ==> j == k,
{
    lemma_no_downlink_fault(def.downlinks@, def.telemetry@, 0, i);
}

proof fn lemma_no_downlink_fault(
    downlinks: Seq<DownlinkDef>,
    schemas: Seq<(String, TelemetrySchemaDef)>,
    from: int,
    i: int,
)
    requires
        downlinks_fault(downlinks, schemas, from) is None,
        from <= i < downlinks.len(),
    ensures
        downlink_fault(downlinks[i], schemas) is None,
    decreases i - from,
{
    if from < i {
        lemma_no_downlink_fault(downlinks, schemas, from + 1, i);
    }
}

/// In a schema without fault no two variants, and no two entries of one, are
/// selected by the same discriminator value.
pub proof fn law_selectors_are_distinct(
    name: Seq<char>,
    schema: TelemetrySchemaDef,
    i: int,
    k: int,
    j: int,
    l: int,
)
    requires
        schema_fault(name, schema) is None,
        0 <= i <= j < schema.variants@.len(),
        0 <= k < candidates(schema.variants@[i]).len(),
        0 <= l < candidates(schema.variants@[j]).len(),
        i < j || k < l,
    ensures
        candidates(schema.variants@[i])[k] != candidates(schema.variants@[j])[l],
{
    lemma_distinct(name, schema.variants@, Seq::empty(), 0, i, k, j, l);
}

proof fn lemma_not_repeated(seen: Seq<u64>, values: Seq<u64>, from: int, l: int)
    requires
        repeated(seen, values, from) is None,
        0 <= from <= l < values.len(),
    ensures
        !(seen + values.take(l)).contains(values[l]),
    decreases l - from,
{
    if from < l {
        lemma_not_repeated(seen, values, from + 1, l);
    }
}

proof fn lemma_distinct(
    name: Seq<char>,
    variants: Seq<TelemetryVariantDef>,
    seen: Seq<u64>,
    from: int,
    i: int,
    k: int,
    j: int,
    l: int,
)
    requires
        variants_fault(name, variants, seen, from) is None,
        0 <= from <= i <= j < variants.len(),
        0 <= k < candidates(variants[i]).len(),
        0 <= l < candidates(variants[j]).len(),
        i < j || k < l,
    ensures
        candidates(variants[i])[k] != candidates(variants[j])[l],
    decreases j - from,
{
    let now = candidates(variants[from]);
    if from < i {
        lemma_distinct(name, variants, seen + now, from + 1, i, k, j, l);
    } else if i == j {
        lemma_not_repeated(seen, now, 0, l);
        let before = seen + now.take(l);
        assert(before[seen.len() + k] == now[k]);
    } else {
        assert((seen + now)[seen.len() + k] == now[k]);
        lemma_seen(name, variants, seen + now, from + 1, now[k], j, l);
    }
}

proof fn lemma_seen(
    name: Seq<char>,
    variants: Seq<TelemetryVariantDef>,
    seen: Seq<u64>,
    from: int,
    value: u64,
    j: int,
    l: int,
)
    requires
        variants_fault(name, variants, seen, from) is None,
        0 <= from <= j < variants.len(),
        0 <= l < candidates(variants[j]).len(),
        seen.contains(value),
    ensures
        candidates(variants[j])[l] != value,
    decreases j - from,
{
    let now = candidates(variants[from]);
    let at = choose|at: int| 0 <= at < seen.len() && seen[at] == value;
    if from == j {
        lemma_not_repeated(seen, now, 0, l);
        assert((seen + now.take(l))[at] == value);
    } else {
        assert((seen + now)[at] == value);
        lemma_seen(name, variants, seen + now, from + 1, value, j, l);
    }
}

} // verus!
