//! Stage traits, data models, and error types shared by the decoders.
use vstd::prelude::*;
use crate::satellite::{Real32, Real64};
use crate::text::{decimal, decimal_string};
use vstd::string::StringExecFns;

verus! {

/// Converts a stream of raw samples into a stream of recovered symbols.
///
/// Implementations are stateful: call [`push_samples`](Self::push_samples)
/// repeatedly as samples arrive. Each emitted byte is `0x00` or `0x01`,
/// representing one recovered bit.
pub trait Demodulator: Send {
    /// Sample type consumed by this demodulator.
    type Sample: Copy + Send;

    /// Push a chunk of samples through the demodulator and return any bits
    /// that were recovered.
    fn push_samples(&mut self, samples: &[Self::Sample]) -> Vec<u8>;

    /// Sample rate this demodulator was constructed for, in Hz.
    fn sample_rate(&self) -> u32;

    /// Symbol rate of the demodulated signal, in baud.
    fn baudrate(&self) -> u32;
}

/// Decodes a line-coded bit stream in place.
///
/// This trait is for hard line coding such as NRZI and NRZ-M / NRZ-S. It is
/// separate from [`Descrambler`] because line coding and scrambling are
/// different transforms.
pub trait LineDecoder: Send {
    /// Decode a bit stream in place.
    fn decode(&mut self, bits: &mut [u8]);
}

/// Descrambles a hard bit stream in place.
///
/// This trait is for self-synchronising scramblers such as G3RUH or CCSDS
/// randomizers.
pub trait Descrambler: Send {
    /// Descramble a bit stream in place.
    fn descramble(&mut self, data: &mut [u8]);
}

/// Decodes a forward-error-correction block into plain bytes.
pub trait Fec: Send {
    /// Decode an FEC-protected block and return the recovered payload.
    fn decode(&self, data: &[u8]) -> Result<Vec<u8>, DecodeError>;
}

/// Finds frame boundaries in a bit (or byte) stream and returns complete
/// frames.
pub trait Framing: Send {
    /// Push bytes through the framer and return any complete frames that
    /// were recovered as a result. The vector may be empty.
    fn push_bytes(&mut self, bytes: &[u8]) -> Vec<Frame>;
}

/// Parses a raw [`Frame`] into human-readable telemetry fields.
///
/// Implementations are typically constructed from a satellite definition (see
/// [`TelemetrySchemaDef`](crate::satellite::TelemetrySchemaDef)) and used as a
/// stateless transform.
pub trait TelemetrySchema: Send {
    /// Parse the raw bytes of a frame into a list of telemetry fields.
    fn parse(&self, frame: &Frame) -> Vec<TelemetryField>;
}

/// A complete decoded frame, after framing but before telemetry parsing.
///
/// `raw` holds the payload bytes only: flag and preamble bytes and CRCs are
/// stripped by the [`Framing`] stage. When a frame was received stays with the
/// receiver; no decoder reads it.
#[derive(Debug)]
pub struct Frame {
    /// NORAD catalog number of the satellite this frame is attributed to.
    pub satellite_id: u32,
    /// Optional received signal strength indicator at the time of reception.
    pub rssi_dbm: Option<Real32>,
    /// Raw payload bytes of the frame.
    pub raw: Vec<u8>,
    /// Framing protocol that produced this frame.
    pub frame_type: FrameType,
}

/// The framing protocol a [`Frame`] was decoded from.
#[derive(Debug, Clone, Copy, PartialEq, Eq, Structural)]
pub enum FrameType {
    /// Standard amateur-radio AX.25 frame (typically over HDLC).
    Ax25,
    /// AMSAT AO-40 forward-error-correction frame format.
    Ao40Fec,
    /// GOMspace AX100 transceiver frame format.
    GomspaceAx100,
    /// CCSDS space-data-link frame.
    Ccsds,
    /// FX.25 (AX.25 wrapped in a Reed-Solomon outer code).
    Fx25,
    /// Frame whose framing is unknown or not yet classified.
    Unknown,
}

/// Severity of a telemetry-field warning, derived from `warn_below` /
/// `warn_above` thresholds in the satellite definition.
#[derive(Debug, Clone, Copy, PartialEq, Eq, Structural)]
pub enum WarnLevel {
    /// The value is within all configured thresholds.
    Normal,
    /// The value crossed a soft threshold but is not yet critical.
    Warn,
    /// The value is outside any reasonable operating range.
    Error,
}

/// A single telemetry datapoint extracted from a frame.
#[derive(Debug)]
pub struct TelemetryField {
    /// Short identifier of the field (e.g. `"bat_voltage"`).
    pub key: String,
    /// Group or category that the field belongs to (e.g. `"eps"`, `"thermal"`).
    pub group: String,
    /// Decoded value of the field.
    pub value: TelemetryValue,
    /// Engineering unit of the field, if any (e.g. `"V"`, `"C"`).
    pub unit: Option<String>,
    /// Whether the field is in a healthy range, given the thresholds of the
    /// satellite definition.
    pub warn: WarnLevel,
}

/// The decoded value of a [`TelemetryField`].
#[derive(Debug)]
pub enum TelemetryValue {
    /// A scaled, dimensionful floating-point value.
    Float(Real64),
    /// A signed integer value.
    Int(i64),
    /// A boolean value (e.g. a status flag).
    Bool(bool),
    /// Raw bytes, for fields whose interpretation is opaque.
    Bytes(Vec<u8>),
}

/// Errors emitted by input sources.
#[derive(Debug)]
pub enum IoError {
    /// The operating system reported an error; its text.
    Io(String),
    /// File or stream format is not understood (e.g. unsupported WAV sample
    /// format, malformed header).
    Format(String),
    /// The end of the input stream was reached.
    EndOfStream,
}

impl IoError {
    /// Human-readable description.
    pub fn message(&self) -> (text: String)
        ensures
            text@ == match *self {
                IoError::Io(reason) => "IO error: "@ + reason@,
                IoError::Format(reason) => "Format error: "@ + reason@,
                IoError::EndOfStream => "End of stream"@,
            },
    {
        match self {
            IoError::Io(reason) => "IO error: ".to_string().concat(reason.as_str()),
            IoError::Format(reason) => "Format error: ".to_string().concat(reason.as_str()),
            IoError::EndOfStream => "End of stream".to_string(),
        }
    }
}

/// Errors emitted by demodulator, framer and decoder code while processing a
/// frame.
#[derive(Debug)]
pub enum DecodeError {
    /// Frame failed its CRC check.
    CrcMismatch,
    /// Frame is shorter than the minimum length for its protocol.
    TooShort(usize),
    /// A field encoded inside a frame uses an encoding the decoder cannot
    /// understand.
    InvalidEncoding(String),
}

impl DecodeError {
    /// Human-readable description.
    pub fn message(&self) -> (text: String)
        ensures
            text@ == match *self {
                DecodeError::CrcMismatch => "CRC mismatch"@,
                DecodeError::TooShort(n) => "Frame too short: "@ + decimal(n as nat) + " bytes"@,
                DecodeError::InvalidEncoding(reason) => "Invalid encoding: "@ + reason@,
            },
    {
        match self {
            DecodeError::CrcMismatch => "CRC mismatch".to_string(),
            DecodeError::TooShort(n) => "Frame too short: ".to_string().concat(
                decimal_string(*n as u64).as_str(),
            ).concat(" bytes"),
            DecodeError::InvalidEncoding(reason) => "Invalid encoding: ".to_string().concat(
                reason.as_str(),
            ),
        }
    }
}

/// The error carries exactly this message.
pub open spec fn invalid_encoding(err: DecodeError, text: Seq<char>) -> bool {
    err matches DecodeError::InvalidEncoding(message) && message@ == text
}

/// Errors emitted while loading or validating a satellite definition.
#[derive(Debug)]
pub enum ConfigError {
    /// The file could not be opened or read.
    Io(String),
    /// The TOML payload is syntactically invalid.
    Toml(String),
    /// A required field was missing from the TOML.
    MissingField(String),
    /// A field was present but contained an invalid value.
    InvalidValue {
        /// Name of the offending field.
        field: String,
        /// Human-readable reason the value was rejected.
        reason: String,
    },
}

impl ConfigError {
    /// Human-readable description.
    pub fn message(&self) -> (text: String)
        ensures
            text@ == match *self {
                ConfigError::Io(e) => "IO error: "@ + e@,
                ConfigError::Toml(e) => "TOML parse error: "@ + e@,
                ConfigError::MissingField(f) => "Missing field: "@ + f@,
                ConfigError::InvalidValue { field, reason } => "Invalid value for "@ + field@
                    + ": "@ + reason@,
            },
    {
        match self {
            ConfigError::Io(e) => "IO error: ".to_string().concat(e.as_str()),
            ConfigError::Toml(e) => "TOML parse error: ".to_string().concat(e.as_str()),
            ConfigError::MissingField(f) => "Missing field: ".to_string().concat(f.as_str()),
            ConfigError::InvalidValue { field, reason } => "Invalid value for ".to_string().concat(
                field.as_str(),
            ).concat(": ").concat(reason.as_str()),
        }
    }
}

} // verus!
