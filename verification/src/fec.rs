//! Forward-error-correction helpers shared by frame decoders.
use vstd::prelude::*;
use crate::model::{invalid_encoding, DecodeError, Fec};
use crate::reed_solomon;
use crate::reed_solomon::{decoded_message, decodes, shortened_result, RsDecoded};
use crate::viterbi;
use crate::viterbi::{decoded, hard_cost, has_pairs, soft_cost};

verus! {

/// Reed-Solomon helper for shortened interleaved CCSDS-style codewords.
#[derive(Debug, Clone, Copy)]
pub struct ReedSolomon {
    interleave: usize,
}

impl ReedSolomon {
    /// The interleave factor.
    pub closed spec fn factor(&self) -> nat {
        self.interleave as nat
    }

    /// Create a new Reed-Solomon helper for a fixed interleave factor.
    pub fn new(interleave: usize) -> (r: Self)
        ensures
            r.factor() == interleave,
    {
        Self { interleave }
    }

    /// Decode a shortened Reed-Solomon block and keep the correction count.
    pub fn decode_shortened(&self, data: &[u8]) -> (res: Result<RsDecoded, DecodeError>)
        ensures
            shortened_result(data@, self.factor(), Seq::empty(), res),
    {
        reed_solomon::decode_shortened(data, self.interleave)
    }

    /// Decode a shortened Reed-Solomon block with the given erasure positions
    /// in codeword coordinates `[0, data.len())`.
    ///
    /// The returned `corrected_errors` count includes both pre-marked erasures
    /// and hard errors.
    pub fn decode_shortened_with_erasures(&self, data: &[u8], erasures: &[usize]) -> (res: Result<
        RsDecoded,
        DecodeError,
    >)
        ensures
            shortened_result(data@, self.factor(), erasures@, res),
    {
        reed_solomon::decode_shortened_with_erasures(data, self.interleave, erasures)
    }
}

impl Default for ReedSolomon {
    fn default() -> (r: Self)
        ensures
            r.factor() == 0,
    {
        Self { interleave: 0 }
    }
}

/// The message of a decoding without its correction count.
pub open spec fn message_result(
    data: Seq<u8>,
    interleave: nat,
    res: Result<Vec<u8>, DecodeError>,
) -> bool {
    match res {
        Ok(message) => decodes(data, interleave, Seq::empty()) && message@ == decoded_message(
            data,
            interleave,
            Seq::empty(),
        ),
        Err(err) => shortened_result(data, interleave, Seq::empty(), Err(err)),
    }
}

impl Fec for ReedSolomon {
    fn decode(&self, data: &[u8]) -> (res: Result<Vec<u8>, DecodeError>)
        ensures
            message_result(data@, self.factor(), res),
    {
        match self.decode_shortened(data) {
            Ok(decoded) => Ok(decoded.message),
            Err(err) => Err(err),
        }
    }
}

/// Viterbi decoder for the CCSDS/AO-40 K=7, rate-1/2 code.
#[derive(Debug, Clone, Copy)]
pub struct Viterbi;

/// What hard-decision decoding returns.
pub open spec fn hard_result(symbols: Seq<u8>, res: Result<Vec<u8>, DecodeError>) -> bool {
    match res {
        Ok(bits) => has_pairs(symbols.len()) && bits@ == decoded(
            hard_cost(symbols),
            symbols.len() / 2,
        ),
        Err(err) => !has_pairs(symbols.len()) && invalid_encoding(
            err,
            "Viterbi input must contain pairs of symbols"@,
        ),
    }
}

/// What soft-decision decoding returns.
pub open spec fn soft_result(symbols: Seq<i8>, res: Result<Vec<u8>, DecodeError>) -> bool {
    match res {
        Ok(bits) => has_pairs(symbols.len()) && bits@ == decoded(
            soft_cost(symbols),
            symbols.len() / 2,
        ),
        Err(err) => !has_pairs(symbols.len()) && invalid_encoding(
            err,
            "Viterbi input must contain pairs of symbols"@,
        ),
    }
}

impl Viterbi {
    /// Create a new stateless Viterbi decoder.
    pub fn new() -> (r: Self)
        ensures
            r == Viterbi,
    {
        Self
    }

    /// Decode one-bit-per-byte hard symbols into one-bit-per-byte payload
    /// bits.
    pub fn decode_bits(&self, symbols: &[u8]) -> (res: Result<Vec<u8>, DecodeError>)
        ensures
            hard_result(symbols@, res),
    {
        viterbi::decode_bits(symbols)
    }

    /// Decode signed soft symbols into one-bit-per-byte payload bits.
    ///
    /// Each input element carries one channel bit as a signed correlation
    /// value: positive means the matched filter output is closer to a `0`
    /// transmitted bit, negative means closer to `1`. Magnitude encodes the
    /// per-bit confidence; values near zero contribute little to the path
    /// metric.
    pub fn decode_soft_bits(&self, symbols: &[i8]) -> (res: Result<Vec<u8>, DecodeError>)
        ensures
            soft_result(symbols@, res),
    {
        viterbi::decode_soft_bits(symbols)
    }
}

impl Default for Viterbi {
    fn default() -> (r: Self)
        ensures
            r == Viterbi,
    {
        Viterbi
    }
}

impl Fec for Viterbi {
    fn decode(&self, data: &[u8]) -> (res: Result<Vec<u8>, DecodeError>)
        ensures
            hard_result(data@, res),
    {
        self.decode_bits(data)
    }
}

} // verus!
