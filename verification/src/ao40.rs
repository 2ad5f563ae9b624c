//! AO-40 FEC frame decoder.
//!
//! AO-40 FEC, used by FUNcube-style beacons, combines a distributed syncword,
//! block interleaving, a CCSDS rate-1/2 convolutional code, the CCSDS
//! randomizer, and two shortened/interleaved RS(160,128) codewords.
use vstd::prelude::*;
use crate::bits::{
    law_pack_undoes_unpack, lemma_unpacked_bits, pack_msb_bits, packed, unpack_msb_bits, unpacked,
};
use crate::ccsds_randomizer;
use crate::ccsds_randomizer::{law_self_inverse, randomized};
use crate::fec::{ReedSolomon, Viterbi};
use crate::model::{invalid_encoding, DecodeError};
use crate::reed_solomon::{
    damage_fits, damaged_bytes, decoded_message, decodes, encode_shortened, is_shortened_encoding,
    law_clean_codeword, law_damaged_codeword_is_repaired, paths_corrected,
};
use crate::slices::copy_range;
use crate::text::{decimal, decimal_string};
use crate::viterbi;
use crate::viterbi::{
    decoded, encoded, full_strength, hard_cost, law_decodes_clean_soft_symbols,
    law_decodes_clean_symbols, soft_cost,
};
use vstd::string::StringExecFns;

verus! {

/// Bytes of user payload.
pub const AO40_PAYLOAD_LEN: usize = 256;

/// Bytes of the two interleaved codewords.
pub const AO40_RS_CODEWORD_LEN: usize = 320;

/// Interleaved codewords.
pub const AO40_INTERLEAVE: usize = 2;

/// Bits after Viterbi decoding.
pub const AO40_POST_VITERBI_BITS: usize = 2566;

/// Bytes that those bits pack into.
pub const AO40_POST_VITERBI_BYTES: usize = 321;

/// Channel symbols.
pub const AO40_VITERBI_SYMBOLS: usize = 5132;

/// Encoder for AO-40 FEC frames; emits the 5132-bit channel stream that would
/// be transmitted (after the distributed-sync interleaver wraps it into a
/// 5200-bit block).
#[derive(Debug, Clone, Copy)]
pub struct Ao40FecEncoder;

/// Decoder for AO-40 FEC post-Viterbi data.
#[derive(Debug, Clone, Copy)]
pub struct Ao40FecDecoder;

/// Decoded AO-40 FEC payload.
#[derive(Debug)]
pub struct Ao40Frame {
    /// The 256-byte user payload after de-randomizing and RS validation.
    pub payload: Vec<u8>,
    /// Number of Reed-Solomon byte errors corrected by this decoder: up to 16
    /// per RS(160,128) codeword, or 32 across the two interleaved codewords.
    pub corrected_errors: usize,
}

/// Six zero bits flush the convolutional encoder.
pub open spec fn tail_bits() -> Seq<u8> {
    Seq::new(6, |i: int| 0u8)
}

/// The channel bits of a Reed-Solomon word.
pub open spec fn channel_bits(word: Seq<u8>) -> Seq<u8> {
    encoded(unpacked(randomized(word)) + tail_bits())
}

impl Ao40FecEncoder {
    /// Construct a new AO-40 FEC encoder.
    pub fn new() -> (e: Self)
        ensures
            e == Ao40FecEncoder,
    {
        Self
    }

    /// Encode a 256-byte payload into the 5132 channel bits emitted by the
    /// transmitter before distributed-sync interleaving. Each output element
    /// is a single bit (0 or 1), matching the input format expected by
    /// [`Ao40FecDecoder::decode_channel_bits`].
    pub fn encode_to_channel_bits(&self, payload: &[u8]) -> (res: Result<Vec<u8>, DecodeError>)
        ensures
            match res {
                Ok(bits) => payload@.len() == 256 && exists|word: Seq<u8>|
                    is_shortened_encoding(payload@, 2, word) && bits@ == #[trigger] channel_bits(
                        word,
                    ),
                Err(err) => payload@.len() != 256 && invalid_encoding(
                    err,
                    "AO-40 payload must be 256 bytes, got "@ + decimal(payload@.len()),
                ),
            },
    {
        if payload.len() != AO40_PAYLOAD_LEN {
            return Err(
                DecodeError::InvalidEncoding(
                    "AO-40 payload must be 256 bytes, got ".to_string().concat(
                        decimal_string(payload.len() as u64).as_str(),
                    ),
                ),
            );
        }
        let mut codeword: Vec<u8> = encode_shortened(payload, AO40_INTERLEAVE);
        let ghost word = codeword@;
        ccsds_randomizer::xor_sequence(codeword.as_mut_slice());
        let mut bits: Vec<u8> = unpack_msb_bits(codeword.as_slice());
        let ghost front = bits@;
        let mut i: usize = 0;
        while i < 6
            invariant
                i <= 6,
                bits@ == front + tail_bits().take(i as int),
            decreases 6 - i,
        {
            bits.push(0);
            i = i + 1;
            assert(bits@ =~= front + tail_bits().take(i as int));
        }
        assert(bits@ =~= front + tail_bits());
        let out: Vec<u8> = viterbi::encode_bits(bits.as_slice());
        assert(out@ == channel_bits(word));
        Ok(out)
    }
}

impl Default for Ao40FecEncoder {
    fn default() -> (e: Self)
        ensures
            e == Ao40FecEncoder,
    {
        Ao40FecEncoder
    }
}

/// What decoding the packed post-Viterbi bytes returns.
pub open spec fn post_viterbi_result(bytes: Seq<u8>, res: Result<Ao40Frame, DecodeError>) -> bool {
    let word = randomized(bytes.take(320));
    if bytes.len() < 321 {
        res matches Err(DecodeError::TooShort(n)) && n == bytes.len()
    } else if !decodes(word, 2, Seq::empty()) {
        res matches Err(DecodeError::CrcMismatch)
    } else {
        &&& res is Ok
        &&& res->Ok_0.payload@ == decoded_message(word, 2, Seq::empty())
        &&& res->Ok_0.payload@.len() == 256
        &&& res->Ok_0.corrected_errors == paths_corrected(word, 2, Seq::empty(), 2)
    }
}

/// What decoding the post-Viterbi bits returns.
pub open spec fn post_viterbi_bits_result(
    bits: Seq<u8>,
    res: Result<Ao40Frame, DecodeError>,
) -> bool {
    if bits.len() < 2566 {
        res matches Err(DecodeError::TooShort(n)) && n == bits.len() / 8
    } else {
        post_viterbi_result(packed(bits.take(2566)), res)
    }
}

/// What decoding hard channel bits returns.
pub open spec fn channel_result(bits: Seq<u8>, res: Result<Ao40Frame, DecodeError>) -> bool {
    if bits.len() < 5132 {
        res matches Err(DecodeError::TooShort(n)) && n == bits.len() / 8
    } else {
        post_viterbi_bits_result(decoded(hard_cost(bits.take(5132)), 2566), res)
    }
}

/// What decoding soft channel symbols returns.
pub open spec fn soft_channel_result(
    symbols: Seq<i8>,
    res: Result<Ao40Frame, DecodeError>,
) -> bool {
    if symbols.len() < 5132 {
        res matches Err(DecodeError::TooShort(n)) && n == symbols.len() / 8
    } else {
        post_viterbi_bits_result(decoded(soft_cost(symbols.take(5132)), 2566), res)
    }
}

impl Ao40FecDecoder {
    /// Construct a new AO-40 FEC decoder.
    pub fn new() -> (d: Self)
        ensures
            d == Ao40FecDecoder,
    {
        Self
    }

    /// Decode AO-40 data after Viterbi decoding.
    ///
    /// The input is the 2566-bit stream emitted by the convolutional decoder,
    /// packed MSB-first into bytes. Only the first 320 bytes are randomized RS
    /// codeword data; the final six tail bits are ignored.
    pub fn decode_post_viterbi_bytes(&self, bytes: &[u8]) -> (res: Result<Ao40Frame, DecodeError>)
        ensures
            post_viterbi_result(bytes@, res),
    {
        if bytes.len() < AO40_POST_VITERBI_BYTES {
            return Err(DecodeError::TooShort(bytes.len()));
        }
        let mut codeword: Vec<u8> = copy_range(bytes, 0, AO40_RS_CODEWORD_LEN);
        assert(codeword@ =~= bytes@.take(320));
        ccsds_randomizer::xor_sequence(codeword.as_mut_slice());
        match ReedSolomon::new(AO40_INTERLEAVE).decode_shortened(codeword.as_slice()) {
            Ok(decoded) => Ok(
                Ao40Frame {
                    payload: decoded.message,
                    corrected_errors: decoded.corrected_errors,
                },
            ),
            Err(err) => Err(err),
        }
    }

    /// Decode AO-40 data after Viterbi decoding from one-bit-per-byte bits.
    ///
    /// Bits are packed MSB-first before delegating to
    /// [`decode_post_viterbi_bytes`](Self::decode_post_viterbi_bytes).
    pub fn decode_post_viterbi_bits(&self, bits: &[u8]) -> (res: Result<Ao40Frame, DecodeError>)
        ensures
            post_viterbi_bits_result(bits@, res),
    {
        if bits.len() < AO40_POST_VITERBI_BITS {
            return Err(DecodeError::TooShort(bits.len() / 8));
        }
        let used: Vec<u8> = copy_range(bits, 0, AO40_POST_VITERBI_BITS);
        assert(used@ =~= bits@.take(2566));
        let bytes: Vec<u8> = pack_msb_bits(used.as_slice());
        self.decode_post_viterbi_bytes(bytes.as_slice())
    }

    /// Decode AO-40 data after distributed-sync framing.
    ///
    /// The input is the data symbols recovered from the 5200-bit transmitted
    /// block after removing the distributed sync vector and deinterleaving.
    /// Any trailing filler symbols are ignored before Viterbi decoding.
    pub fn decode_channel_bits(&self, bits: &[u8]) -> (res: Result<Ao40Frame, DecodeError>)
        ensures
            channel_result(bits@, res),
    {
        if bits.len() < AO40_VITERBI_SYMBOLS {
            return Err(DecodeError::TooShort(bits.len() / 8));
        }
        let used: Vec<u8> = copy_range(bits, 0, AO40_VITERBI_SYMBOLS);
        assert(used@ =~= bits@.take(5132));
        match Viterbi::new().decode_bits(used.as_slice()) {
            Ok(decoded) => self.decode_post_viterbi_bits(decoded.as_slice()),
            Err(err) => Err(err),
        }
    }

    /// Decode AO-40 data after distributed-sync framing using soft per-bit
    /// confidence values.
    ///
    /// Each input element is a signed correlation value where positive means
    /// the channel bit was received as `0` and negative means `1`; magnitude is
    /// the per-bit reliability.
    pub fn decode_soft_channel_bits(&self, symbols: &[i8]) -> (res: Result<Ao40Frame, DecodeError>)
        ensures
            soft_channel_result(symbols@, res),
    {
        if symbols.len() < AO40_VITERBI_SYMBOLS {
            return Err(DecodeError::TooShort(symbols.len() / 8));
        }
        let mut used: Vec<i8> = Vec::new();
        let mut i: usize = 0;
        while i < AO40_VITERBI_SYMBOLS
            invariant
                i <= 5132,
                symbols@.len() >= 5132,
                used@ == symbols@.take(i as int),
            decreases 5132 - i,
        {
            used.push(symbols[i]);
            i = i + 1;
            assert(used@ =~= symbols@.take(i as int));
        }
        match Viterbi::new().decode_soft_bits(used.as_slice()) {
            Ok(decoded) => self.decode_post_viterbi_bits(decoded.as_slice()),
            Err(err) => Err(err),
        }
    }
}

impl Default for Ao40FecDecoder {
    fn default() -> (d: Self)
        ensures
            d == Ao40FecDecoder,
    {
        Ao40FecDecoder
    }
}

/// The distributed syncword, one character per bit.
pub open spec fn syncword_text() -> Seq<char> {
    "11111110000111011110010110010010000001000100110001011101011011000"@
}

/// AO-40 distributed syncword as one-bit-per-byte values.
pub fn ao40_syncword_bits() -> (bits: Vec<u8>)
    ensures
        bits@ == syncword_text().map_values(
            |c: char|
                if c == '1' {
                    1u8
                } else {
                    0u8
                },
        ),
        bits@.len() == 65,
{
    let text: &str = "11111110000111011110010110010010000001000100110001011101011011000";
    proof {
        reveal_strlit("11111110000111011110010110010010000001000100110001011101011011000");
    }
    let ghost want = syncword_text().map_values(
        |c: char|
            if c == '1' {
                1u8
            } else {
                0u8
            },
    );
    let mut bits: Vec<u8> = Vec::new();
    let mut i: usize = 0;
    while i < 65
        invariant
            i <= 65,
            text@ == syncword_text(),
            text@.len() == 65,
            want == syncword_text().map_values(
                |c: char|
                    if c == '1' {
                        1u8
                    } else {
                        0u8
                    },
            ),
            bits@ == want.take(i as int),
        decreases 65 - i,
    {
        let bit: u8 = if text.get_char(i) == '1' {
            1
        } else {
            0
        };
        bits.push(bit);
        i = i + 1;
        assert(bits@ =~= want.take(i as int));
    }
    assert(bits@ =~= want);
    bits
}

/// The channel bits of a payload, undamaged and with any filler behind, decode
/// to that payload without corrections.
pub proof fn law_channel_round_trip(
    payload: Seq<u8>,
    word: Seq<u8>,
    received: Seq<u8>,
    res: Result<Ao40Frame, DecodeError>,
)
    requires
        payload.len() == 256,
        is_shortened_encoding(payload, 2, word),
        received.len() >= 5132,
        received.take(5132) == channel_bits(word),
        channel_result(received, res),
    ensures
        res is Ok,
        res->Ok_0.payload@ == payload,
        res->Ok_0.corrected_errors == 0,
{
    lemma_channel_bits(payload, word);
    law_decodes_clean_symbols(unpacked(randomized(word)) + tail_bits());
}

/// The same holds for soft symbols of full strength.
pub proof fn law_soft_channel_round_trip(
    payload: Seq<u8>,
    word: Seq<u8>,
    received: Seq<i8>,
    res: Result<Ao40Frame, DecodeError>,
)
    requires
        payload.len() == 256,
        is_shortened_encoding(payload, 2, word),
        received.len() >= 5132,
        received.take(5132) == full_strength(channel_bits(word)),
        soft_channel_result(received, res),
    ensures
        res is Ok,
        res->Ok_0.payload@ == payload,
        res->Ok_0.corrected_errors == 0,
{
    lemma_channel_bits(payload, word);
    law_decodes_clean_soft_symbols(unpacked(randomized(word)) + tail_bits());
}

/// Bytes that are still wrong behind the convolutional decoder are repaired, up to 16
/// in each of the two interleaved codewords, and counted.
pub proof fn law_damaged_block_is_repaired(
    payload: Seq<u8>,
    word: Seq<u8>,
    received: Seq<u8>,
    res: Result<Ao40Frame, DecodeError>,
)
    requires
        payload.len() == 256,
        is_shortened_encoding(payload, 2, word),
        received.len() >= 321,
        forall|path: int|
            0 <= path < 2 ==> #[trigger] damage_fits(
                randomized(received.take(320)),
                word,
                Seq::empty(),
                2,
                path,
            ),
        post_viterbi_result(received, res),
    ensures
        res is Ok,
        res->Ok_0.payload@ == payload,
        res->Ok_0.corrected_errors == damaged_bytes(randomized(received.take(320)), word, 320),
{
    law_damaged_codeword_is_repaired(
        payload,
        2,
        word,
        randomized(received.take(320)),
        Seq::empty(),
    );
}

proof fn lemma_channel_bits(payload: Seq<u8>, word: Seq<u8>)
    requires
        payload.len() == 256,
        is_shortened_encoding(payload, 2, word),
    ensures
        ({
            let bits = unpacked(randomized(word)) + tail_bits();
            &&& bits.len() == 2566
            &&& forall|i: int| 0 <= i < 2566 ==> bits[i] <= 1
            &&& bits.take(2566) == bits
            &&& randomized(packed(bits).take(320)) == word
        }),
        decodes(word, 2, Seq::empty()),
        decoded_message(word, 2, Seq::empty()) == payload,
        paths_corrected(word, 2, Seq::empty(), 2) == 0,
{
    let bits = unpacked(randomized(word)) + tail_bits();
    lemma_unpacked_bits(randomized(word));
    assert forall|i: int| 0 <= i < bits.len() implies bits[i] <= 1 by {
        if i < 2560 {
            assert(bits[i] == unpacked(randomized(word))[i]);
        }
    }
    assert(bits.take(2566) =~= bits);
    law_pack_undoes_unpack(randomized(word), tail_bits());
    law_self_inverse(word);
    law_clean_codeword(payload, 2, word, Seq::empty());
}

} // verus!
