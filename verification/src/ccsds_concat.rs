//! CCSDS Concatenated codec (Viterbi r=1/2 K=7 inner + RS(255,223) outer).
//!
//! TX: payload -> RS(255,223) -> CCSDS scramble -> differential encode -> Viterbi encode
//! RX: Viterbi decode -> differential decode -> CCSDS descramble -> RS(255,223) -> payload
//!
//! The ASM (0x1ACFFC1D) is attached after Viterbi encoding and is not
//! convolutionally coded; the framer removes it.
use vstd::prelude::*;
use crate::bits::{
    law_bytes_of_digits, law_pack_undoes_unpack, lemma_unpacked_bits, pack_msb_bits, packed,
    unpacked, weighs,
};
use crate::ccsds_randomizer;
use crate::ccsds_randomizer::{law_self_inverse, randomized};
use crate::fec::ReedSolomon;
use crate::model::{invalid_encoding, DecodeError};
use crate::reed_solomon::{
    damage_fits, damaged_bytes, decoded_message, decodes, is_shortened_encoding, law_clean_codeword,
    law_damaged_codeword_is_repaired, paths_corrected,
};
use crate::slices::copy_range;
use crate::text::{decimal, decimal_string};
use crate::viterbi;
use crate::viterbi::{
    decoded, encoded, full_strength, hard_cost, law_decodes_clean_soft_symbols,
    law_decodes_clean_symbols, soft_cost,
};
use vstd::string::StringExecFns;

verus! {

/// Reed-Solomon basis selection for the outer code.
#[derive(Debug, Clone, Copy, PartialEq, Eq, Structural)]
pub enum RsBasis {
    /// Conventional basis (used by ASRTU-1, most CCSDS satellites).
    Conventional,
    /// Dual basis (used by some older satellites).
    Dual,
}

/// CCSDS Concatenated frame decoder.
#[derive(Debug, Clone, Copy)]
pub struct CcsdsConcatDecoder {
    frame_size: usize,
    differential: bool,
    rs_basis: RsBasis,
}

/// A successfully decoded CCSDS Concatenated frame.
#[derive(Debug)]
pub struct CcsdsConcatFrame {
    /// Decoded payload bytes.
    pub payload: Vec<u8>,
    /// Number of Reed-Solomon byte errors corrected.
    pub corrected_errors: usize,
}

/// Number of coded channel bits for one RS(255,223) codeword at rate 1/2.
/// 255 bytes * 8 bits * 2 (rate-1/2) = 4080 channel bits.
pub const CCSDS_CONCAT_CODED_BITS: usize = 4080;

/// The standard CCSDS TM attached sync marker.
pub const CCSDS_ASM: u32 = 0x1ACF_FC1D;

/// Differential decoding: each bit combined with the one before.
pub open spec fn differential_decoded(bits: Seq<u8>) -> Seq<u8> {
    Seq::new(
        bits.len(),
        |i: int|
            if i == 0 {
                bits[0]
            } else {
                (bits[i] ^ bits[i - 1]) & 1u8
            },
    )
}

/// Bit `i` of the differential encoding.
pub open spec fn differential_bit(bits: Seq<u8>, i: nat) -> u8
    decreases i,
{
    if i == 0 {
        bits[0]
    } else {
        (differential_bit(bits, (i - 1) as nat) ^ bits[i as int]) & 1u8
    }
}

/// Differential encoding: each bit combined with the encoded bit before.
pub open spec fn differential_encoded(bits: Seq<u8>) -> Seq<u8> {
    Seq::new(bits.len(), |i: int| differential_bit(bits, i as nat))
}

/// The Reed-Solomon word behind the Viterbi-decoded bits.
pub open spec fn outer_word(bits: Seq<u8>, differential: bool) -> Seq<u8> {
    randomized(
        packed(
            if differential {
                differential_decoded(bits)
            } else {
                bits
            },
        ),
    )
}

/// What the stages after the Viterbi decoder return for 2040 bits.
pub open spec fn outer_result(
    bits: Seq<u8>,
    frame_size: nat,
    differential: bool,
    res: Result<CcsdsConcatFrame, DecodeError>,
) -> bool {
    let word = outer_word(bits, differential);
    if 255 < 32 + frame_size {
        res matches Err(DecodeError::TooShort(n)) && n == 255
    } else if !decodes(word, 1, Seq::empty()) {
        res matches Err(DecodeError::CrcMismatch)
    } else {
        &&& res is Ok
        &&& res->Ok_0.payload@ == decoded_message(word, 1, Seq::empty()).take(frame_size as int)
        &&& res->Ok_0.corrected_errors == paths_corrected(word, 1, Seq::empty(), 1)
    }
}

impl CcsdsConcatDecoder {
    /// Payload size after RS decoding (e.g. 223 for RS(255,223)).
    pub closed spec fn size(&self) -> nat {
        self.frame_size as nat
    }

    /// Whether differential decoding follows the Viterbi decoder (it resolves
    /// the BPSK 180 degree phase ambiguity).
    pub closed spec fn is_differential(&self) -> bool {
        self.differential
    }

    /// Reed-Solomon basis (reserved; decoding uses the conventional basis).
    pub closed spec fn basis(&self) -> RsBasis {
        self.rs_basis
    }

    /// Create a decoder with the given parameters.
    pub fn new(frame_size: usize, differential: bool, rs_basis: RsBasis) -> (d: Self)
        ensures
            d.size() == frame_size,
            d.is_differential() == differential,
            d.basis() == rs_basis,
    {
        Self { frame_size, differential, rs_basis }
    }

    /// Decode from hard-decision channel bits (one bit per byte, 0 or 1).
    ///
    /// Input length must be [`CCSDS_CONCAT_CODED_BITS`] (4080).
    pub fn decode(&self, coded_bits: &[u8]) -> (res: Result<CcsdsConcatFrame, DecodeError>)
        ensures
            if coded_bits@.len() != 4080 {
                res matches Err(err) && invalid_encoding(
                    err,
                    "CCSDS Concatenated expects 4080 coded bits, got "@ + decimal(
                        coded_bits@.len(),
                    ),
                )
            } else {
                outer_result(
                    decoded(hard_cost(coded_bits@), 2040),
                    self.size(),
                    self.is_differential(),
                    res,
                )
            },
    {
        if coded_bits.len() != CCSDS_CONCAT_CODED_BITS {
            return Err(
                DecodeError::InvalidEncoding(
                    "CCSDS Concatenated expects 4080 coded bits, got ".to_string().concat(
                        decimal_string(coded_bits.len() as u64).as_str(),
                    ),
                ),
            );
        }
        proof {
            viterbi::lemma_decoded_len(hard_cost(coded_bits@), 2040);
        }
        match viterbi::decode_bits(coded_bits) {
            Ok(bits) => self.post_viterbi(bits.as_slice()),
            Err(err) => Err(err),
        }
    }

    /// Decode from soft-decision channel symbols (signed i8, one per coded
    /// bit). Positive = bit 0, negative = bit 1, magnitude = confidence.
    ///
    /// Input length must be [`CCSDS_CONCAT_CODED_BITS`] (4080).
    pub fn decode_soft(&self, soft: &[i8]) -> (res: Result<CcsdsConcatFrame, DecodeError>)
        ensures
            if soft@.len() != 4080 {
                res matches Err(err) && invalid_encoding(
                    err,
                    "CCSDS Concatenated expects 4080 soft symbols, got "@ + decimal(soft@.len()),
                )
            } else {
                outer_result(
                    decoded(soft_cost(soft@), 2040),
                    self.size(),
                    self.is_differential(),
                    res,
                )
            },
    {
        if soft.len() != CCSDS_CONCAT_CODED_BITS {
            return Err(
                DecodeError::InvalidEncoding(
                    "CCSDS Concatenated expects 4080 soft symbols, got ".to_string().concat(
                        decimal_string(soft.len() as u64).as_str(),
                    ),
                ),
            );
        }
        proof {
            viterbi::lemma_decoded_len(soft_cost(soft@), 2040);
        }
        match viterbi::decode_soft_bits(soft) {
            Ok(bits) => self.post_viterbi(bits.as_slice()),
            Err(err) => Err(err),
        }
    }

    /// Post-Viterbi processing: differential decode, pack, descramble, RS.
    fn post_viterbi(&self, bits: &[u8]) -> (res: Result<CcsdsConcatFrame, DecodeError>)
        requires
            bits@.len() == 2040,
        ensures
            outer_result(bits@, self.size(), self.is_differential(), res),
    {
        let plain: Vec<u8> = if self.differential {
            differential_decode(bits)
        } else {
            copy_range(bits, 0, bits.len())
        };
        assert(!self.differential ==> plain@ =~= bits@);
        let mut bytes: Vec<u8> = pack_msb_bits(plain.as_slice());
        ccsds_randomizer::xor_sequence(bytes.as_mut_slice());
        if self.frame_size > 223 {
            return Err(DecodeError::TooShort(bytes.len()));
        }
        match ReedSolomon::new(1).decode_shortened(bytes.as_slice()) {
            Ok(decoded) => {
                let payload: Vec<u8> = copy_range(decoded.message.as_slice(), 0, self.frame_size);
                assert(payload@ =~= decoded.message@.take(self.frame_size as int));
                Ok(CcsdsConcatFrame { payload, corrected_errors: decoded.corrected_errors })
            },
            Err(err) => Err(err),
        }
    }
}

/// Differential decode: `output[i] = input[i] XOR input[i-1]`. Resolves the
/// 180-degree BPSK phase ambiguity. The first bit has no reference and is kept.
pub fn differential_decode(bits: &[u8]) -> (out: Vec<u8>)
    ensures
        out@ == differential_decoded(bits@),
{
    let mut out: Vec<u8> = Vec::new();
    let mut i: usize = 0;
    while i < bits.len()
        invariant
            i <= bits@.len(),
            out@ == differential_decoded(bits@).take(i as int),
        decreases bits@.len() - i,
    {
        if i == 0 {
            out.push(bits[0]);
        } else {
            out.push((bits[i] ^ bits[i - 1]) & 1u8);
        }
        i = i + 1;
        assert(out@ =~= differential_decoded(bits@).take(i as int));
    }
    assert(out@ =~= differential_decoded(bits@));
    out
}

/// Differential encode: `output[i] = output[i-1] XOR input[i]`.
pub fn differential_encode(bits: &[u8]) -> (out: Vec<u8>)
    ensures
        out@ == differential_encoded(bits@),
{
    let mut out: Vec<u8> = Vec::new();
    let mut i: usize = 0;
    while i < bits.len()
        invariant
            i <= bits@.len(),
            out@ == differential_encoded(bits@).take(i as int),
        decreases bits@.len() - i,
    {
        if i == 0 {
            out.push(bits[0]);
        } else {
            out.push((out[i - 1] ^ bits[i]) & 1u8);
        }
        i = i + 1;
        assert(out@ =~= differential_encoded(bits@).take(i as int));
    }
    assert(out@ =~= differential_encoded(bits@));
    out
}

proof fn lemma_differential_step(a: u8, b: u8)
    by (bit_vector)
    requires
        a <= 1,
        b <= 1,
    ensures
        (a ^ b) & 1u8 <= 1,
        (((a ^ b) & 1u8) ^ a) & 1u8 == b,
{
}

proof fn lemma_phase_bit(a: u8, b: u8)
    by (bit_vector)
    requires
        a <= 1,
        b <= 1,
    ensures
        ((1u8 ^ a) ^ (1u8 ^ b)) & 1u8 == (a ^ b) & 1u8,
        (a ^ b) & 1u8 == if a == b {
            0u8
        } else {
            1u8
        },
{
}

/// Differential decoding resolves the 180-degree phase ambiguity: bits that were all
/// received inverted decode as the bits themselves, but for the first, which has no
/// reference.
pub proof fn law_phase_does_not_matter(bits: Seq<u8>, inverted: Seq<u8>)
    requires
        inverted.len() == bits.len(),
        forall|k: int| 0 <= k < bits.len() ==> #[trigger] bits[k] <= 1,
        forall|k: int| 0 <= k < bits.len() ==> #[trigger] inverted[k] == 1u8 ^ bits[k],
    ensures
        differential_decoded(inverted).len() == differential_decoded(bits).len(),
        forall|k: int|
            1 <= k < bits.len() ==> #[trigger] differential_decoded(inverted)[k]
                == differential_decoded(bits)[k],
{
    assert forall|k: int| 1 <= k < bits.len() implies #[trigger] differential_decoded(inverted)[k]
        == differential_decoded(bits)[k] by {
        assert(inverted[k] == 1u8 ^ bits[k] && inverted[k - 1] == 1u8 ^ bits[k - 1]);
        lemma_phase_bit(bits[k], bits[k - 1]);
    }
}

proof fn lemma_differential_bit(bits: Seq<u8>, i: nat)
    requires
        i < bits.len(),
        forall|k: int| 0 <= k < bits.len() ==> bits[k] <= 1,
    ensures
        differential_bit(bits, i) <= 1,
    decreases i,
{
    if i > 0 {
        lemma_differential_bit(bits, (i - 1) as nat);
        lemma_differential_step(differential_bit(bits, (i - 1) as nat), bits[i as int]);
    }
}

/// Differential decoding undoes differential encoding.
pub proof fn law_differential_round_trip(bits: Seq<u8>)
    requires
        forall|k: int| 0 <= k < bits.len() ==> bits[k] <= 1,
    ensures
        differential_decoded(differential_encoded(bits)) == bits,
        forall|k: int| 0 <= k < bits.len() ==> differential_encoded(bits)[k] <= 1,
{
    let out = differential_decoded(differential_encoded(bits));
    assert forall|i: int| 0 <= i < bits.len() implies out[i] == bits[i] by {
        if i > 0 {
            lemma_differential_bit(bits, (i - 1) as nat);
            lemma_differential_step(differential_bit(bits, (i - 1) as nat), bits[i]);
        }
    }
    assert forall|k: int| 0 <= k < bits.len() implies differential_encoded(bits)[k] <= 1 by {
        lemma_differential_bit(bits, k as nat);
    }
    assert(out =~= bits);
}

/// The line bits of a Reed-Solomon word: scrambled, unpacked and, if asked for,
/// differentially encoded.
pub open spec fn line_bits(word: Seq<u8>, differential: bool) -> Seq<u8> {
    let bits = unpacked(randomized(word));
    if differential {
        differential_encoded(bits)
    } else {
        bits
    }
}

proof fn lemma_line_bits(payload: Seq<u8>, word: Seq<u8>, differential: bool)
    requires
        payload.len() == 223,
        is_shortened_encoding(payload, 1, word),
    ensures
        line_bits(word, differential).len() == 2040,
        forall|k: int| 0 <= k < 2040 ==> line_bits(word, differential)[k] <= 1,
        outer_word(line_bits(word, differential), differential) == word,
        decodes(word, 1, Seq::empty()),
        decoded_message(word, 1, Seq::empty()) == payload,
        paths_corrected(word, 1, Seq::empty(), 1) == 0,
{
    let bits = unpacked(randomized(word));
    lemma_unpacked_bits(randomized(word));
    law_differential_round_trip(bits);
    law_pack_undoes_unpack(randomized(word), Seq::empty());
    assert(bits + Seq::<u8>::empty() =~= bits);
    assert(packed(bits).take(255) =~= packed(bits));
    law_self_inverse(word);
    law_clean_codeword(payload, 1, word, Seq::empty());
}

/// A clean transmission gives back its payload, by hard decisions and by soft
/// decisions at full strength.
pub proof fn law_round_trip(
    payload: Seq<u8>,
    word: Seq<u8>,
    frame_size: nat,
    differential: bool,
    hard: Result<CcsdsConcatFrame, DecodeError>,
    soft: Result<CcsdsConcatFrame, DecodeError>,
)
    requires
        payload.len() == 223,
        is_shortened_encoding(payload, 1, word),
        frame_size <= 223,
        outer_result(
            decoded(hard_cost(encoded(line_bits(word, differential))), 2040),
            frame_size,
            differential,
            hard,
        ),
        outer_result(
            decoded(soft_cost(full_strength(encoded(line_bits(word, differential)))), 2040),
            frame_size,
            differential,
            soft,
        ),
    ensures
        hard is Ok,
        hard->Ok_0.payload@ == payload.take(frame_size as int),
        hard->Ok_0.corrected_errors == 0,
        soft is Ok,
        soft->Ok_0.payload@ == payload.take(frame_size as int),
        soft->Ok_0.corrected_errors == 0,
{
    lemma_line_bits(payload, word, differential);
    law_decodes_clean_symbols(line_bits(word, differential));
    law_decodes_clean_soft_symbols(line_bits(word, differential));
}

/// Up to 16 bytes that are still wrong behind the Viterbi decoder and the line code are
/// repaired, and counted.
pub proof fn law_damaged_frame_is_repaired(
    payload: Seq<u8>,
    word: Seq<u8>,
    bits: Seq<u8>,
    frame_size: nat,
    differential: bool,
    res: Result<CcsdsConcatFrame, DecodeError>,
)
    requires
        payload.len() == 223,
        is_shortened_encoding(payload, 1, word),
        frame_size <= 223,
        bits.len() == 2040,
        damage_fits(outer_word(bits, differential), word, Seq::empty(), 1, 0),
        outer_result(bits, frame_size, differential, res),
    ensures
        res is Ok,
        res->Ok_0.payload@ == payload.take(frame_size as int),
        res->Ok_0.corrected_errors == damaged_bytes(outer_word(bits, differential), word, 255),
{
    let received = outer_word(bits, differential);
    assert forall|path: int| 0 <= path < 1 implies #[trigger] damage_fits(
        received,
        word,
        Seq::empty(),
        1,
        path,
    ) by {
        assert(path == 0);
    }
    law_damaged_codeword_is_repaired(payload, 1, word, received, Seq::empty());
}

/// The differential decoder marks changes: a zero where a bit is the one before it, and a
/// one where it is not.
pub proof fn law_changes_are_ones(bits: Seq<u8>, i: int)
    requires
        0 < i < bits.len(),
        bits[i - 1] <= 1,
        bits[i] <= 1,
    ensures
        differential_decoded(bits).len() == bits.len(),
        differential_decoded(bits)[0] == bits[0],
        differential_decoded(bits)[i] == if bits[i] == bits[i - 1] {
            0u8
        } else {
            1u8
        },
{
    lemma_phase_bit(bits[i], bits[i - 1]);
}

/// What the stages behind the Viterbi decoder undo, in terms of the bits on the line: the
/// binary digits of the randomized codeword, the high one of each byte first, sent as
/// they are or as changes. Such bits give the payload, without corrections.
pub proof fn law_line_bits_are_read(
    payload: Seq<u8>,
    word: Seq<u8>,
    plain: Seq<u8>,
    bits: Seq<u8>,
    frame_size: nat,
    differential: bool,
    res: Result<CcsdsConcatFrame, DecodeError>,
)
    requires
        payload.len() == 223,
        is_shortened_encoding(payload, 1, word),
        frame_size <= 223,
        plain.len() == 2040,
        forall|i: int| 0 <= i < 2040 ==> #[trigger] plain[i] <= 1,
        forall|k: int| 0 <= k < 255 ==> weighs(#[trigger] randomized(word)[k], plain, 8 * k),
        bits.len() == 2040,
        forall|i: int| 0 <= i < 2040 ==> #[trigger] bits[i] <= 1,
        !differential ==> bits == plain,
        differential ==> bits[0] == plain[0] && forall|i: int|
            0 < i < 2040 ==> #[trigger] plain[i] == if bits[i] == bits[i - 1] {
                0u8
            } else {
                1u8
            },
        outer_result(bits, frame_size, differential, res),
    ensures
        res is Ok,
        res->Ok_0.payload@ == payload.take(frame_size as int),
        res->Ok_0.corrected_errors == 0,
{
    if differential {
        let found = differential_decoded(bits);
        assert forall|i: int| 0 <= i < 2040 implies found[i] == plain[i] by {
            if i > 0 {
                law_changes_are_ones(bits, i);
            }
        }
        assert(found =~= plain);
    }
    let sent = randomized(word);
    let bytes = packed(plain);
    assert forall|k: int| 0 <= k < 255 implies bytes[k] == sent[k] by {
        law_bytes_of_digits(plain, k);
        assert(weighs(sent[k], plain, 8 * k));
    }
    assert(bytes =~= sent);
    law_self_inverse(word);
    law_clean_codeword(payload, 1, word, Seq::empty());
}

} // verus!
