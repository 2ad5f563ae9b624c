//! GOMspace NanoCom AX100 frame decoder.
//!
//! AX100 uses two common framing modes in amateur-satellite downlinks:
//! Reed-Solomon mode and ASM+Golay mode. This module decodes already
//! synchronized packet bytes; finding the AX100 ASM syncword belongs in the
//! framing layer.
use vstd::prelude::*;
use crate::ccsds_randomizer;
use crate::ccsds_randomizer::{law_self_inverse, mask_byte, randomized};
use crate::crc32c;
use crate::crc32c::crc32c;
use crate::fec::ReedSolomon;
use crate::gf256::lemma_xor;
use crate::golay;
use crate::golay::{difference, lemma_nearest, near, nearest, GolayWord};
use crate::golay_code::{codeword, lemma_matrix, ones};
use crate::model::{invalid_encoding, DecodeError};
use crate::reed_solomon::{
    corrections, damage_fits, damaged_bytes, decoded_message, decodes, is_shortened_encoding,
    law_clean_codeword, law_damaged_codeword_is_repaired, path_corrections, paths_corrected,
};
use crate::slices::copy_range;

verus! {

/// Bytes of the Golay header.
pub const ASM_GOLAY_HEADER_LEN: usize = 3;

/// Longest Reed-Solomon mode packet.
pub const AX100_RS_MAX_PDU_LEN: usize = 256;

/// Longest ASM+Golay mode packet.
pub const AX100_ASM_GOLAY_MAX_PDU_LEN: usize = 258;

/// The attached sync marker.
pub const AX100_SYNCWORD: u32 = 0x930b_51de;

/// Decoder for GOMspace NanoCom AX100 packets.
#[derive(Debug, Clone, Copy)]
pub struct Ax100Decoder;

/// Decoded AX100 packet.
#[derive(Debug)]
pub struct Ax100Frame {
    /// AX100 framing mode used by the packet.
    pub mode: Ax100Mode,
    /// Decoded packet payload, usually a CSP frame.
    pub payload: Vec<u8>,
    /// Number of Reed-Solomon byte errors (and erasures) corrected by this
    /// decoder.
    pub corrected_errors: usize,
    /// CRC-32C verification result for modes that carry a CRC trailer
    /// ([`Ax100Mode::AsmGolayCrc`]). `None` for RS-protected modes, which rely
    /// on the Reed-Solomon syndrome instead of a separate CRC.
    pub crc_ok: Option<bool>,
    /// ASM+Golay header flags. In Reed-Solomon mode these are all false.
    pub flags: Ax100Flags,
}

/// AX100 framing mode.
#[derive(Debug, Clone, Copy, PartialEq, Eq, Structural)]
pub enum Ax100Mode {
    /// AX100 Reed-Solomon mode.
    ReedSolomon,
    /// AX100 ASM+Golay mode with CCSDS scrambling and RS(255,223).
    AsmGolay,
    /// AX100 ASM+Golay mode with CCSDS scrambling and a CRC-32C trailer,
    /// without Reed-Solomon. Used by the GreenCube / IO-117 digipeater.
    AsmGolayCrc,
}

/// Flags carried in AX100 ASM+Golay style headers.
#[derive(Debug, Clone, Copy, PartialEq, Eq, Structural)]
pub struct Ax100Flags {
    /// Payload was Viterbi-decoded before this decoder.
    pub viterbi: bool,
    /// Payload was CCSDS-randomized.
    pub scrambler: bool,
    /// Payload carried Reed-Solomon parity.
    pub reed_solomon: bool,
    /// Number of corrected Golay header bit errors.
    pub golay_errors: u8,
}

/// No flag set.
pub open spec fn no_flags() -> Ax100Flags {
    Ax100Flags { viterbi: false, scrambler: false, reed_solomon: false, golay_errors: 0 }
}

impl Default for Ax100Flags {
    fn default() -> (f: Self)
        ensures
            f == no_flags(),
    {
        Ax100Flags { viterbi: false, scrambler: false, reed_solomon: false, golay_errors: 0 }
    }
}

/// AX100 32-bit attached sync marker used by many NanoCom AX100 downlinks.
pub fn ax100_syncword() -> (w: u32)
    ensures
        w == 0x930b_51de,
{
    AX100_SYNCWORD
}

/// The first three bytes as a 24-bit word.
pub open spec fn header_word(packet: Seq<u8>) -> u32 {
    (65536 * packet[0] + 256 * packet[1] + packet[2]) as u32
}

/// The number of bit errors in the header.
pub open spec fn header_errors(packet: Seq<u8>) -> int {
    ones(difference(header_word(packet), nearest(header_word(packet)).unwrap()))
}

/// The length that the header carries in its low eight bits.
pub open spec fn header_length(packet: Seq<u8>) -> int {
    nearest(header_word(packet)).unwrap() as int % 256
}

/// The bytes that the header announces.
pub open spec fn field_of(packet: Seq<u8>) -> Seq<u8> {
    packet.subrange(3, 3 + header_length(packet))
}

/// The error for a packet that is too long for ASM+Golay mode.
pub open spec fn too_long(err: DecodeError) -> bool {
    invalid_encoding(err, "AX100 ASM+Golay packet is longer than 258 bytes"@)
}

/// What is wrong with the packet before its field is looked at, if anything.
/// `least` is the length that the header must exceed.
pub open spec fn header_failure(packet: Seq<u8>, least: int, err: DecodeError) -> bool {
    let len = packet.len();
    if len < 3 {
        err == DecodeError::TooShort(len as usize)
    } else if len > 258 {
        too_long(err)
    } else if nearest(header_word(packet)) is None {
        invalid_encoding(err, "uncorrectable Golay(24,12) header"@)
    } else if header_length(packet) <= least {
        err == DecodeError::TooShort(header_length(packet) as usize)
    } else {
        len < 3 + header_length(packet) && err == DecodeError::TooShort(len as usize)
    }
}

/// The packet has a readable header that announces a field which is there.
pub open spec fn header_fits(packet: Seq<u8>, least: int) -> bool {
    &&& 3 <= packet.len() <= 258
    &&& nearest(header_word(packet)) is Some
    &&& header_length(packet) > least
    &&& packet.len() >= 3 + header_length(packet)
}

/// A Reed-Solomon protected field decodes to this frame, or fails.
pub open spec fn protected_result(
    field: Seq<u8>,
    erasures: Seq<usize>,
    mode: Ax100Mode,
    flags: Ax100Flags,
    res: Result<Ax100Frame, DecodeError>,
) -> bool {
    if !decodes(field, 1, erasures) {
        res matches Err(DecodeError::CrcMismatch)
    } else {
        res matches Ok(f) && f.mode == mode && f.payload@ == decoded_message(field, 1, erasures)
            && f.corrected_errors == paths_corrected(field, 1, erasures, 1) && f.crc_ok is None
            && f.flags == flags
    }
}

/// What Reed-Solomon mode returns.
pub open spec fn rs_mode_result(packet: Seq<u8>, res: Result<Ax100Frame, DecodeError>) -> bool {
    let len = packet.len();
    if len < 33 {
        res matches Err(DecodeError::TooShort(n)) && n == len
    } else if len > 256 {
        res matches Err(err) && invalid_encoding(
            err,
            "AX100 Reed-Solomon packet is longer than 256 bytes"@,
        )
    } else if packet[0] <= 33 {
        res matches Err(DecodeError::TooShort(n)) && n == packet[0]
    } else if packet[0] > len {
        res matches Err(DecodeError::TooShort(n)) && n == len
    } else {
        protected_result(
            packet.subrange(1, packet[0] as int),
            Seq::empty(),
            Ax100Mode::ReedSolomon,
            no_flags(),
            res,
        )
    }
}

/// What ASM+Golay mode returns.
pub open spec fn asm_golay_result(
    packet: Seq<u8>,
    scrambler: bool,
    protected: bool,
    res: Result<Ax100Frame, DecodeError>,
) -> bool {
    let flags = Ax100Flags {
        viterbi: false,
        scrambler,
        reed_solomon: protected,
        golay_errors: header_errors(packet) as u8,
    };
    let field = if scrambler {
        randomized(field_of(packet))
    } else {
        field_of(packet)
    };
    if !header_fits(packet, 0) {
        res matches Err(err) && header_failure(packet, 0, err)
    } else if !protected {
        res matches Ok(f) && f.mode == Ax100Mode::AsmGolay && f.payload@ == field
            && f.corrected_errors == 0 && f.crc_ok is None && f.flags == flags
    } else if field.len() <= 32 {
        res matches Err(DecodeError::TooShort(n)) && n == field.len()
    } else {
        protected_result(field, Seq::empty(), Ax100Mode::AsmGolay, flags, res)
    }
}

/// Four bytes as a big-endian number.
pub open spec fn be32(a: u8, b: u8, c: u8, d: u8) -> u32 {
    (16777216 * a + 65536 * b + 256 * c + d) as u32
}

/// What ASM+Golay mode with a CRC trailer returns.
pub open spec fn asm_golay_crc_result(
    packet: Seq<u8>,
    res: Result<Ax100Frame, DecodeError>,
) -> bool {
    let flags = Ax100Flags {
        viterbi: false,
        scrambler: true,
        reed_solomon: false,
        golay_errors: header_errors(packet) as u8,
    };
    let field = randomized(field_of(packet));
    let body = field.len() - 36;
    if !header_fits(packet, 36) {
        res matches Err(err) && header_failure(packet, 36, err)
    } else {
        res matches Ok(f) && f.mode == Ax100Mode::AsmGolayCrc && f.payload@ == field.take(body)
            && f.corrected_errors == 0 && f.crc_ok == Some(
            crc32c(field.take(body)) == be32(
                field[body],
                field[body + 1],
                field[body + 2],
                field[body + 3],
            ),
        ) && f.flags == flags
    }
}

/// The confidence of byte `i` of the field: the least reliability among its
/// first `n` bits.
pub open spec fn confidence(soft: Seq<u32>, i: int, n: nat) -> u32
    decreases n,
{
    if n == 0 {
        u32::MAX
    } else {
        let before = confidence(soft, i, (n - 1) as nat);
        let s = soft[24 + 8 * i + n - 1];
        if s < before {
            s
        } else {
            before
        }
    }
}

/// The confidences of the bytes of a field of `len` bytes.
pub open spec fn confidences(soft: Seq<u32>, len: nat) -> Seq<u32> {
    Seq::new(len, |i: int| confidence(soft, i, 8))
}

/// The first of the least confident indices below `n` that are not used yet.
pub open spec fn least_unused(keys: Seq<u32>, used: Seq<usize>, n: nat) -> Option<usize>
    decreases n,
{
    if n == 0 {
        None
    } else {
        let before = least_unused(keys, used, (n - 1) as nat);
        let i = (n - 1) as usize;
        if used.contains(i) {
            before
        } else {
            match before {
                Some(b) => if keys[n - 1] < keys[b as int] {
                    Some(i)
                } else {
                    before
                },
                None => Some(i),
            }
        }
    }
}

/// The `k` least confident indices, least confident first; of equal ones the
/// lower index comes first.
pub open spec fn least_confident(keys: Seq<u32>, k: nat) -> Seq<usize>
    decreases k,
{
    if k == 0 {
        Seq::empty()
    } else {
        let before = least_confident(keys, (k - 1) as nat);
        match least_unused(keys, before, keys.len()) {
            Some(i) => before.push(i),
            None => before,
        }
    }
}

/// The number of bytes marked as erased.
pub open spec fn marked_count(erasure_count: nat, len: nat) -> nat {
    let a = if erasure_count < len {
        erasure_count
    } else {
        len
    };
    if a < 32 {
        a
    } else {
        32
    }
}

/// What ASM+Golay mode with soft erasure marking returns.
pub open spec fn asm_golay_soft_result(
    packet: Seq<u8>,
    soft: Seq<u32>,
    erasure_count: nat,
    res: Result<Ax100Frame, DecodeError>,
) -> bool {
    let flags = Ax100Flags {
        viterbi: false,
        scrambler: true,
        reed_solomon: true,
        golay_errors: header_errors(packet) as u8,
    };
    let len = packet.len();
    let field = randomized(field_of(packet));
    let erasures = least_confident(
        confidences(soft, field.len()),
        marked_count(erasure_count, field.len()),
    );
    if 3 <= len <= 258 && soft.len() != 8 * len {
        res matches Err(err) && invalid_encoding(
            err,
            "soft sample length must equal packet bit count"@,
        )
    } else if !header_fits(packet, 0) {
        res matches Err(err) && header_failure(packet, 0, err)
    } else if field.len() <= 32 {
        res matches Err(DecodeError::TooShort(n)) && n == field.len()
    } else {
        protected_result(field, erasures, Ax100Mode::AsmGolay, flags, res)
    }
}

proof fn lemma_least_unused(keys: Seq<u32>, used: Seq<usize>, n: nat)
    requires
        n <= keys.len() <= usize::MAX,
    ensures
        least_unused(keys, used, n) matches Some(i) ==> i < n && !used.contains(i),
        least_unused(keys, used, n) is None ==> forall|i: usize| i < n ==> used.contains(i),
    decreases n,
{
    if n > 0 {
        lemma_least_unused(keys, used, (n - 1) as nat);
    }
}

/// As many indices as asked for, all of them different.
pub proof fn lemma_least_confident(keys: Seq<u32>, k: nat)
    requires
        keys.len() <= usize::MAX,
        k <= keys.len(),
    ensures
        least_confident(keys, k).len() == k,
        least_confident(keys, k).no_duplicates(),
        forall|j: int| 0 <= j < k ==> #[trigger] least_confident(keys, k)[j] < keys.len(),
    decreases k,
{
    if k > 0 {
        let before = least_confident(keys, (k - 1) as nat);
        lemma_least_confident(keys, (k - 1) as nat);
        lemma_least_unused(keys, before, keys.len());
        if least_unused(keys, before, keys.len()) is None {
            let all = Seq::new(keys.len(), |i: int| i as usize);
            assert forall|x: usize| all.contains(x) implies before.contains(x) by {
                let i = choose|i: int| 0 <= i < all.len() && all[i] == x;
                assert(x < keys.len());
            }
            assert(all.no_duplicates());
            all.unique_seq_to_set();
            before.unique_seq_to_set();
            assert(all.to_set().subset_of(before.to_set()));
            vstd::set_lib::lemma_len_subset(all.to_set(), before.to_set());
        }
        let last = least_unused(keys, before, keys.len()).unwrap();
        assert forall|a: int, b: int|
            0 <= a < k && 0 <= b < k && a != b implies least_confident(keys, k)[a]
            != least_confident(keys, k)[b] by {
            if a == k - 1 {
                assert(before.contains(before[b]));
            } else if b == k - 1 {
                assert(before.contains(before[a]));
            }
        }
    }
}

/// The least confident indices of a list of confidences.
fn rank_least_confident(keys: &Vec<u32>, k: usize) -> (out: Vec<usize>)
    requires
        k <= keys@.len(),
    ensures
        out@ == least_confident(keys@, k as nat),
{
    let n: usize = keys.len();
    let mut used: Vec<bool> = vec![false; n];
    let mut out: Vec<usize> = Vec::new();
    let mut r: usize = 0;
    while r < k
        invariant
            r <= k,
            n == keys@.len(),
            k <= n,
            used@.len() == n,
            out@ == least_confident(keys@, r as nat),
            forall|i: int| 0 <= i < n ==> used@[i] == out@.contains(i as usize),
        decreases k - r,
    {
        let mut best: Option<usize> = None;
        let mut i: usize = 0;
        while i < n
            invariant
                i <= n,
                n == keys@.len(),
                used@.len() == n,
                best matches Some(b) ==> b < n,
                best == least_unused(keys@, out@, i as nat),
                forall|j: int| 0 <= j < n ==> used@[j] == out@.contains(j as usize),
            decreases n - i,
        {
            if !used[i] {
                let better: bool = match best {
                    Some(b) => keys[i] < keys[b],
                    None => true,
                };
                if better {
                    best = Some(i);
                }
            }
            i = i + 1;
        }
        let ghost before = out@;
        proof {
            lemma_least_unused(keys@, out@, n as nat);
            lemma_least_confident(keys@, (r + 1) as nat);
            lemma_least_confident(keys@, r as nat);
        }
        if let Some(b) = best {
            used[b] = true;
            out.push(b);
            proof {
                assert forall|j: int| 0 <= j < n implies used@[j] == out@.contains(j as usize) by {
                    if j == b {
                        assert(out@[r as int] == b);
                    } else {
                        if before.contains(j as usize) {
                            let m = choose|m: int|
                                0 <= m < before.len() && before[m] == j as usize;
                            assert(out@[m] == j as usize);
                        }
                        if out@.contains(j as usize) {
                            let m = choose|m: int| 0 <= m < out@.len() && out@[m] == j as usize;
                            assert(m < r);
                            assert(before[m] == j as usize);
                        }
                    }
                }
            }
        }
        r = r + 1;
    }
    out
}

/// A header that decoded: the length field and the number of bit errors.
struct Header {
    length: usize,
    errors: u8,
}

impl Ax100Decoder {
    /// Construct a new AX100 decoder.
    pub fn new() -> (d: Self)
        ensures
            d == Ax100Decoder,
    {
        Self
    }

    /// Check and decode the Golay header.
    fn read_header(packet: &[u8], least: usize) -> (res: Result<Header, DecodeError>)
        requires
            least < 256,
        ensures
            match res {
                Ok(h) => {
                    &&& header_fits(packet@, least as int)
                    &&& h.length == header_length(packet@)
                    &&& h.errors == header_errors(packet@)
                    &&& h.length < 256
                },
                Err(err) => !header_fits(packet@, least as int) && header_failure(
                    packet@,
                    least as int,
                    err,
                ),
            },
    {
        if packet.len() < ASM_GOLAY_HEADER_LEN {
            return Err(DecodeError::TooShort(packet.len()));
        }
        if packet.len() > AX100_ASM_GOLAY_MAX_PDU_LEN {
            return Err(
                DecodeError::InvalidEncoding(
                    "AX100 ASM+Golay packet is longer than 258 bytes".to_string(),
                ),
            );
        }
        let word: u32 = 65536 * packet[0] as u32 + 256 * packet[1] as u32 + packet[2] as u32;
        assert(word == header_word(packet@));
        let decoded: GolayWord = match golay::decode(word) {
            Ok(g) => g,
            Err(err) => {
                proof {
                    assert forall|d: u32| !near(word, d) by {}
                }
                return Err(err);
            },
        };
        proof {
            assert(near(word, decoded.data as u32));
            lemma_nearest(word, decoded.data as u32);
        }
        let length: usize = decoded.data as usize % 256;
        if length <= least {
            return Err(DecodeError::TooShort(length));
        }
        if packet.len() < ASM_GOLAY_HEADER_LEN + length {
            return Err(DecodeError::TooShort(packet.len()));
        }
        Ok(Header { length, errors: decoded.corrected_errors })
    }

    /// Decode a Reed-Solomon protected field.
    fn decode_protected(
        field: &[u8],
        erasures: &[usize],
        mode: Ax100Mode,
        flags: Ax100Flags,
    ) -> (res: Result<Ax100Frame, DecodeError>)
        requires
            32 < field@.len() <= 255,
            forall|k: int| 0 <= k < erasures@.len() ==> #[trigger] erasures@[k] < field@.len(),
        ensures
            protected_result(field@, erasures@, mode, flags, res),
    {
        match ReedSolomon::new(1).decode_shortened_with_erasures(field, erasures) {
            Ok(decoded) => Ok(
                Ax100Frame {
                    mode,
                    payload: decoded.message,
                    corrected_errors: decoded.corrected_errors,
                    crc_ok: None,
                    flags,
                },
            ),
            Err(err) => Err(err),
        }
    }

    /// Decode AX100 Reed-Solomon mode.
    ///
    /// The input is the packet following sync detection. Byte 0 is the AX100
    /// length byte. Bytes 1.. contain a shortened RS(255,223) codeword.
    pub fn decode_reed_solomon(&self, packet: &[u8]) -> (res: Result<Ax100Frame, DecodeError>)
        ensures
            rs_mode_result(packet@, res),
    {
        if packet.len() < 33 {
            return Err(DecodeError::TooShort(packet.len()));
        }
        if packet.len() > AX100_RS_MAX_PDU_LEN {
            return Err(
                DecodeError::InvalidEncoding(
                    "AX100 Reed-Solomon packet is longer than 256 bytes".to_string(),
                ),
            );
        }
        let encoded_len: usize = packet[0] as usize;
        if encoded_len <= 33 {
            return Err(DecodeError::TooShort(encoded_len));
        }
        if encoded_len > packet.len() {
            return Err(DecodeError::TooShort(packet.len()));
        }
        let codeword: Vec<u8> = copy_range(packet, 1, encoded_len);
        let none: Vec<usize> = Vec::new();
        assert(none@ =~= Seq::<usize>::empty());
        Self::decode_protected(
            codeword.as_slice(),
            none.as_slice(),
            Ax100Mode::ReedSolomon,
            Ax100Flags::default(),
        )
    }

    /// Decode AX100 ASM+Golay mode.
    ///
    /// The input starts with a three-byte Golay(24,12) header. The lower eight
    /// bits of the decoded header carry the encoded payload length. The payload
    /// is CCSDS-randomized and protected by a shortened RS(255,223) code.
    pub fn decode_asm_golay(&self, packet: &[u8]) -> (res: Result<Ax100Frame, DecodeError>)
        ensures
            asm_golay_result(packet@, true, true, res),
    {
        self.decode_asm_golay_with_options(packet, true, true)
    }

    /// Decode AX100 ASM+Golay with explicit payload options.
    ///
    /// Some compatible transmitters disable CCSDS scrambling or Reed-Solomon
    /// protection. The Golay header is still used for the encoded payload
    /// length.
    pub fn decode_asm_golay_with_options(
        &self,
        packet: &[u8],
        scrambler: bool,
        reed_solomon: bool,
    ) -> (res: Result<Ax100Frame, DecodeError>)
        ensures
            asm_golay_result(packet@, scrambler, reed_solomon, res),
    {
        let header: Header = match Self::read_header(packet, 0) {
            Ok(h) => h,
            Err(err) => return Err(err),
        };
        let flags: Ax100Flags = Ax100Flags {
            viterbi: false,
            scrambler,
            reed_solomon,
            golay_errors: header.errors,
        };
        let mut payload: Vec<u8> = copy_range(packet, 3, 3 + header.length);
        if scrambler {
            ccsds_randomizer::xor_sequence(payload.as_mut_slice());
        }
        if !reed_solomon {
            return Ok(
                Ax100Frame {
                    mode: Ax100Mode::AsmGolay,
                    payload,
                    corrected_errors: 0,
                    crc_ok: None,
                    flags,
                },
            );
        }
        if payload.len() <= 32 {
            return Err(DecodeError::TooShort(payload.len()));
        }
        let none: Vec<usize> = Vec::new();
        assert(none@ =~= Seq::<usize>::empty());
        Self::decode_protected(payload.as_slice(), none.as_slice(), Ax100Mode::AsmGolay, flags)
    }

    /// Decode AX100 ASM+Golay as used by the GreenCube / IO-117 digipeater.
    ///
    /// The length in the Golay header counts the message plus a 32-byte
    /// trailing block. The whole field is CCSDS-randomized. The message is a
    /// CSP frame followed by a 4-byte big-endian CRC-32C computed over the CSP
    /// frame.
    ///
    /// This decoder does not run forward error correction: it strips the 32
    /// trailing bytes, splits off the CRC-32C, and reports the check in
    /// `crc_ok`. The returned `payload` is the CSP frame with the CRC trailer
    /// removed.
    pub fn decode_asm_golay_crc(&self, packet: &[u8]) -> (res: Result<Ax100Frame, DecodeError>)
        ensures
            asm_golay_crc_result(packet@, res),
    {
        let header: Header = match Self::read_header(packet, 36) {
            Ok(h) => h,
            Err(err) => return Err(err),
        };
        let flags: Ax100Flags = Ax100Flags {
            viterbi: false,
            scrambler: true,
            reed_solomon: false,
            golay_errors: header.errors,
        };
        let mut field: Vec<u8> = copy_range(packet, 3, 3 + header.length);
        ccsds_randomizer::xor_sequence(field.as_mut_slice());
        let body: usize = header.length - 36;
        let expected: u32 = 16777216 * field[body] as u32 + 65536 * field[body + 1] as u32 + 256
            * field[body + 2] as u32 + field[body + 3] as u32;
        let payload: Vec<u8> = copy_range(field.as_slice(), 0, body);
        assert(payload@ =~= field@.take(body as int));
        let crc_ok: bool = crc32c::checksum(payload.as_slice()) == expected;
        Ok(
            Ax100Frame {
                mode: Ax100Mode::AsmGolayCrc,
                payload,
                corrected_errors: 0,
                crc_ok: Some(crc_ok),
                flags,
            },
        )
    }

    /// Decode AX100 ASM+Golay with soft-decision RS erasure marking.
    ///
    /// `soft_per_bit` is one reliability per packet bit, MSB-first inside each
    /// byte, higher for more reliable bits; its length must equal
    /// `packet.len() * 8`. `erasure_count` is the number of payload bytes to
    /// mark as erasures, ranked by ascending least reliability across each
    /// byte's eight bits.
    ///
    /// RS(255,223) hard decoding handles up to 16 byte errors; with `K`
    /// erasures, the joint capacity rises to `2*errors + K <= 32`. Mis-marking
    /// a clean byte costs one erasure slot.
    pub fn decode_asm_golay_with_soft(
        &self,
        packet: &[u8],
        soft_per_bit: &[u32],
        erasure_count: usize,
    ) -> (res: Result<Ax100Frame, DecodeError>)
        ensures
            asm_golay_soft_result(packet@, soft_per_bit@, erasure_count as nat, res),
    {
        if packet.len() >= 3 && packet.len() <= 258 && soft_per_bit.len() != packet.len() * 8 {
            return Err(
                DecodeError::InvalidEncoding(
                    "soft sample length must equal packet bit count".to_string(),
                ),
            );
        }
        let header: Header = match Self::read_header(packet, 0) {
            Ok(h) => h,
            Err(err) => return Err(err),
        };
        let flags: Ax100Flags = Ax100Flags {
            viterbi: false,
            scrambler: true,
            reed_solomon: true,
            golay_errors: header.errors,
        };
        let len: usize = header.length;
        if len <= 32 {
            return Err(DecodeError::TooShort(len));
        }
        let mut payload: Vec<u8> = copy_range(packet, 3, 3 + len);
        ccsds_randomizer::xor_sequence(payload.as_mut_slice());
        let mut keys: Vec<u32> = Vec::new();
        let mut i: usize = 0;
        while i < len
            invariant
                i <= len,
                len < 256,
                soft_per_bit@.len() >= 8 * (3 + len),
                keys@ == confidences(soft_per_bit@, len as nat).take(i as int),
            decreases len - i,
        {
            let mut least: u32 = u32::MAX;
            let mut j: usize = 0;
            while j < 8
                invariant
                    j <= 8,
                    i < len,
                    len < 256,
                    soft_per_bit@.len() >= 8 * (3 + len),
                    least == confidence(soft_per_bit@, i as int, j as nat),
                decreases 8 - j,
            {
                let s: u32 = soft_per_bit[24 + 8 * i + j];
                if s < least {
                    least = s;
                }
                j = j + 1;
            }
            keys.push(least);
            i = i + 1;
            assert(keys@ =~= confidences(soft_per_bit@, len as nat).take(i as int));
        }
        assert(keys@ =~= confidences(soft_per_bit@, len as nat));
        let mut k: usize = erasure_count;
        if k > len {
            k = len;
        }
        if k > 32 {
            k = 32;
        }
        let erasures: Vec<usize> = rank_least_confident(&keys, k);
        proof {
            lemma_least_confident(keys@, k as nat);
        }
        Self::decode_protected(payload.as_slice(), erasures.as_slice(), Ax100Mode::AsmGolay, flags)
    }
}

impl Default for Ax100Decoder {
    fn default() -> (d: Self)
        ensures
            d == Ax100Decoder,
    {
        Ax100Decoder
    }
}

/// The header that announces a field of `n` bytes.
pub open spec fn header_bytes(n: nat) -> Seq<u8> {
    let c = codeword(n as u32);
    seq![(c / 65536) as u8, (c / 256 % 256) as u8, (c % 256) as u8]
}

proof fn lemma_header(n: nat, field: Seq<u8>)
    requires
        0 < n < 256,
        field.len() == n,
    ensures
        ({
            let packet = header_bytes(n) + field;
            &&& nearest(header_word(packet)) is Some
            &&& header_length(packet) == n
            &&& header_errors(packet) == 0
            &&& field_of(packet) == field
            &&& packet.len() <= 258
        }),
{
    let packet = header_bytes(n) + field;
    let c = codeword(n as u32);
    golay::law_clean_word(n as u32);
    lemma_matrix(n as u32, 0);
    assert(header_word(packet) == c);
    assert(field_of(packet) =~= field);
}

/// Reed-Solomon mode gives back what was encoded.
pub proof fn law_rs_mode_round_trip(
    payload: Seq<u8>,
    word: Seq<u8>,
    res: Result<Ax100Frame, DecodeError>,
)
    requires
        0 < payload.len() <= 222,
        is_shortened_encoding(payload, 1, word),
        rs_mode_result(seq![(payload.len() + 33) as u8] + word, res),
    ensures
        res is Ok,
        res->Ok_0.payload@ == payload,
        res->Ok_0.corrected_errors == 0,
{
    let packet = seq![(payload.len() + 33) as u8] + word;
    assert(packet.subrange(1, packet[0] as int) =~= word);
    law_clean_codeword(payload, 1, word, Seq::empty());
}

/// ASM+Golay mode gives back what was encoded, scrambled or not.
pub proof fn law_asm_golay_round_trip(
    payload: Seq<u8>,
    word: Seq<u8>,
    scrambler: bool,
    res: Result<Ax100Frame, DecodeError>,
)
    requires
        0 < payload.len() <= 223,
        is_shortened_encoding(payload, 1, word),
        asm_golay_result(
            header_bytes(word.len()) + if scrambler {
                randomized(word)
            } else {
                word
            },
            scrambler,
            true,
            res,
        ),
    ensures
        res is Ok,
        res->Ok_0.payload@ == payload,
        res->Ok_0.corrected_errors == 0,
        res->Ok_0.flags.golay_errors == 0,
{
    let field = if scrambler {
        randomized(word)
    } else {
        word
    };
    lemma_header(word.len(), field);
    law_self_inverse(word);
    law_clean_codeword(payload, 1, word, Seq::empty());
}

/// The CRC mode gives back the CSP frame and reports a passing check, whatever
/// the 32 trailing bytes hold.
pub proof fn law_asm_golay_crc_round_trip(
    frame: Seq<u8>,
    trailer: Seq<u8>,
    a: u8,
    b: u8,
    c: u8,
    d: u8,
    res: Result<Ax100Frame, DecodeError>,
)
    requires
        0 < frame.len() <= 219,
        trailer.len() == 32,
        be32(a, b, c, d) == crc32c(frame),
        asm_golay_crc_result(
            header_bytes(frame.len() + 36) + randomized(frame + seq![a, b, c, d] + trailer),
            res,
        ),
    ensures
        res is Ok,
        res->Ok_0.payload@ == frame,
        res->Ok_0.crc_ok == Some(true),
{
    let plain = frame + seq![a, b, c, d] + trailer;
    lemma_header(frame.len() + 36, randomized(plain));
    law_self_inverse(plain);
    assert(plain.take(frame.len() as int) =~= frame);
}

proof fn lemma_repaired(payload: Seq<u8>, word: Seq<u8>, received: Seq<u8>, erasures: Seq<usize>)
    requires
        0 < payload.len() <= 223,
        is_shortened_encoding(payload, 1, word),
        received.len() == word.len(),
        erasures.no_duplicates(),
        forall|k: int| 0 <= k < erasures.len() ==> #[trigger] erasures[k] < word.len(),
        damage_fits(received, word, erasures, 1, 0),
    ensures
        decodes(received, 1, erasures),
        decoded_message(received, 1, erasures) == payload,
        paths_corrected(received, 1, erasures, 1) == path_corrections(
            received,
            word,
            erasures,
            1,
            0,
        ),
        erasures.len() == 0 ==> paths_corrected(received, 1, erasures, 1) == damaged_bytes(
            received,
            word,
            word.len(),
        ),
{
    reveal_with_fuel(corrections, 2);
    assert forall|path: int| 0 <= path < 1 implies #[trigger] damage_fits(
        received,
        word,
        erasures,
        1,
        path,
    ) by {
        assert(path == 0);
    }
    law_damaged_codeword_is_repaired(payload, 1, word, received, erasures);
}

/// Reed-Solomon mode repairs up to 16 damaged bytes behind an intact length byte, and
/// counts them.
pub proof fn law_rs_mode_damage_is_repaired(
    payload: Seq<u8>,
    word: Seq<u8>,
    received: Seq<u8>,
    res: Result<Ax100Frame, DecodeError>,
)
    requires
        0 < payload.len() <= 222,
        is_shortened_encoding(payload, 1, word),
        received.len() == word.len(),
        damage_fits(received, word, Seq::empty(), 1, 0),
        rs_mode_result(seq![(payload.len() + 33) as u8] + received, res),
    ensures
        res is Ok,
        res->Ok_0.payload@ == payload,
        res->Ok_0.corrected_errors == damaged_bytes(received, word, word.len()),
{
    let packet = seq![(payload.len() + 33) as u8] + received;
    assert(packet.subrange(1, packet[0] as int) =~= received);
    lemma_repaired(payload, word, received, Seq::empty());
}

/// The header of a packet stands for this length, with up to three bit errors.
pub open spec fn header_stands_for(packet: Seq<u8>, n: nat) -> bool {
    &&& packet.len() == 3 + n
    &&& n < 256
    &&& ones(difference(header_word(packet), n as u32)) <= 3
}

proof fn lemma_damaged_header(packet: Seq<u8>, n: nat)
    requires
        header_stands_for(packet, n),
    ensures
        nearest(header_word(packet)) == Some(n as u32),
        header_length(packet) == n,
        field_of(packet) == packet.skip(3),
{
    assert(near(header_word(packet), n as u32));
    lemma_nearest(header_word(packet), n as u32);
    assert(field_of(packet) =~= packet.skip(3));
}

/// In the CRC mode a packet with one byte damaged, in the CSP frame or in the CRC, fails
/// its CRC, also where the header came with up to three bit errors. One flipped bit is
/// such damage.
pub proof fn law_one_damaged_byte_fails_the_crc(
    frame: Seq<u8>,
    trailer: Seq<u8>,
    a: u8,
    b: u8,
    c: u8,
    d: u8,
    k: int,
    x: u8,
    packet: Seq<u8>,
    res: Result<Ax100Frame, DecodeError>,
)
    requires
        0 < frame.len() <= 219,
        trailer.len() == 32,
        be32(a, b, c, d) == crc32c(frame),
        0 <= k < frame.len() + 4,
        x != randomized(frame + seq![a, b, c, d] + trailer)[k],
        header_stands_for(packet, frame.len() + 36),
        packet.skip(3) == randomized(frame + seq![a, b, c, d] + trailer).update(k, x),
        asm_golay_crc_result(packet, res),
    ensures
        res is Ok,
        res->Ok_0.crc_ok == Some(false),
{
    let sent = frame + seq![a, b, c, d] + trailer;
    let body = frame.len() as int;
    lemma_damaged_header(packet, frame.len() + 36);
    let plain = randomized(field_of(packet));
    let mask = mask_byte(k as nat);
    law_self_inverse(sent);
    assert forall|j: int| 0 <= j < sent.len() && j != k implies plain[j] == sent[j] by {
        assert(randomized(randomized(sent))[j] == sent[j]);
    }
    lemma_xor(sent[k], mask, 0, 0);
    lemma_xor(x, mask, 0, 0);
    assert(plain[k] == x ^ mask);
    assert(plain[k] != sent[k]);
    assert(sent[body] == a && sent[body + 1] == b && sent[body + 2] == c && sent[body + 3] == d);
    if k < body {
        assert(plain.take(body) =~= frame.update(k, plain[k]));
        crc32c::law_sees_one_byte(frame, k, plain[k]);
    } else {
        assert(plain.take(body) =~= frame);
    }
}

/// ASM+Golay mode repairs up to three bit errors in the header and up to 16 damaged
/// bytes behind it, scrambled or not, and counts both.
pub proof fn law_asm_golay_damage_is_repaired(
    payload: Seq<u8>,
    word: Seq<u8>,
    packet: Seq<u8>,
    scrambler: bool,
    res: Result<Ax100Frame, DecodeError>,
)
    requires
        0 < payload.len() <= 223,
        is_shortened_encoding(payload, 1, word),
        header_stands_for(packet, word.len()),
        damage_fits(
            if scrambler {
                randomized(packet.skip(3))
            } else {
                packet.skip(3)
            },
            word,
            Seq::empty(),
            1,
            0,
        ),
        asm_golay_result(packet, scrambler, true, res),
    ensures
        res is Ok,
        res->Ok_0.payload@ == payload,
        res->Ok_0.corrected_errors == damaged_bytes(
            if scrambler {
                randomized(packet.skip(3))
            } else {
                packet.skip(3)
            },
            word,
            word.len(),
        ),
        res->Ok_0.flags.golay_errors == ones(difference(header_word(packet), word.len() as u32)),
{
    lemma_damaged_header(packet, word.len());
    assert(ones(difference(header_word(packet), word.len() as u32)) >= 0) by {
        reveal(ones);
    }
    let field = if scrambler {
        randomized(packet.skip(3))
    } else {
        packet.skip(3)
    };
    lemma_repaired(payload, word, field, Seq::empty());
}

/// With the least reliable bytes marked as erased, twice the damaged bytes among the
/// others plus the marked ones may reach 32. Both are counted, but for a field that came
/// as a codeword.
pub proof fn law_marked_damage_is_repaired(
    payload: Seq<u8>,
    word: Seq<u8>,
    packet: Seq<u8>,
    soft: Seq<u32>,
    erasure_count: nat,
    res: Result<Ax100Frame, DecodeError>,
)
    requires
        0 < payload.len() <= 223,
        is_shortened_encoding(payload, 1, word),
        header_stands_for(packet, word.len()),
        soft.len() == 8 * packet.len(),
        damage_fits(
            randomized(packet.skip(3)),
            word,
            least_confident(
                confidences(soft, word.len()),
                marked_count(erasure_count, word.len()),
            ),
            1,
            0,
        ),
        asm_golay_soft_result(packet, soft, erasure_count, res),
    ensures
        res is Ok,
        res->Ok_0.payload@ == payload,
        res->Ok_0.corrected_errors == path_corrections(
            randomized(packet.skip(3)),
            word,
            least_confident(
                confidences(soft, word.len()),
                marked_count(erasure_count, word.len()),
            ),
            1,
            0,
        ),
        res->Ok_0.flags.golay_errors == ones(difference(header_word(packet), word.len() as u32)),
{
    lemma_damaged_header(packet, word.len());
    assert(ones(difference(header_word(packet), word.len() as u32)) >= 0) by {
        reveal(ones);
    }
    let keys = confidences(soft, word.len());
    let marked = marked_count(erasure_count, word.len());
    lemma_least_confident(keys, marked);
    lemma_repaired(payload, word, randomized(packet.skip(3)), least_confident(keys, marked));
}

} // verus!
