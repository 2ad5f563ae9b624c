//! Geoscan custom-frame decoder.
//!
//! Geoscan-family satellites (Geoscan-Edelveis, StratoSat TK-1, ...) use a TI
//! CC1125 transceiver in fixed-packet mode with the radio's hardware
//! data-whitening engine and CRC-16 turned on. After the syncword a frame holds
//! a 64-byte payload and a 2-byte CRC-16 (poly `0x8005`, init `0xFFFF`,
//! MSB-first) over the unwhitened payload; both are whitened with PN9.
use vstd::prelude::*;
use crate::gf256::lemma_xor;
use crate::model::{DecodeError, Frame};
use crate::pn9::{law_involution, pn9_byte, whitened, Pn9Whitener};
use crate::slices::copy_range;

verus! {

/// Fixed payload length ("64 bytes without CRC" in the protocol document).
pub const GEOSCAN_PAYLOAD_LEN: usize = 64;

/// CRC-16 trailer length in bytes.
pub const GEOSCAN_CRC_LEN: usize = 2;

/// Total length the framer must hand the codec.
pub const GEOSCAN_FRAME_LEN: usize = 66;

/// One descrambled Geoscan frame.
#[derive(Debug)]
pub struct GeoscanFrame {
    /// Descrambled 64-byte payload.
    pub payload: Vec<u8>,
    /// Whether the trailing CC11xx CRC-16 matched the recomputed value.
    pub crc_ok: bool,
    /// CRC value carried in the frame (MSB-first u16).
    pub crc_received: u16,
    /// CRC value recomputed by the decoder over the payload.
    pub crc_expected: u16,
}

/// Stateless Geoscan frame decoder.
#[derive(Debug, Clone, Copy)]
pub struct GeoscanDecoder;

/// Divide out one bit.
pub open spec fn crc16_bit(crc: u16) -> u16 {
    if crc & 0x8000u16 != 0 {
        (crc << 1u16) ^ 0x8005u16
    } else {
        crc << 1u16
    }
}

/// Divide out `n` bits.
pub open spec fn crc16_bits(crc: u16, n: nat) -> u16
    decreases n,
{
    if n == 0 {
        crc
    } else {
        crc16_bit(crc16_bits(crc, (n - 1) as nat))
    }
}

/// The register after the first `n` bytes.
pub open spec fn crc16_register(data: Seq<u8>, n: nat) -> u16
    decreases n,
{
    if n == 0 {
        0xFFFF
    } else {
        crc16_bits(crc16_register(data, (n - 1) as nat) ^ ((data[n - 1] as u16) << 8u16), 8)
    }
}

/// The CC11xx CRC-16 of `data`.
pub open spec fn crc16(data: Seq<u8>) -> u16 {
    crc16_register(data, data.len())
}

/// Two bytes as a big-endian number.
pub open spec fn be16(hi: u8, lo: u8) -> u16 {
    (256 * hi + lo) as u16
}

/// What decoding `raw` returns.
pub open spec fn geoscan_result(raw: Seq<u8>, res: Result<GeoscanFrame, DecodeError>) -> bool {
    match res {
        Ok(frame) => {
            let plain = whitened(0x1FF, raw.take(66));
            &&& raw.len() >= 66
            &&& frame.payload@ == plain.take(64)
            &&& frame.crc_received == be16(plain[64], plain[65])
            &&& frame.crc_expected == crc16(plain.take(64))
            &&& frame.crc_ok == (frame.crc_received == frame.crc_expected)
        },
        Err(err) => raw.len() < 66 && err == DecodeError::TooShort(raw.len() as usize),
    }
}

impl GeoscanDecoder {
    /// Construct a new decoder. Each call to [`decode`](Self::decode) is
    /// independent: the PN9 register is reset at the start of every frame,
    /// matching CC1125 hardware behaviour where whitening restarts on the first
    /// byte after the syncword.
    pub fn new() -> (d: Self)
        ensures
            d == GeoscanDecoder,
    {
        Self
    }

    /// Descramble and CRC-check one Geoscan frame.
    ///
    /// The descrambled payload is returned even when the CRC fails so operators
    /// can still look at raw bytes from a corrupted frame; the
    /// [`GeoscanFrame::crc_ok`] flag tells callers whether the bytes can be
    /// trusted. Bytes beyond [`GEOSCAN_FRAME_LEN`] are ignored.
    ///
    /// # Errors
    ///
    /// Returns [`DecodeError::TooShort`] if `raw` is shorter than
    /// [`GEOSCAN_FRAME_LEN`].
    pub fn decode(&self, raw: &[u8]) -> (res: Result<GeoscanFrame, DecodeError>)
        ensures
            geoscan_result(raw@, res),
    {
        if raw.len() < GEOSCAN_FRAME_LEN {
            return Err(DecodeError::TooShort(raw.len()));
        }
        let mut buf: Vec<u8> = copy_range(raw, 0, GEOSCAN_FRAME_LEN);
        assert(buf@ =~= raw@.take(66));
        let mut whitener: Pn9Whitener = Pn9Whitener::new();
        whitener.descramble(buf.as_mut_slice());
        let crc_received: u16 = 256 * buf[64] as u16 + buf[65] as u16;
        let payload: Vec<u8> = copy_range(buf.as_slice(), 0, GEOSCAN_PAYLOAD_LEN);
        assert(payload@ =~= buf@.take(64));
        let crc_expected: u16 = cc11xx_crc16(payload.as_slice());
        Ok(
            GeoscanFrame {
                payload,
                crc_ok: crc_received == crc_expected,
                crc_received,
                crc_expected,
            },
        )
    }

    /// Decode a [`Frame`] whose `raw` field carries the 66 packed bytes that
    /// follow the syncword.
    ///
    /// # Errors
    ///
    /// Forwards any error from [`decode`](Self::decode).
    pub fn decode_frame(&self, frame: &Frame) -> (res: Result<GeoscanFrame, DecodeError>)
        ensures
            geoscan_result(frame.raw@, res),
    {
        self.decode(frame.raw.as_slice())
    }
}

impl Default for GeoscanDecoder {
    fn default() -> (d: Self)
        ensures
            d == GeoscanDecoder,
    {
        GeoscanDecoder
    }
}

/// CC11xx CRC-16: polynomial `0x8005`, initial value `0xFFFF`, no input or
/// output reflection, MSB-first byte processing, no final XOR.
pub fn cc11xx_crc16(data: &[u8]) -> (r: u16)
    ensures
        r == crc16(data@),
{
    let mut crc: u16 = 0xFFFF;
    let mut n: usize = 0;
    while n < data.len()
        invariant
            n <= data@.len(),
            crc == crc16_register(data@, n as nat),
        decreases data@.len() - n,
    {
        crc = crc ^ ((data[n] as u16) << 8u16);
        let ghost start = crc;
        let mut k: u8 = 0;
        while k < 8
            invariant
                k <= 8,
                crc == crc16_bits(start, k as nat),
            decreases 8 - k,
        {
            if crc & 0x8000u16 != 0 {
                crc = (crc << 1u16) ^ 0x8005u16;
            } else {
                crc = crc << 1u16;
            }
            k = k + 1;
        }
        n = n + 1;
    }
    crc
}

/// The frame that carries `payload`: the payload and its CRC, whitened.
pub open spec fn geoscan_encoding(payload: Seq<u8>) -> Seq<u8> {
    let crc = crc16(payload);
    whitened(0x1FF, payload + seq![(crc / 256) as u8, (crc % 256) as u8])
}

/// A whitened frame decodes to its payload with a passing CRC.
pub proof fn law_round_trip(payload: Seq<u8>, res: Result<GeoscanFrame, DecodeError>)
    requires
        payload.len() == 64,
        geoscan_result(geoscan_encoding(payload), res),
    ensures
        res is Ok,
        res->Ok_0.payload@ == payload,
        res->Ok_0.crc_ok,
{
    let crc = crc16(payload);
    let plain = payload + seq![(crc / 256) as u8, (crc % 256) as u8];
    let sent = geoscan_encoding(payload);
    assert(sent.take(66) =~= sent);
    law_involution(0x1FF, plain);
    assert(plain.take(64) =~= payload);
}

/// The register forgets nothing: different registers stay different.
proof fn lemma_crc16_step(x: u16, y: u16, a: u8, b: u8)
    by (bit_vector)
    ensures
        crc16_bit(x) == crc16_bit(y) ==> x == y,
        x ^ ((a as u16) << 8u16) == y ^ ((a as u16) << 8u16) ==> x == y,
        x ^ ((a as u16) << 8u16) == x ^ ((b as u16) << 8u16) ==> a == b,
{
}

proof fn lemma_crc16_bits(x: u16, y: u16, n: nat)
    requires
        x != y,
    ensures
        crc16_bits(x, n) != crc16_bits(y, n),
    decreases n,
{
    if n > 0 {
        lemma_crc16_bits(x, y, (n - 1) as nat);
        lemma_crc16_step(crc16_bits(x, (n - 1) as nat), crc16_bits(y, (n - 1) as nat), 0, 0);
    }
}

proof fn lemma_crc16_register(data: Seq<u8>, k: int, x: u8, n: nat)
    requires
        0 <= k < data.len(),
        x != data[k],
        n <= data.len(),
    ensures
        crc16_register(data.update(k, x), n) == crc16_register(data, n) <==> n <= k,
    decreases n,
{
    if n > 0 {
        let other = data.update(k, x);
        let a = crc16_register(data, (n - 1) as nat);
        let b = crc16_register(other, (n - 1) as nat);
        lemma_crc16_register(data, k, x, (n - 1) as nat);
        lemma_crc16_step(a, b, data[n - 1], other[n - 1]);
        if n > k {
            lemma_crc16_bits(
                a ^ ((data[n - 1] as u16) << 8u16),
                b ^ ((other[n - 1] as u16) << 8u16),
                8,
            );
        }
    }
}

/// The CRC tells data from the same data with one byte changed.
pub proof fn law_crc16_sees_one_byte(data: Seq<u8>, k: int, x: u8)
    requires
        0 <= k < data.len(),
        x != data[k],
    ensures
        crc16(data.update(k, x)) != crc16(data),
{
    lemma_crc16_register(data, k, x, data.len());
}

/// The product of `q` and `x^16 + x^15 + x^2 + 1`, as polynomials over two elements.
pub open spec fn times_generator(q: u8) -> u32 {
    let w = q as u32;
    (w << 16u32) ^ (w << 15u32) ^ (w << 2u32) ^ w
}

/// The bits that are divided out of the register in eight steps.
spec fn quotient(x: u16) -> u8 {
    let a = crc16_bit(x);
    let b = crc16_bit(a);
    let c = crc16_bit(b);
    let d = crc16_bit(c);
    let e = crc16_bit(d);
    let f = crc16_bit(e);
    let g = crc16_bit(f);
    (((x >> 15u16) << 7u16) | ((a >> 15u16) << 6u16) | ((b >> 15u16) << 5u16) | ((c >> 15u16)
        << 4u16) | ((d >> 15u16) << 3u16) | ((e >> 15u16) << 2u16) | ((f >> 15u16) << 1u16) | (g
        >> 15u16)) as u8
}

proof fn lemma_quotient(r: u16, b: u8)
    by (bit_vector)
    ensures
        ({
            let x = r ^ ((b as u16) << 8u16);
            let y = crc16_bit(
                crc16_bit(
                    crc16_bit(crc16_bit(crc16_bit(crc16_bit(crc16_bit(crc16_bit(x)))))),
                ),
            );
            ((r as u32) << 8u32) ^ ((b as u32) << 16u32) ^ (y as u32) == times_generator(
                quotient(x),
            )
        }),
{
}

proof fn lemma_crc16_prefix(data: Seq<u8>, b: u8, n: nat)
    requires
        n <= data.len(),
    ensures
        crc16_register(data.push(b), n) == crc16_register(data, n),
    decreases n,
{
    if n > 0 {
        lemma_crc16_prefix(data, b, (n - 1) as nat);
    }
}

/// The CRC is the remainder of a division, for data of any length. That of no data is all
/// ones, so that the first sixteen bits count as inverted. One more byte shifts it by
/// eight places and adds the byte sixteen places up, and what is left over differs from
/// that by a multiple of `x^16 + x^15 + x^2 + 1`.
pub proof fn law_crc16_is_a_remainder(data: Seq<u8>, b: u8)
    ensures
        crc16(Seq::empty()) == 0xFFFF,
        exists|q: u8|
            ((crc16(data) as u32) << 8u32) ^ ((b as u32) << 16u32) ^ (crc16(data.push(b)) as u32)
                == #[trigger] times_generator(q),
{
    let r = crc16(data);
    let x = r ^ ((b as u16) << 8u16);
    lemma_crc16_prefix(data, b, data.len());
    reveal_with_fuel(crc16_bits, 9);
    lemma_quotient(r, b);
    assert(((crc16(data) as u32) << 8u32) ^ ((b as u32) << 16u32) ^ (crc16(data.push(b)) as u32)
        == times_generator(quotient(x)));
}

/// A frame with one byte damaged, in the payload or in the CRC, fails its CRC. One
/// flipped bit is such damage.
pub proof fn law_one_damaged_byte_fails_the_crc(
    payload: Seq<u8>,
    k: int,
    x: u8,
    raw: Seq<u8>,
    res: Result<GeoscanFrame, DecodeError>,
)
    requires
        payload.len() == 64,
        0 <= k < 66,
        x != geoscan_encoding(payload)[k],
        raw.len() >= 66,
        raw.take(66) == geoscan_encoding(payload).update(k, x),
        geoscan_result(raw, res),
    ensures
        res is Ok,
        !res->Ok_0.crc_ok,
{
    let crc = crc16(payload);
    let sent = payload + seq![(crc / 256) as u8, (crc % 256) as u8];
    let mask = pn9_byte(0x1FF, k as nat);
    let plain = whitened(0x1FF, raw.take(66));
    law_involution(0x1FF, sent);
    assert forall|j: int| 0 <= j < 66 && j != k implies plain[j] == sent[j] by {
        assert(whitened(0x1FF, whitened(0x1FF, sent))[j] == sent[j]);
    }
    lemma_xor(sent[k], mask, 0, 0);
    lemma_xor(x, mask, 0, 0);
    assert(plain[k] == x ^ mask);
    assert(plain[k] != sent[k]);
    if k < 64 {
        assert(plain.take(64) =~= payload.update(k, plain[k]));
        law_crc16_sees_one_byte(payload, k, plain[k]);
    } else {
        assert(plain.take(64) =~= payload);
    }
}

} // verus!
