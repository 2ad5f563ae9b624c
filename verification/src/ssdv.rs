//! SSDV packet decoder.
//!
//! SSDV is the slow-scan digital-video protocol developed by Philip Heron for
//! amateur high-altitude balloon and cubesat image downlinks. Each packet is a
//! fixed 256 bytes containing a self-describing header, a JPEG MCU payload, a
//! CRC32, and (for the FEC variant) 32 bytes of Reed-Solomon parity.
//!
//! This module decodes a single packet's bytes into a [`SsdvPacket`]; image
//! reassembly across many packets lives in [`crate::image`].
use vstd::prelude::*;
use vstd::string::StringSliceAdditionalSpecFns;
use crate::ax100::be32;
use crate::crc32c::carryless_product;
use crate::geoscan::be16;
use crate::rs8;
use crate::rs8::{law_encoding_is_unique, lemma_nearest, near, nearest};
use crate::rs_code::is_codeword;
use crate::rs_laws::distance;
use crate::slices::copy_range;

verus! {

/// Total wire size of an SSDV packet in bytes.
pub const SSDV_PKT_SIZE: usize = 256;

/// Size of the SSDV packet header (sync byte + type + image fields).
pub const SSDV_HEADER_LEN: usize = 15;

/// CRC32 trailer size in bytes.
pub const SSDV_CRC_LEN: usize = 4;

/// Reed-Solomon parity size in bytes (FEC variant only).
pub const SSDV_RS_PARITY_LEN: usize = 32;

/// Maximum callsign length in characters (base-40 encoded into 32 bits).
pub const SSDV_MAX_CALLSIGN: usize = 6;

/// Whether a packet carries Reed-Solomon parity.
#[derive(Debug, Clone, Copy, PartialEq, Eq, Structural)]
pub enum SsdvPacketKind {
    /// Type byte `0x66`. 205-byte payload, 32 bytes of RS(255, 223) parity
    /// covering everything between the sync byte and the parity field.
    /// Recovers up to 16 byte errors per packet.
    WithFec,
    /// Type byte `0x67`. 237-byte payload, no FEC.
    NoFec,
}

/// The payload length of a packet kind.
pub open spec fn payload_size(kind: SsdvPacketKind) -> nat {
    match kind {
        SsdvPacketKind::WithFec => 205,
        SsdvPacketKind::NoFec => 237,
    }
}

impl SsdvPacketKind {
    /// Payload size in bytes for this packet kind.
    pub fn payload_len(self) -> (n: usize)
        ensures
            n == payload_size(self),
    {
        match self {
            SsdvPacketKind::WithFec => SSDV_PKT_SIZE - SSDV_HEADER_LEN - SSDV_CRC_LEN
                - SSDV_RS_PARITY_LEN,
            SsdvPacketKind::NoFec => SSDV_PKT_SIZE - SSDV_HEADER_LEN - SSDV_CRC_LEN,
        }
    }
}

/// One decoded SSDV packet.
#[derive(Debug)]
pub struct SsdvPacket {
    /// FEC-or-not classification.
    pub kind: SsdvPacketKind,
    /// Decoded base-40 callsign. Empty when the encoded value was 0 or out of
    /// range.
    pub callsign: String,
    /// Image id within the sender's session (rolls 0..=255).
    pub image_id: u8,
    /// Packet id, 0-based, monotonically increasing within an image.
    pub packet_id: u16,
    /// Image width in pixels (`packet[9] << 4`).
    pub width: u16,
    /// Image height in pixels (`packet[10] << 4`).
    pub height: u16,
    /// `true` when this packet carries the JPEG end-of-image marker (flags byte
    /// bit 2).
    pub eoi: bool,
    /// JPEG quality level 0..=7. Decoded as `((flags >> 3) & 7) ^ 4`.
    pub quality: u8,
    /// MCU sampling mode: 0 = 2x2, 1 = 2x1, 2 = 1x2, 3 = 1x1.
    pub mcu_mode: u8,
    /// Byte offset within the payload where the next fresh MCU begins, or
    /// `0xFF` when none.
    pub mcu_offset: u8,
    /// MCU id of the first complete MCU in this packet, or `0xFFFF` when none.
    pub mcu_id: u16,
    /// Total MCU count for the whole image, computed from
    /// `width * height * mcu_mode_factor`.
    pub mcu_count: u32,
    /// Payload bytes carrying the JPEG MCU stream slice.
    pub payload: Vec<u8>,
    /// Number of byte errors corrected by Reed-Solomon. `None` for `NoFec`.
    pub rs_errors: Option<u32>,
    /// `true` if the CRC32 over `[type .. CRC]` matched.
    pub crc_ok: bool,
    /// Full corrected 256-byte packet bytes, with sync, header, payload, CRC,
    /// and parity (when present): the exact wire bytes, also where only received
    /// parity bytes were damaged.
    pub raw: Vec<u8>,
}

/// What a packet holds.
#[verifier::ext_equal]
pub struct PacketModel {
    pub kind: SsdvPacketKind,
    pub callsign: Seq<char>,
    pub image_id: u8,
    pub packet_id: u16,
    pub width: u16,
    pub height: u16,
    pub eoi: bool,
    pub quality: u8,
    pub mcu_mode: u8,
    pub mcu_offset: u8,
    pub mcu_id: u16,
    pub mcu_count: u32,
    pub payload: Seq<u8>,
    pub rs_errors: Option<u32>,
    pub crc_ok: bool,
    pub raw: Seq<u8>,
}

impl View for SsdvPacket {
    type V = PacketModel;

    open spec fn view(&self) -> PacketModel {
        PacketModel {
            kind: self.kind,
            callsign: self.callsign@,
            image_id: self.image_id,
            packet_id: self.packet_id,
            width: self.width,
            height: self.height,
            eoi: self.eoi,
            quality: self.quality,
            mcu_mode: self.mcu_mode,
            mcu_offset: self.mcu_offset,
            mcu_id: self.mcu_id,
            mcu_count: self.mcu_count,
            payload: self.payload@,
            rs_errors: self.rs_errors,
            crc_ok: self.crc_ok,
            raw: self.raw@,
        }
    }
}

/// Errors returned by [`SsdvDecoder::decode`].
#[derive(Debug, Clone, Copy, PartialEq, Eq, Structural)]
pub enum SsdvDecodeError {
    /// Input was not exactly 256 bytes.
    BadLength,
    /// Reed-Solomon could not correct the packet to a CRC-clean state. Covers
    /// both genuinely uncorrectable FEC packets and any packet whose type byte
    /// was corrupted to something other than `0x66`/`0x67` and whose body could
    /// not be rescued.
    Uncorrectable,
    /// CRC32 did not match either before or after RS correction.
    BadCrc,
    /// Header `width` or `height` field was zero.
    ZeroDimensions,
    /// Header `mcu_id`/`mcu_offset` was inconsistent with the computed MCU
    /// count or payload size.
    BadMcu,
}

impl SsdvDecodeError {
    /// Human-readable description.
    pub fn message(&self) -> (text: &'static str)
        ensures
            text@ == match *self {
                SsdvDecodeError::BadLength => "packet must be 256 bytes"@,
                SsdvDecodeError::Uncorrectable => "Reed-Solomon could not correct packet"@,
                SsdvDecodeError::BadCrc => "CRC32 mismatch"@,
                SsdvDecodeError::ZeroDimensions => "width or height is zero"@,
                SsdvDecodeError::BadMcu => "mcu_id/mcu_offset inconsistent with MCU count"@,
            },
    {
        match self {
            SsdvDecodeError::BadLength => "packet must be 256 bytes",
            SsdvDecodeError::Uncorrectable => "Reed-Solomon could not correct packet",
            SsdvDecodeError::BadCrc => "CRC32 mismatch",
            SsdvDecodeError::ZeroDimensions => "width or height is zero",
            SsdvDecodeError::BadMcu => "mcu_id/mcu_offset inconsistent with MCU count",
        }
    }
}

/// Divide out one bit of the reflected polynomial 0xEDB88320.
pub open spec fn crc32_bit(x: u32) -> u32 {
    if x & 1 != 0 {
        (x >> 1u32) ^ 0xEDB8_8320
    } else {
        x >> 1u32
    }
}

/// Divide out `n` bits.
pub open spec fn crc32_bits(x: u32, n: nat) -> u32
    decreases n,
{
    if n == 0 {
        x
    } else {
        crc32_bit(crc32_bits(x, (n - 1) as nat))
    }
}

/// The register after the first `n` bytes.
pub open spec fn crc32_register(data: Seq<u8>, n: nat) -> u32
    decreases n,
{
    if n == 0 {
        0xFFFF_FFFF
    } else {
        let crc = crc32_register(data, (n - 1) as nat);
        (crc >> 8u32) ^ crc32_bits((crc ^ (data[n - 1] as u32)) & 0xFF, 8)
    }
}

/// The CRC-32 of `data`: reflected, initial value and final XOR 0xFFFFFFFF.
pub open spec fn crc32_of(data: Seq<u8>) -> u32 {
    crc32_register(data, data.len()) ^ 0xFFFF_FFFF
}

/// The stored CRC matches the bytes from the type byte to the end of the payload.
pub open spec fn crc_fits(pkt: Seq<u8>, kind: SsdvPacketKind) -> bool {
    let i = 15 + payload_size(kind) as int;
    crc32_of(pkt.subrange(1, i)) == be32(pkt[i], pkt[i + 1], pkt[i + 2], pkt[i + 3])
}

/// The character of a base-40 digit.
pub open spec fn callsign_char(d: nat) -> char {
    if d == 0 {
        '-'
    } else if d <= 10 {
        (47 + d) as char
    } else if d <= 13 {
        '-'
    } else {
        (51 + d) as char
    }
}

/// The base-40 digits of a code, low digit first.
pub open spec fn callsign_chars(code: nat) -> Seq<char>
    decreases code,
{
    if code == 0 {
        Seq::empty()
    } else {
        seq![callsign_char(code % 40)] + callsign_chars(code / 40)
    }
}

/// The callsign of a code; empty when the code is out of range.
pub open spec fn callsign_text(code: u32) -> Seq<char> {
    if code > 0xF423_FFFF {
        Seq::empty()
    } else {
        callsign_chars(code as nat)
    }
}

/// The base-40 digit of an ASCII character; zero for what has none.
pub open spec fn callsign_digit(c: u8) -> nat {
    if 65 <= c <= 90 {
        (c - 51) as nat
    } else if 97 <= c <= 122 {
        (c - 83) as nat
    } else if 48 <= c <= 57 {
        (c - 47) as nat
    } else {
        0
    }
}

/// The code of the characters from `from` up to the sixth.
pub open spec fn callsign_code(bytes: Seq<u8>, from: nat) -> nat
    decreases 6 - from,
{
    if from >= 6 || from >= bytes.len() {
        0
    } else {
        callsign_digit(bytes[from as int]) + 40 * callsign_code(bytes, from + 1)
    }
}

/// The number of MCUs of an image of `w` times `h` blocks of 16 pixels.
pub open spec fn mcu_total(w: u8, h: u8, mode: u8) -> int {
    w * h * if mode == 3 {
        4int
    } else if mode == 1 || mode == 2 {
        2int
    } else {
        1int
    }
}

/// The header makes sense for the kind of packet.
pub open spec fn geometry_error(pkt: Seq<u8>, kind: SsdvPacketKind) -> Option<SsdvDecodeError> {
    let id = be16(pkt[13], pkt[14]);
    if pkt[9] == 0 || pkt[10] == 0 {
        Some(SsdvDecodeError::ZeroDimensions)
    } else if id != 0xFFFF && (id >= mcu_total(pkt[9], pkt[10], pkt[11] & 3u8) || pkt[12]
        >= payload_size(kind)) {
        Some(SsdvDecodeError::BadMcu)
    } else {
        None
    }
}

/// The codeword of 223 data bytes.
pub open spec fn codeword_of(data: Seq<u8>) -> Seq<u8> {
    choose|c: Seq<u8>| is_codeword(c) && c.take(223) == data
}

/// The wire bytes of a packet. One with parity ends in the parity of its first 224
/// bytes, whatever parity was received.
pub open spec fn wire_bytes(pkt: Seq<u8>, kind: SsdvPacketKind) -> Seq<u8> {
    match kind {
        SsdvPacketKind::NoFec => pkt,
        SsdvPacketKind::WithFec => pkt.take(224) + Seq::new(
            32,
            |k: int| codeword_of(pkt.subrange(1, 224))[223 + k],
        ),
    }
}

/// The packet that the bytes hold.
pub open spec fn packet_of(
    pkt: Seq<u8>,
    kind: SsdvPacketKind,
    rs_errors: Option<u32>,
) -> PacketModel {
    PacketModel {
        kind,
        callsign: callsign_text(be32(pkt[2], pkt[3], pkt[4], pkt[5])),
        image_id: pkt[6],
        packet_id: be16(pkt[7], pkt[8]),
        width: (16 * pkt[9]) as u16,
        height: (16 * pkt[10]) as u16,
        eoi: (pkt[11] >> 2u8) & 1u8 != 0,
        quality: ((pkt[11] >> 3u8) & 7u8) ^ 4u8,
        mcu_mode: pkt[11] & 3u8,
        mcu_offset: pkt[12],
        mcu_id: be16(pkt[13], pkt[14]),
        mcu_count: mcu_total(pkt[9], pkt[10], pkt[11] & 3u8) as u32,
        payload: pkt.subrange(15, 15 + payload_size(kind) as int),
        rs_errors,
        crc_ok: true,
        raw: wire_bytes(pkt, kind),
    }
}

/// Bytes that are a codeword behind the sync byte are their own wire bytes.
pub proof fn lemma_wire_bytes(pkt: Seq<u8>)
    requires
        pkt.len() == 256,
        is_codeword(pkt.skip(1)),
    ensures
        wire_bytes(pkt, SsdvPacketKind::WithFec) == pkt,
{
    let data = pkt.subrange(1, 224);
    let own = pkt.skip(1);
    assert(own.take(223) =~= data);
    let c = codeword_of(data);
    assert(is_codeword(c) && c.take(223) == data);
    law_encoding_is_unique(c, own);
    assert(wire_bytes(pkt, SsdvPacketKind::WithFec) =~= pkt);
}

/// A packet with parity is determined by its first 224 bytes.
proof fn lemma_data_decides(a: Seq<u8>, b: Seq<u8>, rs_errors: Option<u32>)
    requires
        a.len() == 256,
        b.len() == 256,
        a.take(224) == b.take(224),
    ensures
        finished(a, SsdvPacketKind::WithFec, rs_errors) == finished(
            b,
            SsdvPacketKind::WithFec,
            rs_errors,
        ),
        crc_fits(a, SsdvPacketKind::WithFec) == crc_fits(b, SsdvPacketKind::WithFec),
{
    assert forall|i: int| 0 <= i < 224 implies #[trigger] a[i] == b[i] by {
        assert(a[i] == a.take(224)[i]);
        assert(b[i] == b.take(224)[i]);
    }
    assert(a.subrange(1, 220) =~= b.subrange(1, 220));
    assert(a.subrange(15, 220) =~= b.subrange(15, 220));
    assert(a.subrange(1, 224) =~= b.subrange(1, 224));
}

/// What a packet with a matching CRC decodes to.
pub open spec fn finished(
    pkt: Seq<u8>,
    kind: SsdvPacketKind,
    rs_errors: Option<u32>,
) -> Result<PacketModel, SsdvDecodeError> {
    match geometry_error(pkt, kind) {
        Some(e) => Err(e),
        None => Ok(packet_of(pkt, kind, rs_errors)),
    }
}

/// What 256 bytes decode to: the type byte is trusted when the CRC it implies
/// matches; else the packet is taken as one with parity and repaired.
pub open spec fn ssdv_decoded(raw: Seq<u8>) -> Result<PacketModel, SsdvDecodeError> {
    let pkt = raw.update(0, 0x55);
    if raw.len() != 256 {
        Err(SsdvDecodeError::BadLength)
    } else if pkt[1] == 0x67 && crc_fits(pkt, SsdvPacketKind::NoFec) {
        finished(pkt, SsdvPacketKind::NoFec, None)
    } else if pkt[1] == 0x66 && crc_fits(pkt, SsdvPacketKind::WithFec) {
        finished(pkt, SsdvPacketKind::WithFec, Some(0))
    } else {
        let block = pkt.update(1, 0x66).skip(1);
        match nearest(block) {
            None => Err(SsdvDecodeError::Uncorrectable),
            Some(c) => {
                let fixed = seq![0x55u8] + c;
                if !crc_fits(fixed, SsdvPacketKind::WithFec) {
                    Err(SsdvDecodeError::BadCrc)
                } else {
                    finished(fixed, SsdvPacketKind::WithFec, Some(distance(block, c) as u32))
                }
            },
        }
    }
}

/// The result is that packet or that error.
pub open spec fn is_packet(
    res: Result<SsdvPacket, SsdvDecodeError>,
    want: Result<PacketModel, SsdvDecodeError>,
) -> bool {
    match want {
        Ok(m) => res matches Ok(p) && p@ == m,
        Err(e) => res matches Err(f) && f == e,
    }
}

/// Stateless SSDV packet decoder.
#[derive(Debug, Clone, Copy)]
pub struct SsdvDecoder;

impl SsdvDecoder {
    /// Construct a new decoder. Stateless; cheap.
    pub fn new() -> (d: Self)
        ensures
            d == SsdvDecoder,
    {
        Self
    }

    /// Decode one 256-byte SSDV packet.
    ///
    /// 1. If `pkt[1] == 0x67`, try the NoFEC CRC. Hit: done.
    /// 2. If `pkt[1] == 0x66`, try the FEC CRC. Hit: done; the parity is written
    ///    anew.
    /// 3. Otherwise, force `pkt[1] = 0x66`, run Reed-Solomon over
    ///    `pkt[1..256]`, then re-check the FEC CRC. This covers both genuinely
    ///    corrupted FEC packets and packets where the type byte itself flipped.
    ///
    /// Header geometry (`width`, `height`, `mcu_id`, `mcu_offset`) is
    /// sanity-checked against the computed MCU count.
    ///
    /// # Errors
    ///
    /// Returns the appropriate [`SsdvDecodeError`] when the packet fails any of
    /// the validation steps.
    pub fn decode(&self, raw: &[u8]) -> (res: Result<SsdvPacket, SsdvDecodeError>)
        ensures
            is_packet(res, ssdv_decoded(raw@)),
    {
        if raw.len() != SSDV_PKT_SIZE {
            return Err(SsdvDecodeError::BadLength);
        }
        let mut pkt: Vec<u8> = copy_range(raw, 0, SSDV_PKT_SIZE);
        pkt[0] = 0x55;
        assert(pkt@ =~= raw@.update(0, 0x55));
        if pkt[1] == 0x67 && crc_matches(pkt.as_slice(), SsdvPacketKind::NoFec) {
            return finish_packet(pkt, SsdvPacketKind::NoFec, None);
        }
        if pkt[1] == 0x66 && crc_matches(pkt.as_slice(), SsdvPacketKind::WithFec) {
            let restored = restore_parity(pkt.as_slice());
            proof {
                lemma_data_decides(pkt@, restored@, Some(0));
            }
            return finish_packet(restored, SsdvPacketKind::WithFec, Some(0));
        }
        pkt[1] = 0x66;
        let mut block: Vec<u8> = copy_range(pkt.as_slice(), 1, SSDV_PKT_SIZE);
        let ghost damaged = block@;
        assert(damaged =~= raw@.update(0, 0x55).update(1, 0x66).skip(1));
        let corrected: usize = match rs8::decode(block.as_mut_slice()) {
            Ok(n) => n,
            Err(_) => {
                proof {
                    assert forall|c: Seq<u8>| !near(damaged, c) by {}
                }
                return Err(SsdvDecodeError::Uncorrectable);
            },
        };
        proof {
            assert(near(damaged, block@));
            lemma_nearest(damaged, block@);
        }
        let fixed = with_sync(block.as_slice());
        assert(fixed@.skip(1) =~= block@);
        if !crc_matches(fixed.as_slice(), SsdvPacketKind::WithFec) {
            return Err(SsdvDecodeError::BadCrc);
        }
        finish_packet(fixed, SsdvPacketKind::WithFec, Some(corrected as u32))
    }
}

impl Default for SsdvDecoder {
    fn default() -> (d: Self)
        ensures
            d == SsdvDecoder,
    {
        SsdvDecoder
    }
}

/// The sync byte and 255 bytes behind it.
fn with_sync(block: &[u8]) -> (out: Vec<u8>)
    requires
        block@.len() == 255,
    ensures
        out@ == seq![0x55u8] + block@,
{
    let mut out: Vec<u8> = Vec::new();
    out.push(0x55);
    let mut i: usize = 0;
    while i < 255
        invariant
            i <= 255,
            block@.len() == 255,
            out@ == seq![0x55u8] + block@.take(i as int),
        decreases 255 - i,
    {
        out.push(block[i]);
        i = i + 1;
        assert(out@ =~= seq![0x55u8] + block@.take(i as int));
    }
    assert(out@ =~= seq![0x55u8] + block@);
    out
}

/// The packet with the parity of its first 224 bytes.
fn restore_parity(pkt: &[u8]) -> (out: Vec<u8>)
    requires
        pkt@.len() == 256,
        pkt@[0] == 0x55,
    ensures
        out@.len() == 256,
        out@.take(224) == pkt@.take(224),
        is_codeword(out@.skip(1)),
{
    let mut block: Vec<u8> = copy_range(pkt, 1, SSDV_PKT_SIZE);
    let ghost before = block@;
    let encoded = rs8::encode(block.as_mut_slice());
    assert(encoded is Ok);
    let out = with_sync(block.as_slice());
    proof {
        assert(out@.skip(1) =~= block@);
        assert forall|i: int| 1 <= i < 224 implies #[trigger] out@[i] == pkt@[i] by {
            assert(block@.take(223)[i - 1] == before.take(223)[i - 1]);
        }
        assert(out@.take(224) =~= pkt@.take(224));
    }
    out
}

fn finish_packet(pkt: Vec<u8>, kind: SsdvPacketKind, rs_errors: Option<u32>) -> (res: Result<
    SsdvPacket,
    SsdvDecodeError,
>)
    requires
        pkt@.len() == 256,
        kind == SsdvPacketKind::WithFec ==> is_codeword(pkt@.skip(1)),
    ensures
        is_packet(res, finished(pkt@, kind, rs_errors)),
{
    proof {
        if kind == SsdvPacketKind::WithFec {
            lemma_wire_bytes(pkt@);
        }
    }
    let w: u8 = pkt[9];
    let h: u8 = pkt[10];
    if w == 0 || h == 0 {
        return Err(SsdvDecodeError::ZeroDimensions);
    }
    let flags: u8 = pkt[11];
    let mcu_mode: u8 = flags & 3u8;
    let factor: u32 = if mcu_mode == 3 {
        4
    } else if mcu_mode == 1 || mcu_mode == 2 {
        2
    } else {
        1
    };
    assert(0 <= w * h <= 65025) by (nonlinear_arith)
        requires
            0 <= w <= 255,
            0 <= h <= 255,
    ;
    let area: u32 = w as u32 * h as u32;
    assert(area * factor == mcu_total(w, h, mcu_mode));
    assert(area * factor <= 260100) by (nonlinear_arith)
        requires
            0 <= area <= 65025,
            1 <= factor <= 4,
    ;
    let mcu_count: u32 = area * factor;
    let mcu_id: u16 = 256 * pkt[13] as u16 + pkt[14] as u16;
    let mcu_offset: u8 = pkt[12];
    let payload_len: usize = kind.payload_len();
    if mcu_id != 0xFFFF {
        if mcu_id as u32 >= mcu_count {
            return Err(SsdvDecodeError::BadMcu);
        }
        if mcu_offset as usize >= payload_len {
            return Err(SsdvDecodeError::BadMcu);
        }
    }
    let code: u32 = 16777216 * pkt[2] as u32 + 65536 * pkt[3] as u32 + 256 * pkt[4] as u32
        + pkt[5] as u32;
    let payload: Vec<u8> = copy_range(pkt.as_slice(), SSDV_HEADER_LEN, SSDV_HEADER_LEN + payload_len);
    Ok(
        SsdvPacket {
            kind,
            callsign: decode_callsign(code),
            image_id: pkt[6],
            packet_id: 256 * pkt[7] as u16 + pkt[8] as u16,
            width: 16 * w as u16,
            height: 16 * h as u16,
            eoi: (flags >> 2u8) & 1u8 != 0,
            quality: ((flags >> 3u8) & 7u8) ^ 4u8,
            mcu_mode,
            mcu_offset,
            mcu_id,
            mcu_count,
            payload,
            rs_errors,
            crc_ok: true,
            raw: pkt,
        },
    )
}

fn crc_matches(pkt: &[u8], kind: SsdvPacketKind) -> (r: bool)
    requires
        pkt@.len() == 256,
    ensures
        r == crc_fits(pkt@, kind),
{
    let i: usize = SSDV_HEADER_LEN + kind.payload_len();
    let data: Vec<u8> = copy_range(pkt, 1, i);
    let stored: u32 = 16777216 * pkt[i] as u32 + 65536 * pkt[i + 1] as u32 + 256 * pkt[i + 2] as u32
        + pkt[i + 3] as u32;
    crc32(data.as_slice()) == stored
}

/// CRC32 with reflected polynomial 0xEDB88320, init/xorout 0xFFFFFFFF.
pub fn crc32(data: &[u8]) -> (r: u32)
    ensures
        r == crc32_of(data@),
{
    let mut crc: u32 = 0xFFFF_FFFF;
    let mut n: usize = 0;
    while n < data.len()
        invariant
            n <= data@.len(),
            crc == crc32_register(data@, n as nat),
        decreases data@.len() - n,
    {
        let mut x: u32 = (crc ^ (data[n] as u32)) & 0xFF;
        let ghost start = x;
        let mut k: u8 = 0;
        while k < 8
            invariant
                k <= 8,
                x == crc32_bits(start, k as nat),
            decreases 8 - k,
        {
            if x & 1 != 0 {
                x = (x >> 1u32) ^ 0xEDB8_8320;
            } else {
                x = x >> 1u32;
            }
            k = k + 1;
        }
        crc = (crc >> 8u32) ^ x;
        n = n + 1;
    }
    crc ^ 0xFFFF_FFFF
}

/// Decode the 32-bit base-40 callsign.
pub fn decode_callsign(code: u32) -> (out: String)
    ensures
        out@ == callsign_text(code),
{
    let mut out: String = String::new();
    if code > 0xF423_FFFF {
        return out;
    }
    let mut rest: u32 = code;
    while rest != 0
        invariant
            out@ + callsign_chars(rest as nat) == callsign_chars(code as nat),
        decreases rest,
    {
        let s: u8 = (rest % 40) as u8;
        let ch: char = if s == 0 {
            '-'
        } else if s <= 10 {
            (47 + s) as char
        } else if s <= 13 {
            '-'
        } else {
            (51 + s) as char
        };
        assert(ch == callsign_char((rest % 40) as nat));
        let ghost before = out@;
        out.push(ch);
        rest = rest / 40;
        assert(out@ + callsign_chars(rest as nat) =~= before + (seq![ch] + callsign_chars(
            rest as nat,
        )));
    }
    assert(out@ + callsign_chars(0) =~= out@);
    out
}

/// Encode a callsign string into a 32-bit base-40 code: at most six characters,
/// letters in either case and digits; anything else counts as zero.
pub fn encode_callsign(callsign: &str) -> (x: u32)
    ensures
        x == callsign_code(callsign.spec_bytes(), 0),
{
    let bytes: &[u8] = callsign.as_bytes();
    let mut n: usize = if bytes.len() < SSDV_MAX_CALLSIGN {
        bytes.len()
    } else {
        SSDV_MAX_CALLSIGN
    };
    let mut x: u32 = 0;
    proof {
        lemma_code_bound(bytes@, n as nat);
    }
    while n > 0
        invariant
            n <= 6,
            n <= bytes@.len(),
            x == callsign_code(bytes@, n as nat),
        decreases n,
    {
        let c: u8 = bytes[n - 1];
        let d: u32 = if 65 <= c && c <= 90 {
            c as u32 - 51
        } else if 97 <= c && c <= 122 {
            c as u32 - 83
        } else if 48 <= c && c <= 57 {
            c as u32 - 47
        } else {
            0
        };
        proof {
            lemma_code_bound(bytes@, (n - 1) as nat);
        }
        x = 40 * x + d;
        n = n - 1;
    }
    x
}

/// `40^n`.
pub open spec fn pow40(n: nat) -> nat
    decreases n,
{
    if n == 0 {
        1
    } else {
        40 * pow40((n - 1) as nat)
    }
}

proof fn lemma_code_bound(bytes: Seq<u8>, from: nat)
    ensures
        from <= 6 ==> callsign_code(bytes, from) < pow40((6 - from) as nat),
        callsign_code(bytes, from) <= 0xF423_FFFF,
    decreases 6 - from,
{
    reveal_with_fuel(pow40, 7);
    if from < 6 && from < bytes.len() {
        lemma_code_bound(bytes, from + 1);
        assert(callsign_digit(bytes[from as int]) <= 39);
        assert(pow40((6 - from) as nat) == 40 * pow40((5 - from) as nat));
        lemma_pow40_six((6 - from) as nat);
    }
}

proof fn lemma_pow40_six(n: nat)
    requires
        n <= 6,
    ensures
        pow40(n) <= 4_096_000_000,
{
    reveal_with_fuel(pow40, 7);
}

/// A character that a callsign may hold: an upper-case letter or a digit.
pub open spec fn is_callsign_byte(c: u8) -> bool {
    65 <= c <= 90 || 48 <= c <= 57
}

proof fn lemma_callsign_chars(bytes: Seq<u8>, from: nat)
    requires
        bytes.len() <= 6,
        from <= bytes.len(),
        forall|i: int| 0 <= i < bytes.len() ==> is_callsign_byte(#[trigger] bytes[i]),
    ensures
        callsign_chars(callsign_code(bytes, from)) == bytes.skip(from as int).map_values(
            |b: u8| b as char,
        ),
    decreases bytes.len() - from,
{
    let want = bytes.skip(from as int).map_values(|b: u8| b as char);
    if from < bytes.len() {
        lemma_callsign_chars(bytes, from + 1);
        let c = bytes[from as int];
        assert(is_callsign_byte(c));
        let rest = callsign_code(bytes, from + 1);
        let d = callsign_digit(c);
        let code = d + 40 * rest;
        assert(0 < d < 40);
        assert(code % 40 == d && code / 40 == rest);
        assert(callsign_char(d) == c as char);
        assert(callsign_chars(code) =~= want);
    } else {
        assert(want =~= Seq::<char>::empty());
    }
}

/// A callsign of up to six upper-case letters and digits survives encoding and
/// decoding.
pub proof fn law_callsign_round_trip(bytes: Seq<u8>)
    requires
        bytes.len() <= 6,
        forall|i: int| 0 <= i < bytes.len() ==> is_callsign_byte(#[trigger] bytes[i]),
    ensures
        callsign_text(callsign_code(bytes, 0) as u32) == bytes.map_values(|b: u8| b as char),
{
    lemma_code_bound(bytes, 0);
    lemma_callsign_chars(bytes, 0);
    assert(bytes.skip(0) =~= bytes);
}

/// Divide out eight bits.
spec fn crc32_byte(x: u32) -> u32 {
    let y = crc32_bit(crc32_bit(crc32_bit(crc32_bit(x))));
    crc32_bit(crc32_bit(crc32_bit(crc32_bit(y))))
}

/// The register forgets nothing: different registers stay different.
proof fn lemma_crc32_step(x: u32, y: u32, a: u8, b: u8)
    by (bit_vector)
    ensures
        (x >> 8u32) ^ crc32_byte((x ^ (a as u32)) & 0xFF) == (y >> 8u32) ^ crc32_byte(
            (y ^ (a as u32)) & 0xFF,
        ) ==> x == y,
        (x >> 8u32) ^ crc32_byte((x ^ (a as u32)) & 0xFF) == (x >> 8u32) ^ crc32_byte(
            (x ^ (b as u32)) & 0xFF,
        ) ==> a == b,
        x ^ 0xFFFF_FFFF == y ^ 0xFFFF_FFFF ==> x == y,
{
}

proof fn lemma_crc32_register(data: Seq<u8>, k: int, x: u8, n: nat)
    requires
        0 <= k < data.len(),
        x != data[k],
        n <= data.len(),
    ensures
        crc32_register(data.update(k, x), n) == crc32_register(data, n) <==> n <= k,
    decreases n,
{
    if n > 0 {
        let other = data.update(k, x);
        let a = crc32_register(data, (n - 1) as nat);
        let b = crc32_register(other, (n - 1) as nat);
        reveal_with_fuel(crc32_bits, 9);
        lemma_crc32_register(data, k, x, (n - 1) as nat);
        lemma_crc32_step(a, b, data[n - 1], other[n - 1]);
    }
}

/// The bits that are divided out of a register in eight steps.
spec fn crc32_quotient(x: u32) -> u8 {
    let a = crc32_bit(x);
    let b = crc32_bit(a);
    let c = crc32_bit(b);
    let d = crc32_bit(c);
    let e = crc32_bit(d);
    let f = crc32_bit(e);
    let g = crc32_bit(f);
    ((x & 1) | ((a & 1) << 1u32) | ((b & 1) << 2u32) | ((c & 1) << 3u32) | ((d & 1) << 4u32) | ((e
        & 1) << 5u32) | ((f & 1) << 6u32) | ((g & 1) << 7u32)) as u8
}

proof fn lemma_crc32_quotient(r: u32, b: u8)
    by (bit_vector)
    ensures
        (r ^ 0xFFFF_FFFF) ^ 0xFFFF_FFFF == r,
        r ^ r == 0,
        ({
            let y = (r >> 8u32) ^ crc32_byte((r ^ (b as u32)) & 0xFF);
            ((r ^ (b as u32)) as u64) ^ ((y as u64) << 8u64) == carryless_product(
                crc32_quotient((r ^ (b as u32)) & 0xFF),
                0x1_DB71_0641u64,
            )
        }),
{
}

proof fn lemma_crc32_prefix(data: Seq<u8>, b: u8, n: nat)
    requires
        n <= data.len(),
    ensures
        crc32_register(data.push(b), n) == crc32_register(data, n),
    decreases n,
{
    if n > 0 {
        lemma_crc32_prefix(data, b, (n - 1) as nat);
    }
}

/// The CRC is the remainder of a division, for data of any length, with all bits
/// reflected and inverted at the end. That of no data is zero. Taken without the final
/// inversion, one more byte is added to the low end, and eight places further up stands
/// what is left over: the two differ by a multiple of the generator polynomial, whose
/// lowest bit stands for `x^32`.
pub proof fn law_crc_is_a_remainder(data: Seq<u8>, b: u8)
    ensures
        crc32_of(Seq::empty()) == 0,
        exists|q: u8|
            ((crc32_of(data) ^ 0xFFFF_FFFF ^ (b as u32)) as u64) ^ (((crc32_of(data.push(b))
                ^ 0xFFFF_FFFF) as u64) << 8u64) == #[trigger] carryless_product(
                q,
                0x1_DB71_0641u64,
            ),
{
    let r = crc32_register(data, data.len());
    let t = crc32_register(data.push(b), data.len() + 1);
    lemma_crc32_prefix(data, b, data.len());
    reveal_with_fuel(crc32_bits, 9);
    lemma_crc32_quotient(r, b);
    lemma_crc32_quotient(t, b);
    lemma_crc32_quotient(0xFFFF_FFFF, 0);
    assert(((crc32_of(data) ^ 0xFFFF_FFFF ^ (b as u32)) as u64) ^ (((crc32_of(data.push(b))
        ^ 0xFFFF_FFFF) as u64) << 8u64) == carryless_product(
        crc32_quotient((r ^ (b as u32)) & 0xFF),
        0x1_DB71_0641u64,
    ));
}

/// A packet whose CRC matches does not match it any more with one byte damaged, be it
/// the type byte, the header, the payload or the CRC. One flipped bit is such damage.
pub proof fn law_crc_sees_one_byte(pkt: Seq<u8>, kind: SsdvPacketKind, k: int, x: u8)
    requires
        pkt.len() == 256,
        crc_fits(pkt, kind),
        1 <= k < 19 + payload_size(kind),
        x != pkt[k],
    ensures
        !crc_fits(pkt.update(k, x), kind),
{
    let i = 15 + payload_size(kind) as int;
    let data = pkt.subrange(1, i);
    let other = pkt.update(k, x).subrange(1, i);
    if k < i {
        assert(other =~= data.update(k - 1, x));
        lemma_crc32_register(data, k - 1, x, data.len());
        lemma_crc32_step(
            crc32_register(data, data.len()),
            crc32_register(other, data.len()),
            0,
            0,
        );
    } else {
        assert(other =~= data);
    }
}

/// Damage to the sync and type bytes and to up to 16 further bytes of a packet
/// with parity is repaired, unless the damaged bytes pass a CRC by accident.
pub proof fn law_damaged_packet_is_repaired(sent: Seq<u8>, received: Seq<u8>)
    requires
        sent.len() == 256,
        sent[0] == 0x55,
        sent[1] == 0x66,
        is_codeword(sent.skip(1)),
        crc_fits(sent, SsdvPacketKind::WithFec),
        geometry_error(sent, SsdvPacketKind::WithFec) is None,
        received.len() == 256,
        distance(received.update(1, 0x66).skip(1), sent.skip(1)) <= 16,
        received[1] == 0x67 ==> !crc_fits(received.update(0, 0x55), SsdvPacketKind::NoFec),
        received[1] == 0x66 ==> !crc_fits(received.update(0, 0x55), SsdvPacketKind::WithFec),
    ensures
        ssdv_decoded(received) == Ok::<PacketModel, SsdvDecodeError>(
            packet_of(
                sent,
                SsdvPacketKind::WithFec,
                Some(distance(received.update(1, 0x66).skip(1), sent.skip(1)) as u32),
            ),
        ),
        ssdv_decoded(received)->Ok_0.raw == sent,
{
    let block = received.update(0, 0x55).update(1, 0x66).skip(1);
    assert(block =~= received.update(1, 0x66).skip(1));
    lemma_nearest(block, sent.skip(1));
    lemma_wire_bytes(sent);
    assert(seq![0x55u8] + sent.skip(1) =~= sent);
}

/// A packet with parity of which only the sync and parity bytes are damaged, however
/// many, is taken as sent: nothing is counted as repaired, and the wire bytes are
/// those that were sent.
pub proof fn law_clean_packet(sent: Seq<u8>, received: Seq<u8>)
    requires
        sent.len() == 256,
        sent[0] == 0x55,
        sent[1] == 0x66,
        is_codeword(sent.skip(1)),
        crc_fits(sent, SsdvPacketKind::WithFec),
        received.len() == 256,
        received.subrange(1, 224) == sent.subrange(1, 224),
    ensures
        ssdv_decoded(received) == finished(sent, SsdvPacketKind::WithFec, Some(0)),
        geometry_error(sent, SsdvPacketKind::WithFec) is None ==> ssdv_decoded(
            received,
        )->Ok_0.raw == sent,
{
    let pkt = received.update(0, 0x55);
    assert forall|i: int| 0 <= i < 224 implies #[trigger] pkt[i] == sent[i] by {
        if i > 0 {
            let k = i - 1;
            assert(received.subrange(1, 224)[k] == received[k + 1]);
            assert(sent.subrange(1, 224)[k] == sent[k + 1]);
        }
    }
    assert(pkt.take(224) =~= sent.take(224));
    assert(pkt[1] == sent[1]);
    lemma_data_decides(pkt, sent, Some(0));
    lemma_wire_bytes(sent);
}

/// A packet without parity whose CRC matches is taken as it is, whatever its sync
/// byte.
pub proof fn law_plain_packet(sent: Seq<u8>, sync: u8)
    requires
        sent.len() == 256,
        sent[0] == 0x55,
        sent[1] == 0x67,
        crc_fits(sent, SsdvPacketKind::NoFec),
    ensures
        ssdv_decoded(sent.update(0, sync)) == finished(sent, SsdvPacketKind::NoFec, None),
        geometry_error(sent, SsdvPacketKind::NoFec) is None ==> ssdv_decoded(
            sent.update(0, sync),
        )->Ok_0.raw == sent,
{
    assert(sent.update(0, sync).update(0, 0x55) =~= sent);
}

} // verus!
