//! What the fields of a decoded SSDV packet say of its bytes.
use vstd::prelude::*;
use crate::rs8::{lemma_nearest, nearest};
use crate::rs_code::is_codeword;
use crate::rs_laws::distance;
use crate::ssdv::{
    callsign_char, callsign_chars, callsign_code, crc32_of, crc_fits, finished, geometry_error,
    is_packet, packet_of, ssdv_decoded, wire_bytes, PacketModel, SsdvDecodeError, SsdvPacket,
    SsdvPacketKind,
};

verus! {

/// The number in two bytes, the high one first.
pub open spec fn two_bytes(bytes: Seq<u8>, k: int) -> int {
    256 * bytes[k] + bytes[k + 1]
}

/// The number in four bytes, the high one first.
pub open spec fn four_bytes(bytes: Seq<u8>, k: int) -> int {
    65536 * two_bytes(bytes, k) + two_bytes(bytes, k + 2)
}

/// `v` without its `i` low digits to the base of forty.
pub open spec fn without_digits(v: nat, i: nat) -> nat
    decreases i,
{
    if i == 0 {
        v
    } else {
        without_digits(v / 40, (i - 1) as nat)
    }
}

/// The character stands for this digit to the base of forty: figures for one to ten,
/// letters from fourteen on, and a dash for the others.
pub open spec fn stands_for(c: char, digit: nat) -> bool {
    if 1 <= digit <= 10 {
        c as int == 48 + (digit - 1)
    } else if digit >= 14 {
        c as int == 65 + (digit - 14)
    } else {
        c == '-'
    }
}

/// The text holds the digits of `v` to the base of forty, the low one first and none
/// beyond the highest. A number of more than six digits has none.
pub open spec fn is_callsign_of(text: Seq<char>, v: nat) -> bool {
    if v >= 4_096_000_000 {
        text.len() == 0
    } else {
        &&& without_digits(v, text.len()) == 0
        &&& text.len() > 0 ==> without_digits(v, (text.len() - 1) as nat) > 0
        &&& forall|i: int|
            0 <= i < text.len() ==> stands_for(
                #[trigger] text[i],
                without_digits(v, i as nat) % 40,
            )
    }
}

/// The bytes of the payload of a packet with and without parity.
pub open spec fn payload_end(kind: SsdvPacketKind) -> int {
    match kind {
        SsdvPacketKind::WithFec => 220,
        SsdvPacketKind::NoFec => 252,
    }
}

/// The packet holds what its bytes say.
pub open spec fn reads(p: PacketModel, raw: Seq<u8>) -> bool {
    &&& raw.len() == 256
    &&& raw[0] == 0x55
    &&& is_callsign_of(p.callsign, four_bytes(raw, 2) as nat)
    &&& p.image_id == raw[6]
    &&& p.packet_id == two_bytes(raw, 7)
    &&& p.width == 16 * raw[9]
    &&& p.height == 16 * raw[10]
    &&& p.mcu_mode < 4
    &&& p.quality < 8
    &&& exists|top: int|
        raw[11] == #[trigger] (64 * top) + 8 * ((p.quality + 4) % 8) + (if p.eoi {
            4int
        } else {
            0
        }) + p.mcu_mode && 0 <= top < 4
    &&& p.mcu_offset == raw[12]
    &&& p.mcu_id == two_bytes(raw, 13)
    &&& p.payload == raw.subrange(15, payload_end(p.kind))
    &&& crc32_of(raw.subrange(1, payload_end(p.kind))) == four_bytes(raw, payload_end(p.kind))
    &&& p.crc_ok
}

/// The fields of a packet make sense together.
pub open spec fn makes_sense(p: PacketModel) -> bool {
    &&& p.width > 0
    &&& p.height > 0
    &&& p.mcu_mode == 0 ==> 256 * p.mcu_count == p.width * p.height
    &&& p.mcu_mode == 1 ==> 128 * p.mcu_count == p.width * p.height
    &&& p.mcu_mode == 2 ==> 128 * p.mcu_count == p.width * p.height
    &&& p.mcu_mode == 3 ==> 64 * p.mcu_count == p.width * p.height
    &&& p.mcu_id == 0xFFFF || (p.mcu_id < p.mcu_count && p.mcu_offset < p.payload.len())
}

proof fn lemma_flags(f: u8)
    by (bit_vector)
    ensures
        f == 64 * (f >> 6u8) + 8 * (((((f >> 3u8) & 7u8) ^ 4u8) + 4) % 8) + (if (f >> 2u8) & 1u8
            != 0 {
            4u8
        } else {
            0u8
        }) + (f & 3u8),
        (f >> 6u8) < 4,
        (((f >> 3u8) & 7u8) ^ 4u8) < 8,
        (f & 3u8) < 4,
{
}

proof fn lemma_callsign(v: nat)
    ensures
        without_digits(v, callsign_chars(v).len()) == 0,
        callsign_chars(v).len() > 0 ==> without_digits(
            v,
            (callsign_chars(v).len() - 1) as nat,
        ) > 0,
        forall|i: int|
            0 <= i < callsign_chars(v).len() ==> stands_for(
                #[trigger] callsign_chars(v)[i],
                without_digits(v, i as nat) % 40,
            ),
    decreases v,
{
    if v > 0 {
        let rest = callsign_chars(v / 40);
        let text = callsign_chars(v);
        lemma_callsign(v / 40);
        assert(text.len() == rest.len() + 1);
        assert forall|i: int| 0 <= i < text.len() implies stands_for(
            #[trigger] text[i],
            without_digits(v, i as nat) % 40,
        ) by {
            if i == 0 {
                assert(text[0] == callsign_char(v % 40));
            } else {
                assert(text[i] == rest[i - 1]);
            }
        }
        if rest.len() > 0 {
            assert(without_digits(v, rest.len()) == without_digits(
                v / 40,
                (rest.len() - 1) as nat,
            ));
        }
    }
}

proof fn lemma_count(a: int, b: int)
    ensures
        (16 * a) * (16 * b) == 256 * (a * b),
        (a * b) * 4 == 4 * (a * b),
        (a * b) * 2 == 2 * (a * b),
{
    assert((16 * a) * (16 * b) == 256 * (a * b)) by (nonlinear_arith);
}

proof fn lemma_reads(pkt: Seq<u8>, kind: SsdvPacketKind, rs_errors: Option<u32>)
    requires
        pkt.len() == 256,
        pkt[0] == 0x55,
        crc_fits(pkt, kind),
        finished(pkt, kind, rs_errors) is Ok,
    ensures
        ({
            let p = packet_of(pkt, kind, rs_errors);
            &&& finished(pkt, kind, rs_errors) == Ok::<PacketModel, crate::ssdv::SsdvDecodeError>(p)
            &&& reads(p, p.raw)
            &&& makes_sense(p)
            &&& p.kind == kind
            &&& p.rs_errors == rs_errors
            &&& p.raw.take(224) == pkt.take(224)
            &&& kind is NoFec ==> p.raw == pkt
        }),
{
    let p = packet_of(pkt, kind, rs_errors);
    let raw = wire_bytes(pkt, kind);
    lemma_flags(pkt[11]);
    lemma_callsign(four_bytes(pkt, 2) as nat);
    lemma_count(pkt[9] as int, pkt[10] as int);
    assert(pkt[9] * pkt[10] <= 255 * 255) by (nonlinear_arith)
        requires
            pkt[9] <= 255,
            pkt[10] <= 255,
    ;
    assert(raw.take(224) =~= pkt.take(224));
    assert forall|i: int| 0 <= i < 224 implies #[trigger] raw[i] == pkt[i] by {
        assert(raw.take(224)[i] == pkt.take(224)[i]);
    }
    let e = payload_end(kind);
    assert(raw.subrange(15, e) =~= pkt.subrange(15, e));
    assert(raw.subrange(1, e) =~= pkt.subrange(1, e));
    let top = (pkt[11] >> 6u8) as int;
    assert(raw[11] == (64 * top) + 8 * ((p.quality + 4) % 8) + (if p.eoi {
        4int
    } else {
        0
    }) + p.mcu_mode);
}

/// A packet that is decoded holds what its wire bytes say, field by field, its CRC matches
/// those bytes, and its fields make sense together. A packet without parity is the bytes
/// that came, but for the sync byte; one with parity was damaged in at most sixteen
/// bytes, and reports how many.
pub proof fn law_packet_reads_its_bytes(received: Seq<u8>)
    ensures
        ssdv_decoded(received) matches Ok(p) ==> {
            &&& received.len() == 256
            &&& reads(p, p.raw)
            &&& makes_sense(p)
            &&& p.kind is NoFec ==> p.rs_errors is None && received[1] == 0x67 && p.raw
                == received.update(0, 0x55)
            &&& p.kind is WithFec ==> {
                let n = p.rs_errors->Some_0;
                &&& p.rs_errors is Some
                &&& n <= 16
                &&& n == distance(received.update(1, 0x66).skip(1), p.raw.skip(1)) || (n == 0
                    && received[1] == 0x66 && p.raw.subrange(1, 224) == received.subrange(1, 224))
            }
        },
{
    if let Ok(p) = ssdv_decoded(received) {
        let pkt = received.update(0, 0x55);
        if pkt[1] == 0x67 && crc_fits(pkt, SsdvPacketKind::NoFec) {
            lemma_reads(pkt, SsdvPacketKind::NoFec, None);
        } else if pkt[1] == 0x66 && crc_fits(pkt, SsdvPacketKind::WithFec) {
            lemma_reads(pkt, SsdvPacketKind::WithFec, Some(0));
            assert forall|i: int| 0 <= i < 223 implies p.raw.subrange(1, 224)[i]
                == received.subrange(1, 224)[i] by {
                assert(p.raw.take(224)[i + 1] == pkt.take(224)[i + 1]);
            }
            assert(p.raw.subrange(1, 224) =~= received.subrange(1, 224));
        } else {
            let block = pkt.update(1, 0x66).skip(1);
            let c = nearest(block)->Some_0;
            assert(crate::rs8::near(block, c));
            let fixed = seq![0x55u8] + c;
            assert(fixed.skip(1) =~= c);
            crate::ssdv::lemma_wire_bytes(fixed);
            lemma_reads(fixed, SsdvPacketKind::WithFec, Some(distance(block, c) as u32));
            assert(block =~= received.update(1, 0x66).skip(1));
            assert(p.raw.skip(1) =~= c);
        }
    }
}

/// The header of a packet makes sense: the picture has a size, and where the packet says
/// which MCU begins in it, that is one of the picture and begins within the payload. The
/// two low bits of the flags say how many MCUs there are in 16 by 16 pixels.
pub open spec fn sound_header(pkt: Seq<u8>, payload_len: int) -> bool {
    let id = 256 * pkt[13] + pkt[14];
    let mcus = (pkt[9] * pkt[10]) * (if pkt[11] % 4 == 0 {
        1int
    } else if pkt[11] % 4 == 3 {
        4
    } else {
        2
    });
    &&& pkt[9] > 0
    &&& pkt[10] > 0
    &&& id == 0xFFFF || (id < mcus && pkt[12] < payload_len)
}

/// A packet with a matching CRC is refused exactly if its header makes no sense, and the
/// error tells a picture without size from a wrong MCU.
pub proof fn law_senseless_headers_are_refused(pkt: Seq<u8>)
    requires
        pkt.len() == 256,
    ensures
        geometry_error(pkt, SsdvPacketKind::WithFec) is None <==> sound_header(pkt, 205),
        geometry_error(pkt, SsdvPacketKind::NoFec) is None <==> sound_header(pkt, 237),
        forall|kind: SsdvPacketKind|
            #[trigger] geometry_error(pkt, kind) == Some(SsdvDecodeError::ZeroDimensions) <==> (
            pkt[9] == 0 || pkt[10] == 0),
        forall|kind: SsdvPacketKind|
            #[trigger] geometry_error(pkt, kind) matches Some(e) ==> (e
                == SsdvDecodeError::ZeroDimensions || e == SsdvDecodeError::BadMcu),
{
    lemma_flags(pkt[11]);
    assert(pkt[11] % 4 == pkt[11] & 3u8);
    let m = pkt[9] * pkt[10];
    assert(m * 1 == m && m * 2 == 2 * m && m * 4 == 4 * m);
}

/// The CRC is of everything between the sync byte and itself, and stands behind the payload
/// of 205 bytes, or of 237 where there is no parity, the high byte first.
pub proof fn law_crc_stands_behind_the_payload(pkt: Seq<u8>)
    requires
        pkt.len() == 256,
    ensures
        crc_fits(pkt, SsdvPacketKind::WithFec) <==> crc32_of(pkt.subrange(1, 220)) == 16777216
            * pkt[220] + 65536 * pkt[221] + 256 * pkt[222] + pkt[223],
        crc_fits(pkt, SsdvPacketKind::NoFec) <==> crc32_of(pkt.subrange(1, 252)) == 16777216
            * pkt[252] + 65536 * pkt[253] + 256 * pkt[254] + pkt[255],
{
}

/// Only packets of 256 bytes are looked at. Where the type byte does not go with a
/// matching CRC, there has to be a codeword near enough, and its CRC has to match.
pub proof fn law_other_packets_are_refused(received: Seq<u8>)
    ensures
        received.len() != 256 ==> ssdv_decoded(received) == Err::<PacketModel, SsdvDecodeError>(
            SsdvDecodeError::BadLength,
        ),
        received.len() == 256 && !(received[1] == 0x67 && crc_fits(
            received.update(0, 0x55),
            SsdvPacketKind::NoFec,
        )) && !(received[1] == 0x66 && crc_fits(received.update(0, 0x55), SsdvPacketKind::WithFec))
            ==> {
            let block = received.update(1, 0x66).skip(1);
            &&& (forall|c: Seq<u8>| #[trigger] is_codeword(c) ==> distance(block, c) > 16)
                ==> ssdv_decoded(received) == Err::<PacketModel, SsdvDecodeError>(
                SsdvDecodeError::Uncorrectable,
            )
            &&& forall|c: Seq<u8>|
                #[trigger] is_codeword(c) && distance(block, c) <= 16 && !crc_fits(
                    seq![0x55u8] + c,
                    SsdvPacketKind::WithFec,
                ) ==> ssdv_decoded(received) == Err::<PacketModel, SsdvDecodeError>(
                    SsdvDecodeError::BadCrc,
                )
        },
{
    if received.len() == 256 {
        let block = received.update(1, 0x66).skip(1);
        let pkt = received.update(0, 0x55);
        assert(pkt.update(1, 0x66).skip(1) =~= block);
        if forall|c: Seq<u8>| #[trigger] is_codeword(c) ==> distance(block, c) > 16 {
            assert forall|c: Seq<u8>| !crate::rs8::near(block, c) by {
                if is_codeword(c) {
                    assert(distance(block, c) > 16);
                }
            }
        }
        assert forall|c: Seq<u8>|
            #[trigger] is_codeword(c) && distance(block, c) <= 16 && !crc_fits(
                seq![0x55u8] + c,
                SsdvPacketKind::WithFec,
            ) && !(received[1] == 0x67 && crc_fits(pkt, SsdvPacketKind::NoFec)) && !(received[1]
                == 0x66 && crc_fits(pkt, SsdvPacketKind::WithFec)) implies ssdv_decoded(received)
            == Err::<PacketModel, SsdvDecodeError>(SsdvDecodeError::BadCrc) by {
            lemma_nearest(block, c);
        }
    }
}

/// The digit of a character of a callsign: figures from 1 and letters of either case from
/// 14 on; any other, or none, has no digit.
pub open spec fn digit_at(bytes: Seq<u8>, i: int) -> int {
    if i >= bytes.len() {
        0
    } else if 0x30 <= bytes[i] <= 0x39 {
        1 + (bytes[i] - 0x30)
    } else if 0x41 <= bytes[i] <= 0x5A {
        14 + (bytes[i] - 0x41)
    } else if 0x61 <= bytes[i] <= 0x7A {
        14 + (bytes[i] - 0x61)
    } else {
        0
    }
}

/// A callsign is a number to the base of forty, of which the first character is the lowest
/// digit; only six characters count.
pub proof fn law_callsign_is_a_number(bytes: Seq<u8>)
    ensures
        callsign_code(bytes, 0) == digit_at(bytes, 0) + 40 * digit_at(bytes, 1) + 1600 * digit_at(
            bytes,
            2,
        ) + 64000 * digit_at(bytes, 3) + 2560000 * digit_at(bytes, 4) + 102400000 * digit_at(
            bytes,
            5,
        ),
{
    lemma_next_digit(bytes, 0);
    lemma_next_digit(bytes, 1);
    lemma_next_digit(bytes, 2);
    lemma_next_digit(bytes, 3);
    lemma_next_digit(bytes, 4);
    lemma_next_digit(bytes, 5);
    assert(callsign_code(bytes, 6) == 0);
}

proof fn lemma_next_digit(bytes: Seq<u8>, from: nat)
    requires
        from < 6,
    ensures
        callsign_code(bytes, from) == digit_at(bytes, from as int) + 40 * callsign_code(
            bytes,
            from + 1,
        ),
{
    if from >= bytes.len() {
        assert(callsign_code(bytes, from) == 0);
        assert(callsign_code(bytes, from + 1) == 0);
    }
}

/// A result is the packet by its contents, or the error.
pub proof fn law_packet_by_contents(
    res: Result<SsdvPacket, SsdvDecodeError>,
    want: Result<PacketModel, SsdvDecodeError>,
)
    requires
        is_packet(res, want),
    ensures
        res is Ok <==> want is Ok,
        res matches Err(e) ==> want == Err::<PacketModel, SsdvDecodeError>(e),
        res matches Ok(p) ==> {
            let m = want->Ok_0;
            &&& p.kind == m.kind && p.callsign@ == m.callsign && p.image_id == m.image_id
            &&& p.packet_id == m.packet_id && p.width == m.width && p.height == m.height
            &&& p.eoi == m.eoi && p.quality == m.quality && p.mcu_mode == m.mcu_mode
            &&& p.mcu_offset == m.mcu_offset && p.mcu_id == m.mcu_id && p.mcu_count == m.mcu_count
            &&& p.payload@ == m.payload && p.rs_errors == m.rs_errors && p.crc_ok == m.crc_ok
            &&& p.raw@ == m.raw
        },
{
}

} // verus!
