//! Which bytes of an AX100 packet make its frame, and which packets are refused.
use vstd::prelude::*;
use crate::ax100::{
    asm_golay_crc_result, asm_golay_result, asm_golay_soft_result, field_of, header_length,
    header_word, rs_mode_result, Ax100Frame, Ax100Mode,
};
use crate::ccsds_randomizer::randomized;
use crate::crc32c::crc32c;
use crate::golay::{difference, lemma_nearest, near, nearest};
use crate::golay_code::{codeword, ones};
use crate::model::DecodeError;
use crate::reed_solomon::{is_shortened_encoding, law_clean_codeword};

verus! {

/// How many of the 24 header bits, the first byte's first, are not those of the codeword
/// of `d`.
pub open spec fn header_damage(packet: Seq<u8>, d: u32) -> int {
    ones(((65536 * packet[0] + 256 * packet[1] + packet[2]) as u32 & 0xff_ffff) ^ codeword(d))
}

/// The header of the packet stands for the twelve bits `d`, with at most three bit errors.
/// The low eight of them are the number of bytes that follow.
pub open spec fn announces(packet: Seq<u8>, d: u32) -> bool {
    &&& packet.len() >= 3
    &&& d < 0x1000
    &&& header_damage(packet, d) <= 3
}

proof fn lemma_announced(packet: Seq<u8>, d: u32)
    requires
        announces(packet, d),
    ensures
        nearest(header_word(packet)) == Some(d),
        header_length(packet) == d % 256,
        ones(difference(header_word(packet), d)) >= 0,
        packet.len() >= 3 + d % 256 ==> field_of(packet) == packet.subrange(
            3,
            3 + d as int % 256,
        ),
{
    assert(near(header_word(packet), d));
    lemma_nearest(header_word(packet), d);
    assert(ones(difference(header_word(packet), d)) >= 0) by {
        reveal(ones);
    }
}

/// Without Reed-Solomon the frame is the bytes that the header announces, descrambled if
/// the packet is scrambled. What stands behind them does not matter.
pub proof fn law_announced_bytes_are_read(
    packet: Seq<u8>,
    d: u32,
    scrambler: bool,
    res: Result<Ax100Frame, DecodeError>,
)
    requires
        announces(packet, d),
        0 < d % 256,
        3 + d % 256 <= packet.len() <= 258,
        asm_golay_result(packet, scrambler, false, res),
    ensures
        res is Ok,
        !scrambler ==> res->Ok_0.payload@ == packet.subrange(3, 3 + d as int % 256),
        scrambler ==> res->Ok_0.payload@ == randomized(packet.subrange(3, 3 + d as int % 256)),
        res->Ok_0.mode == Ax100Mode::AsmGolay,
        res->Ok_0.corrected_errors == 0,
        res->Ok_0.crc_ok is None,
        res->Ok_0.flags.scrambler == scrambler,
        !res->Ok_0.flags.viterbi,
        !res->Ok_0.flags.reed_solomon,
        res->Ok_0.flags.golay_errors == header_damage(packet, d),
{
    lemma_announced(packet, d);
}

/// With Reed-Solomon an undamaged codeword behind the header gives its message, also
/// where more bytes follow.
pub proof fn law_announced_codeword_is_read(
    payload: Seq<u8>,
    word: Seq<u8>,
    packet: Seq<u8>,
    d: u32,
    scrambler: bool,
    res: Result<Ax100Frame, DecodeError>,
)
    requires
        0 < payload.len() <= 223,
        is_shortened_encoding(payload, 1, word),
        announces(packet, d),
        d % 256 == word.len(),
        3 + word.len() <= packet.len() <= 258,
        scrambler ==> randomized(packet.subrange(3, 3 + word.len() as int)) == word,
        !scrambler ==> packet.subrange(3, 3 + word.len() as int) == word,
        asm_golay_result(packet, scrambler, true, res),
    ensures
        res is Ok,
        res->Ok_0.payload@ == payload,
        res->Ok_0.mode == Ax100Mode::AsmGolay,
        res->Ok_0.corrected_errors == 0,
        res->Ok_0.crc_ok is None,
        res->Ok_0.flags.scrambler == scrambler,
        !res->Ok_0.flags.viterbi,
        res->Ok_0.flags.reed_solomon,
{
    lemma_announced(packet, d);
    law_clean_codeword(payload, 1, word, Seq::empty());
}

/// In Reed-Solomon mode the first byte counts itself and the codeword behind it; bytes
/// that follow do not matter.
pub proof fn law_counted_codeword_is_read(
    payload: Seq<u8>,
    word: Seq<u8>,
    packet: Seq<u8>,
    res: Result<Ax100Frame, DecodeError>,
)
    requires
        0 < payload.len() <= 222,
        is_shortened_encoding(payload, 1, word),
        1 + word.len() <= packet.len() <= 256,
        packet[0] == 1 + word.len(),
        packet.subrange(1, 1 + word.len() as int) == word,
        rs_mode_result(packet, res),
    ensures
        res is Ok,
        res->Ok_0.payload@ == payload,
        res->Ok_0.mode == Ax100Mode::ReedSolomon,
        res->Ok_0.corrected_errors == 0,
        res->Ok_0.crc_ok is None,
        !res->Ok_0.flags.viterbi,
        !res->Ok_0.flags.scrambler,
        !res->Ok_0.flags.reed_solomon,
        res->Ok_0.flags.golay_errors == 0,
{
    law_clean_codeword(payload, 1, word, Seq::empty());
}

/// Reed-Solomon mode refuses packets that are too long, that are shorter than the length
/// byte and 32 bytes of parity, that count no more than those, or that count more bytes
/// than they have. The error carries the number that was too small.
pub proof fn law_short_counted_packets_are_refused(
    packet: Seq<u8>,
    res: Result<Ax100Frame, DecodeError>,
)
    requires
        rs_mode_result(packet, res),
    ensures
        packet.len() < 33 ==> (res matches Err(DecodeError::TooShort(n)) && n == packet.len()),
        33 <= packet.len() <= 256 && packet[0] <= 33 ==> (res matches Err(
            DecodeError::TooShort(n),
        ) && n == packet[0]),
        33 <= packet.len() <= 256 && packet[0] > 33 && packet[0] > packet.len() ==> (res matches Err(
            DecodeError::TooShort(n),
        ) && n == packet.len()),
        packet.len() > 256 ==> res matches Err(DecodeError::InvalidEncoding(_)),
{
}

/// What is owed where the header of a packet cannot be used: without three bytes, with more
/// than the longest packet has, or with a header that is no codeword within three bits.
pub open spec fn refused_header(packet: Seq<u8>, res: Result<Ax100Frame, DecodeError>) -> bool {
    &&& packet.len() < 3 ==> (res matches Err(DecodeError::TooShort(k)) && k == packet.len())
    &&& packet.len() > 258 ==> (res matches Err(DecodeError::InvalidEncoding(_)))
    &&& 3 <= packet.len() <= 258 && (forall|d: u32| !#[trigger] announces(packet, d))
        ==> (res matches Err(DecodeError::InvalidEncoding(_)))
}

/// What is owed where the header announces `least` bytes or fewer, or more than follow.
pub open spec fn refused_length(
    packet: Seq<u8>,
    d: u32,
    least: int,
    res: Result<Ax100Frame, DecodeError>,
) -> bool {
    announces(packet, d) && packet.len() <= 258 ==> {
        &&& d % 256 <= least ==> (res matches Err(DecodeError::TooShort(k)) && k == d % 256)
        &&& d % 256 > least && packet.len() < 3 + d % 256 ==> (res matches Err(
            DecodeError::TooShort(k),
        ) && k == packet.len())
    }
}

proof fn lemma_no_header(packet: Seq<u8>)
    requires
        3 <= packet.len(),
        forall|d: u32| !#[trigger] announces(packet, d),
    ensures
        nearest(header_word(packet)) is None,
{
    if exists|d: u32| near(header_word(packet), d) {
        let d = choose|d: u32| near(header_word(packet), d);
        assert(announces(packet, d));
    }
}

/// Packets of ASM+Golay mode that are refused before anything is decoded: those without a
/// usable header or without the bytes that it announces, and with Reed-Solomon those
/// with no more than the parity. The error carries the number that was too small.
pub proof fn law_short_packets_are_refused(
    packet: Seq<u8>,
    d: u32,
    scrambler: bool,
    protected: bool,
    res: Result<Ax100Frame, DecodeError>,
)
    requires
        asm_golay_result(packet, scrambler, protected, res),
    ensures
        refused_header(packet, res),
        refused_length(packet, d, 0, res),
        protected && announces(packet, d) && 0 < d % 256 <= 32 && 3 + d % 256 <= packet.len() <= 258
            ==> (res matches Err(DecodeError::TooShort(k)) && k == d % 256),
{
    if announces(packet, d) {
        lemma_announced(packet, d);
    }
    if 3 <= packet.len() && (forall|e: u32| !#[trigger] announces(packet, e)) {
        lemma_no_header(packet);
    }
}

/// The same of soft packets, which are refused too if there is not one sample per bit.
pub proof fn law_short_soft_packets_are_refused(
    packet: Seq<u8>,
    soft: Seq<u32>,
    erasure_count: nat,
    d: u32,
    res: Result<Ax100Frame, DecodeError>,
)
    requires
        asm_golay_soft_result(packet, soft, erasure_count, res),
    ensures
        refused_header(packet, res),
        3 <= packet.len() <= 258 && soft.len() != 8 * packet.len() ==> res matches Err(
            DecodeError::InvalidEncoding(_),
        ),
        soft.len() == 8 * packet.len() ==> refused_length(packet, d, 0, res),
        soft.len() == 8 * packet.len() && announces(packet, d) && 0 < d % 256 <= 32 && 3 + d % 256
            <= packet.len() <= 258 ==> (res matches Err(DecodeError::TooShort(k)) && k == d % 256),
{
    if announces(packet, d) {
        lemma_announced(packet, d);
    }
    if 3 <= packet.len() && (forall|e: u32| !#[trigger] announces(packet, e)) {
        lemma_no_header(packet);
    }
}

/// In the CRC mode the four CRC bytes and the 32 behind them are needed as well. The frame
/// is what comes before them, and its CRC is compared with those four bytes, of which the
/// first weighs most.
pub proof fn law_crc_field_is_read(packet: Seq<u8>, d: u32, res: Result<Ax100Frame, DecodeError>)
    requires
        asm_golay_crc_result(packet, res),
    ensures
        refused_header(packet, res),
        refused_length(packet, d, 36, res),
        announces(packet, d) && d % 256 > 36 && 3 + d % 256 <= packet.len() <= 258 ==> {
            let field = randomized(packet.subrange(3, 3 + d as int % 256));
            let n = field.len() - 36;
            &&& res is Ok
            &&& res->Ok_0.payload@ == field.take(n)
            &&& res->Ok_0.crc_ok == Some(
                crc32c(field.take(n)) == 16777216 * field[n] + 65536 * field[n + 1] + 256 * field[n
                    + 2] + field[n + 3],
            )
            &&& res->Ok_0.mode == Ax100Mode::AsmGolayCrc
            &&& res->Ok_0.corrected_errors == 0
            &&& res->Ok_0.flags.scrambler
            &&& !res->Ok_0.flags.viterbi
            &&& !res->Ok_0.flags.reed_solomon
            &&& res->Ok_0.flags.golay_errors == header_damage(packet, d)
        },
{
    if announces(packet, d) {
        lemma_announced(packet, d);
    }
    if 3 <= packet.len() && (forall|e: u32| !#[trigger] announces(packet, e)) {
        lemma_no_header(packet);
    }
}

} // verus!
