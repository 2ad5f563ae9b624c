//! How much of what was received each decoder takes, and what it refuses.
use vstd::prelude::*;
use crate::ao40::{
    channel_result, post_viterbi_bits_result, post_viterbi_result, soft_channel_result,
    syncword_text, Ao40Frame,
};
use crate::ccsds_concat::{outer_result, CcsdsConcatFrame};
use crate::fec::{hard_result, message_result, soft_result};
use crate::geoscan::{crc16, geoscan_result, GeoscanFrame};
use crate::model::DecodeError;
use crate::pn9::whitened;
use crate::reed_solomon::{decoded_message, decodes, shortened_result, RsDecoded};
use crate::viterbi::{decoded, hard_cost, has_pairs, lemma_decoded_len, soft_cost};

verus! {

/// The error says that so many units were too few.
pub open spec fn is_too_short<T>(res: Result<T, DecodeError>, units: int) -> bool {
    res matches Err(DecodeError::TooShort(n)) && n == units
}

/// A Geoscan frame is its first 64 bytes without the whitening, and two bytes of CRC, of
/// which the first weighs more. The frame is given out whether or not its CRC is right,
/// together with both CRCs. Anything shorter is refused, and anything longer cut off.
pub proof fn law_geoscan_frame_is_read(raw: Seq<u8>, res: Result<GeoscanFrame, DecodeError>)
    requires
        geoscan_result(raw, res),
        raw.len() <= usize::MAX,
    ensures
        raw.len() < 66 ==> is_too_short(res, raw.len() as int),
        raw.len() >= 66 ==> {
            let plain = whitened(0x1FF, raw.take(66));
            &&& res is Ok
            &&& res->Ok_0.payload@.len() == 64
            &&& forall|i: int| 0 <= i < 64 ==> #[trigger] res->Ok_0.payload@[i] == plain[i]
            &&& res->Ok_0.crc_received == 256 * plain[64] + plain[65]
            &&& res->Ok_0.crc_expected == crc16(res->Ok_0.payload@)
            &&& res->Ok_0.crc_ok <==> res->Ok_0.crc_received == res->Ok_0.crc_expected
        },
{
}

/// A block of 256 bytes and 64 parity bytes is coded to 5132 channel bits, which give
/// 2566 bits and fill 321 bytes with their tail. What is shorter is refused, and the
/// error says how many whole bytes there were.
pub proof fn law_short_ao40_blocks_are_refused(
    bytes: Seq<u8>,
    bits: Seq<u8>,
    channel: Seq<u8>,
    symbols: Seq<i8>,
    a: Result<Ao40Frame, DecodeError>,
    b: Result<Ao40Frame, DecodeError>,
    c: Result<Ao40Frame, DecodeError>,
    d: Result<Ao40Frame, DecodeError>,
)
    requires
        post_viterbi_result(bytes, a),
        post_viterbi_bits_result(bits, b),
        channel_result(channel, c),
        soft_channel_result(symbols, d),
    ensures
        bytes.len() < 321 ==> is_too_short(a, bytes.len() as int),
        bytes.len() >= 321 ==> !(a matches Err(DecodeError::TooShort(_))),
        bits.len() < 2566 ==> is_too_short(b, bits.len() as int / 8),
        bits.len() >= 2566 ==> !(b matches Err(DecodeError::TooShort(_))),
        channel.len() < 5132 ==> is_too_short(c, channel.len() as int / 8),
        channel.len() >= 5132 ==> !(c matches Err(DecodeError::TooShort(_))),
        symbols.len() < 5132 ==> is_too_short(d, symbols.len() as int / 8),
        symbols.len() >= 5132 ==> !(d matches Err(DecodeError::TooShort(_))),
{
    lemma_decoded_len(hard_cost(channel.take(5132)), 2566);
    lemma_decoded_len(soft_cost(symbols.take(5132)), 2566);
}

/// Only the first channel bits of a block count, so what follows them does not matter.
pub proof fn law_ao40_blocks_end(
    bits: Seq<u8>,
    more: Seq<u8>,
    res: Result<Ao40Frame, DecodeError>,
)
    requires
        bits.len() == 5132,
    ensures
        channel_result(bits, res) <==> channel_result(bits + more, res),
{
    assert((bits + more).take(5132) =~= bits.take(5132));
}

/// The outer decoder gives frames of the size asked for, which has to leave room for
/// 32 parity bytes in a codeword.
pub proof fn law_concatenated_frame_size(
    bits: Seq<u8>,
    frame_size: nat,
    differential: bool,
    res: Result<CcsdsConcatFrame, DecodeError>,
)
    requires
        bits.len() == 2040,
        outer_result(bits, frame_size, differential, res),
    ensures
        frame_size > 223 ==> is_too_short(res, 255),
        frame_size <= 223 ==> {
            ||| res matches Err(DecodeError::CrcMismatch)
            ||| res is Ok && res->Ok_0.payload@.len() == frame_size
        },
{
}

/// A Reed-Solomon word is made of whole paths with some data and at most 255 symbols in
/// each. Other words are refused, and so are erasures outside the word.
pub proof fn law_misfit_words_are_refused(
    word: Seq<u8>,
    interleave: nat,
    erasures: Seq<usize>,
    res: Result<RsDecoded, DecodeError>,
)
    requires
        shortened_result(word, interleave, erasures, res),
    ensures
        interleave == 0 ==> res matches Err(DecodeError::InvalidEncoding(_)),
        interleave > 0 && word.len() % interleave != 0 ==> res matches Err(
            DecodeError::InvalidEncoding(_),
        ),
        interleave > 0 && word.len() % interleave == 0 && !(33 <= word.len() / interleave <= 255)
            ==> is_too_short(res, word.len() as int),
        interleave > 0 && word.len() % interleave == 0 && 33 <= word.len() / interleave <= 255 ==> {
            if exists|k: int| 0 <= k < erasures.len() && #[trigger] erasures[k] >= word.len() {
                res matches Err(DecodeError::InvalidEncoding(_))
            } else {
                ||| res matches Err(DecodeError::CrcMismatch)
                ||| res is Ok && res->Ok_0.message@.len() == word.len() - 32 * interleave
            }
        },
{
    if interleave > 0 && word.len() % interleave == 0 && 33 <= word.len() / interleave <= 255 {
        vstd::arithmetic::div_mod::lemma_fundamental_div_mod(word.len() as int, interleave as int);
        assert(word.len() >= 32 * interleave) by (nonlinear_arith)
            requires
                word.len() == interleave * (word.len() / interleave),
                word.len() / interleave >= 33,
        ;
    }
}

/// The convolutional decoder takes whole pairs of symbols, at least one.
pub proof fn law_symbols_come_in_pairs(len: nat)
    ensures
        has_pairs(len) <==> exists|k: nat| k > 0 && #[trigger] (2 * k) == len,
{
    if has_pairs(len) {
        assert(2 * (len / 2) == len);
    }
}

/// The syncword of AO-40 is 65 bits of a shift register sequence: seven ones, and then each
/// bit is the sum of the fourth and the seventh before it.
pub proof fn law_syncword_recurs(i: int)
    requires
        0 <= i < 65,
    ensures
        syncword_text().len() == 65,
        syncword_text()[i] == '0' || syncword_text()[i] == '1',
        i < 7 ==> syncword_text()[i] == '1',
        i >= 7 ==> (syncword_text()[i] == '1' <==> syncword_text()[i - 4] != syncword_text()[i
            - 7]),
{
    reveal_strlit("11111110000111011110010110010010000001000100110001011101011011000");
}

/// Hard and soft symbols in pairs are decoded to a bit for each pair; others are refused.
pub proof fn law_symbols_are_decoded(
    hard: Seq<u8>,
    soft: Seq<i8>,
    a: Result<Vec<u8>, DecodeError>,
    b: Result<Vec<u8>, DecodeError>,
)
    requires
        hard_result(hard, a),
        soft_result(soft, b),
    ensures
        hard.len() > 0 && hard.len() % 2 == 0 ==> a is Ok && a->Ok_0@ == decoded(
            hard_cost(hard),
            hard.len() / 2,
        ),
        hard.len() == 0 || hard.len() % 2 == 1 ==> a matches Err(DecodeError::InvalidEncoding(_)),
        soft.len() > 0 && soft.len() % 2 == 0 ==> b is Ok && b->Ok_0@ == decoded(
            soft_cost(soft),
            soft.len() / 2,
        ),
        soft.len() == 0 || soft.len() % 2 == 1 ==> b matches Err(DecodeError::InvalidEncoding(_)),
{
}

/// A Reed-Solomon word that decodes gives its message, and only such a word does.
pub proof fn law_words_give_messages(
    data: Seq<u8>,
    interleave: nat,
    res: Result<Vec<u8>, DecodeError>,
)
    requires
        message_result(data, interleave, res),
    ensures
        decodes(data, interleave, Seq::empty()) <==> res is Ok,
        res is Ok ==> res->Ok_0@ == decoded_message(data, interleave, Seq::empty()),
        interleave > 0 && data.len() % interleave == 0 && 33 <= data.len() / interleave <= 255
            && res is Err ==> res matches Err(DecodeError::CrcMismatch),
{
}

} // verus!
