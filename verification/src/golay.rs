//! The extended binary Golay code (24, 12): 12 data bits in the low half of a
//! word, 12 check bits above them. Up to three bit errors are corrected.
use vstd::prelude::*;
use crate::golay_code::{
    codeword, lemma_matrix, lemma_ones, lemma_ones_add, lemma_powers, lemma_square_linear,
    lemma_syndrome_linear, lemma_zero_syndrome, ones, parity, row, square_product, syndrome_of,
};
use crate::model::{invalid_encoding, DecodeError};

verus! {

/// Result of decoding a Golay(24, 12) word.
#[derive(Debug, Clone, Copy, PartialEq, Eq, Structural)]
pub struct GolayWord {
    pub data: u16,
    pub corrected_errors: u8,
}

/// The rows of the square part of the parity-check matrix.
pub const ROWS: [u32; 12] = [0x8ed, 0x1db, 0x3b5, 0x769, 0xed1, 0xda3, 0xb47, 0x68f, 0xd1d, 0xa3b, 0x477, 0xffe];

/// The number of set bits among the low 24.
fn ones_of(x: u32) -> (r: u32)
    ensures
        r == ones(x),
        r <= 24,
{
    let t0: u32 = x & 1;
    let t1: u32 = (x >> 1u32) & 1;
    let t2: u32 = (x >> 2u32) & 1;
    let t3: u32 = (x >> 3u32) & 1;
    let t4: u32 = (x >> 4u32) & 1;
    let t5: u32 = (x >> 5u32) & 1;
    let t6: u32 = (x >> 6u32) & 1;
    let t7: u32 = (x >> 7u32) & 1;
    let t8: u32 = (x >> 8u32) & 1;
    let t9: u32 = (x >> 9u32) & 1;
    let t10: u32 = (x >> 10u32) & 1;
    let t11: u32 = (x >> 11u32) & 1;
    let t12: u32 = (x >> 12u32) & 1;
    let t13: u32 = (x >> 13u32) & 1;
    let t14: u32 = (x >> 14u32) & 1;
    let t15: u32 = (x >> 15u32) & 1;
    let t16: u32 = (x >> 16u32) & 1;
    let t17: u32 = (x >> 17u32) & 1;
    let t18: u32 = (x >> 18u32) & 1;
    let t19: u32 = (x >> 19u32) & 1;
    let t20: u32 = (x >> 20u32) & 1;
    let t21: u32 = (x >> 21u32) & 1;
    let t22: u32 = (x >> 22u32) & 1;
    let t23: u32 = (x >> 23u32) & 1;
    proof {
        reveal(ones);
    }
    assert((x & 1) <= 1 && ((x >> 1u32) & 1) <= 1 && ((x >> 2u32) & 1) <= 1 && ((x >> 3u32) & 1) <= 1 && ((x >> 4u32) & 1) <= 1 && ((x >> 5u32) & 1) <= 1 && ((x >> 6u32) & 1) <= 1 && ((x >> 7u32) & 1) <= 1 && ((x >> 8u32) & 1) <= 1 && ((x >> 9u32) & 1) <= 1 && ((x >> 10u32) & 1) <= 1 && ((x >> 11u32) & 1) <= 1 && ((x >> 12u32) & 1) <= 1 && ((x >> 13u32) & 1) <= 1 && ((x >> 14u32) & 1) <= 1 && ((x >> 15u32) & 1) <= 1 && ((x >> 16u32) & 1) <= 1 && ((x >> 17u32) & 1) <= 1 && ((x >> 18u32) & 1) <= 1 && ((x >> 19u32) & 1) <= 1 && ((x >> 20u32) & 1) <= 1 && ((x >> 21u32) & 1) <= 1 && ((x >> 22u32) & 1) <= 1 && ((x >> 23u32) & 1) <= 1) by (bit_vector);
    t0 + t1 + t2 + t3 + t4 + t5 + t6 + t7 + t8 + t9 + t10 + t11 + t12 + t13 + t14 + t15 + t16 + t17 + t18 + t19 + t20 + t21 + t22 + t23
}

/// The XOR of all bits.
fn parity_of(x: u32) -> (r: u32)
    ensures
        r == parity(x),
{
    let a: u32 = x ^ (x >> 16u32);
    let b: u32 = a ^ (a >> 8u32);
    let c: u32 = b ^ (b >> 4u32);
    let d: u32 = c ^ (c >> 2u32);
    (d ^ (d >> 1u32)) & 1
}

fn syndrome(word: u32) -> (r: u32)
    ensures
        r == syndrome_of(word),
{
    proof {
        reveal(syndrome_of);
    }
    (parity_of(0x8008ed & word) << 11u32)
        | (parity_of(0x4001db & word) << 10u32)
        | (parity_of(0x2003b5 & word) << 9u32)
        | (parity_of(0x100769 & word) << 8u32)
        | (parity_of(0x080ed1 & word) << 7u32)
        | (parity_of(0x040da3 & word) << 6u32)
        | (parity_of(0x020b47 & word) << 5u32)
        | (parity_of(0x01068f & word) << 4u32)
        | (parity_of(0x008d1d & word) << 3u32)
        | (parity_of(0x004a3b & word) << 2u32)
        | (parity_of(0x002477 & word) << 1u32)
        | parity_of(0x001ffe & word)
}

fn q_syndrome(word: u32) -> (r: u32)
    ensures
        r == square_product(word),
{
    proof {
        reveal(square_product);
    }
    (parity_of(0x0008ed & word) << 11u32)
        | (parity_of(0x0001db & word) << 10u32)
        | (parity_of(0x0003b5 & word) << 9u32)
        | (parity_of(0x000769 & word) << 8u32)
        | (parity_of(0x000ed1 & word) << 7u32)
        | (parity_of(0x000da3 & word) << 6u32)
        | (parity_of(0x000b47 & word) << 5u32)
        | (parity_of(0x00068f & word) << 4u32)
        | (parity_of(0x000d1d & word) << 3u32)
        | (parity_of(0x000a3b & word) << 2u32)
        | (parity_of(0x000477 & word) << 1u32)
        | parity_of(0x000ffe & word)
}

/// The codeword of the low 12 bits of `data`.
pub fn encode(data: u16) -> (word: u32)
    ensures
        word == codeword(data as u32),
{
    proof {
        reveal(codeword);
    }
    let low: u32 = data as u32 & 0xfff;
    (q_syndrome(low) << 12u32) | low
}

/// The bits in which a word differs from the codeword of `data`.
pub open spec fn difference(word: u32, data: u32) -> u32 {
    (word & 0xff_ffff) ^ codeword(data)
}

/// An error pattern that explains the syndrome leads to a codeword.
proof fn lemma_corrected(word: u32, error: u32)
    requires
        word < 0x100_0000,
        error < 0x100_0000,
        syndrome_of(error) == syndrome_of(word),
    ensures
        difference(word, (word ^ error) & 0xfff) == error,
        (word ^ error) & 0xfff < 0x1000,
{
    lemma_syndrome_linear(word, error);
    lemma_ones(word ^ error, 0, word, error);
    lemma_ones(word, 0, syndrome_of(word), 0);
    lemma_zero_syndrome(word ^ error);
    lemma_ones(word, 0, 0, 0);
}

fn decoded_word(word: u32, error: u32) -> (r: GolayWord)
    requires
        word < 0x100_0000,
        error < 0x100_0000,
        syndrome_of(error) == syndrome_of(word),
    ensures
        r.data < 0x1000,
        difference(word, r.data as u32) == error,
        r.corrected_errors == ones(error),
{
    proof {
        lemma_corrected(word, error);
    }
    GolayWord { data: ((word ^ error) & 0xfff) as u16, corrected_errors: ones_of(error) as u8 }
}

proof fn lemma_single_bit(m: u32) -> (i: u32)
    requires
        m < 0x1000,
        ones(m) == 1,
    ensures
        i < 12,
        m == 1u32 << (11 - i) as u32,
{
    lemma_ones(m, 0, 0, 0);
    lemma_powers();
    if m == 1 {
        11
    } else if m == 2 {
        10
    } else if m == 4 {
        9
    } else if m == 8 {
        8
    } else if m == 16 {
        7
    } else if m == 32 {
        6
    } else if m == 64 {
        5
    } else if m == 128 {
        4
    } else if m == 256 {
        3
    } else if m == 512 {
        2
    } else if m == 1024 {
        1
    } else {
        0
    }
}

/// When no pattern that the decoder tries is light, no codeword is near.
proof fn lemma_nothing_near(word: u32, d: u32)
    requires
        word < 0x100_0000,
        d < 0x1000,
        ones(syndrome_of(word)) > 3,
        forall|i: u32| i < 12 ==> ones(syndrome_of(word) ^ #[trigger] row(i)) > 2,
        ones(square_product(syndrome_of(word))) > 3,
        forall|i: u32|
            i < 12 ==> ones(square_product(syndrome_of(word)) ^ #[trigger] row(i)) > 2,
    ensures
        ones(difference(word, d)) > 3,
{
    let s = syndrome_of(word);
    let q = square_product(s);
    let e = word ^ codeword(d);
    lemma_ones(word, 0, 0, 0);
    if ones(e) <= 3 {
        lemma_matrix(d, 0);
        lemma_ones(0, 0, word, codeword(d));
        let e1 = e >> 12u32;
        let e2 = e & 0xfff;
        lemma_ones(e1, 0, e, 0);
        lemma_ones(e2, 0, e1, 0);
        lemma_syndrome_linear(e, codeword(d));
        lemma_ones(0, 0, syndrome_of(e), 0);
        assert(s == syndrome_of(e));
        lemma_syndrome_linear(e1 << 12u32, e2);
        lemma_matrix(e1, 0);
        lemma_matrix(e2, 0);
        let b2 = square_product(e2);
        assert(s == e1 ^ b2);
        lemma_square_linear(e1, b2);
        assert(q == square_product(e1) ^ e2);
        lemma_ones(0, 0, e2, 0);
        if ones(e2) == 0 {
            lemma_small_zero(e2);
            lemma_matrix(0, 0);
            lemma_square_linear(0, 0);
            lemma_ones(0, 0, 0, 0);
            lemma_ones(0, 0, e1, 0);
            lemma_ones(0, 0, square_product(0), 0);
            assert(b2 == 0);
            assert(s == e1);
        } else if ones(e2) == 1 {
            let i = lemma_single_bit(e2);
            lemma_matrix(0, i);
            lemma_ones(0, 0, e1, row(i));
            assert(s ^ row(i) == e1);
        } else {
            if ones(e1) == 0 {
                lemma_small_zero(e1);
                lemma_square_linear(0, 0);
                lemma_ones(0, 0, square_product(0), 0);
                lemma_ones(0, 0, 0, e2);
                lemma_ones(0, 0, e2, 0);
                assert(q == e2);
            } else {
                let i = lemma_single_bit(e1);
                lemma_matrix(0, i);
                lemma_ones(0, 0, row(i), e2);
                lemma_ones(0, 0, e2, row(i));
                assert(q ^ row(i) == e2);
            }
        }
    }
}

proof fn lemma_small_zero(x: u32)
    requires
        x < 0x1000,
        ones(x) == 0,
    ensures
        x == 0,
{
    lemma_ones(0, 0, x, 0);
}

/// Decode the low 24 bits of `word`: the data of the codeword within three bits,
/// and how many bits were wrong.
pub fn decode(word: u32) -> (res: Result<GolayWord, DecodeError>)
    ensures
        match res {
            Ok(g) => {
                &&& g.data < 0x1000
                &&& ones(difference(word, g.data as u32)) == g.corrected_errors
                &&& g.corrected_errors <= 3
            },
            Err(err) => {
                &&& invalid_encoding(err, "uncorrectable Golay(24,12) header"@)
                &&& forall|d: u32| d < 0x1000 ==> ones(#[trigger] difference(word, d)) > 3
            },
        },
{
    let w: u32 = word & 0xff_ffff;
    proof {
        lemma_ones(word, 0, 0, 0);
        lemma_ones(w, 0, 0, 0);
    }
    let s: u32 = syndrome(w);
    proof {
        lemma_syndrome_linear(w, 0);
        lemma_matrix(s, 0);
        lemma_ones(s, 0, s, 0);
    }
    if ones_of(s) <= 3 {
        return Ok(decoded_word(w, s << 12u32));
    }
    let mut i: usize = 0;
    while i < 12
        invariant
            i <= 12,
            w == word & 0xff_ffff,
            w < 0x100_0000,
            w & 0xff_ffff == w,
            s == syndrome_of(w),
            s < 0x1000,
            forall|k: u32| k < i ==> ones(s ^ #[trigger] row(k)) > 2,
        decreases 12 - i,
    {
        let r: u32 = ROWS[i];
        assert(r == row(i as u32)) by {
            reveal(row);
        }
        let modified: u32 = s ^ r;
        if ones_of(modified) <= 2 {
            let j: u32 = 11 - i as u32;
            proof {
                lemma_matrix(0, i as u32);
                lemma_ones(0, 0, s, r);
                lemma_ones(modified, j, s, r);
                lemma_matrix(modified, i as u32);
                lemma_ones(modified, j, 0, 0);
                lemma_syndrome_linear(modified << 12u32, 1u32 << j);
                lemma_matrix(1u32 << j, i as u32);
            }
            let error: u32 = (modified << 12u32) | (1u32 << j);
            return Ok(decoded_word(w, error));
        }
        i = i + 1;
    }
    let q: u32 = q_syndrome(s);
    proof {
        lemma_matrix(s, 0);
        lemma_matrix(q, 0);
        lemma_ones(0, 0, q, 0);
    }
    if ones_of(q) <= 3 {
        return Ok(decoded_word(w, q));
    }
    i = 0;
    while i < 12
        invariant
            i <= 12,
            w == word & 0xff_ffff,
            w < 0x100_0000,
            w & 0xff_ffff == w,
            s == syndrome_of(w),
            s < 0x1000,
            q == square_product(s),
            q < 0x1000,
            forall|k: u32| k < i ==> ones(q ^ #[trigger] row(k)) > 2,
        decreases 12 - i,
    {
        let r: u32 = ROWS[i];
        assert(r == row(i as u32)) by {
            reveal(row);
        }
        let modified: u32 = q ^ r;
        if ones_of(modified) <= 2 {
            let j: u32 = 11 - i as u32;
            proof {
                lemma_matrix(0, i as u32);
                lemma_ones(0, 0, q, r);
                lemma_ones(modified, j, 0, 0);
                lemma_matrix(modified, i as u32);
                lemma_matrix(1u32 << j, i as u32);
                lemma_syndrome_linear((1u32 << j) << 12u32, modified);
                lemma_square_linear(q, r);
                lemma_matrix(s, i as u32);
                lemma_ones(0, 0, 1u32 << j, s);
                lemma_ones(0, 0, s, 1u32 << j);
            }
            let error: u32 = (1u32 << (12 + j)) | modified;
            return Ok(decoded_word(w, error));
        }
        i = i + 1;
    }
    proof {
        assert forall|d: u32| d < 0x1000 implies ones(#[trigger] difference(word, d)) > 3 by {
            lemma_nothing_near(w, d);
        }
    }
    Err(DecodeError::InvalidEncoding("uncorrectable Golay(24,12) header".to_string()))
}

/// At most one codeword lies within three bits of a word, so the decoded data
/// and count are determined: three bit errors or fewer are always undone.
pub proof fn law_three_errors_are_corrected(word: u32, a: u32, b: u32)
    requires
        a < 0x1000,
        b < 0x1000,
        ones(difference(word, a)) <= 3,
        ones(difference(word, b)) <= 3,
    ensures
        a == b,
{
    let w = word & 0xff_ffff;
    let ca = codeword(a);
    let cb = codeword(b);
    lemma_ones(word, 0, 0, 0);
    lemma_matrix(a, 0);
    lemma_matrix(b, 0);
    lemma_ones(0, 0, w, ca);
    lemma_ones(0, 0, w, cb);
    lemma_ones_add(w ^ ca, w ^ cb);
    lemma_ones(w, 0, ca, cb);
    lemma_ones(0, 0, a, b);
    let d = a ^ b;
    lemma_square_linear(a, b);
    lemma_matrix(d, 0);
}

/// The codeword of `d` lies within three bits of the word.
pub open spec fn near(word: u32, d: u32) -> bool {
    d < 0x1000 && ones(difference(word, d)) <= 3
}

/// The data of the codeword within three bits of the word, if there is one.
pub open spec fn nearest(word: u32) -> Option<u32> {
    if exists|d: u32| near(word, d) {
        Some(choose|d: u32| near(word, d))
    } else {
        None
    }
}

/// What the decoder returned, in terms of the nearest codeword.
pub proof fn lemma_nearest(word: u32, d: u32)
    requires
        near(word, d),
    ensures
        nearest(word) == Some(d),
{
    law_three_errors_are_corrected(word, nearest(word).unwrap(), d);
}

/// A codeword is its own nearest.
pub proof fn law_clean_word(d: u32)
    requires
        d < 0x1000,
    ensures
        nearest(codeword(d)) == Some(d),
        ones(difference(codeword(d), d)) == 0,
{
    lemma_matrix(d, 0);
    lemma_ones(codeword(d), 0, codeword(d), 0);
    lemma_zero_ones();
    lemma_nearest(codeword(d), d);
}

proof fn lemma_zero_ones()
    ensures
        ones(0) == 0,
{
    lemma_ones(0, 0, 0, 0);
}

} // verus!
