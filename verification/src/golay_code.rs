//! The extended binary Golay code (24, 12) as a linear code over bits.
use vstd::prelude::*;

verus! {

/// The number of set bits among the low 24.
#[verifier::opaque]
pub open spec fn ones(x: u32) -> int {
    (x & 1)
        + ((x >> 1u32) & 1)
        + ((x >> 2u32) & 1)
        + ((x >> 3u32) & 1)
        + ((x >> 4u32) & 1)
        + ((x >> 5u32) & 1)
        + ((x >> 6u32) & 1)
        + ((x >> 7u32) & 1)
        + ((x >> 8u32) & 1)
        + ((x >> 9u32) & 1)
        + ((x >> 10u32) & 1)
        + ((x >> 11u32) & 1)
        + ((x >> 12u32) & 1)
        + ((x >> 13u32) & 1)
        + ((x >> 14u32) & 1)
        + ((x >> 15u32) & 1)
        + ((x >> 16u32) & 1)
        + ((x >> 17u32) & 1)
        + ((x >> 18u32) & 1)
        + ((x >> 19u32) & 1)
        + ((x >> 20u32) & 1)
        + ((x >> 21u32) & 1)
        + ((x >> 22u32) & 1)
        + ((x >> 23u32) & 1)
}

/// The XOR of all 32 bits.
pub open spec fn parity(x: u32) -> u32 {
    let a = x ^ (x >> 16u32);
    let b = a ^ (a >> 8u32);
    let c = b ^ (b >> 4u32);
    let d = c ^ (c >> 2u32);
    (d ^ (d >> 1u32)) & 1
}

/// The check bits that the parity-check matrix gives for a 24-bit word.
#[verifier::opaque]
pub open spec fn syndrome_of(word: u32) -> u32 {
    (parity(0x8008ed & word) << 11u32)
        | (parity(0x4001db & word) << 10u32)
        | (parity(0x2003b5 & word) << 9u32)
        | (parity(0x100769 & word) << 8u32)
        | (parity(0x080ed1 & word) << 7u32)
        | (parity(0x040da3 & word) << 6u32)
        | (parity(0x020b47 & word) << 5u32)
        | (parity(0x01068f & word) << 4u32)
        | (parity(0x008d1d & word) << 3u32)
        | (parity(0x004a3b & word) << 2u32)
        | (parity(0x002477 & word) << 1u32)
        | parity(0x001ffe & word)
}

/// The product of the square part of the matrix with a 12-bit vector.
#[verifier::opaque]
pub open spec fn square_product(word: u32) -> u32 {
    (parity(0x0008ed & word) << 11u32)
        | (parity(0x0001db & word) << 10u32)
        | (parity(0x0003b5 & word) << 9u32)
        | (parity(0x000769 & word) << 8u32)
        | (parity(0x000ed1 & word) << 7u32)
        | (parity(0x000da3 & word) << 6u32)
        | (parity(0x000b47 & word) << 5u32)
        | (parity(0x00068f & word) << 4u32)
        | (parity(0x000d1d & word) << 3u32)
        | (parity(0x000a3b & word) << 2u32)
        | (parity(0x000477 & word) << 1u32)
        | parity(0x000ffe & word)
}

/// The codeword of 12 data bits.
#[verifier::opaque]
pub open spec fn codeword(data: u32) -> u32 {
    (square_product(data & 0xfff) << 12u32) | (data & 0xfff)
}

/// Row `i` of the square part.
#[verifier::opaque]
pub open spec fn row(i: u32) -> u32 {
    if i == 0 {
        0x8ed
    } else if i == 1 {
        0x1db
    } else if i == 2 {
        0x3b5
    } else if i == 3 {
        0x769
    } else if i == 4 {
        0xed1
    } else if i == 5 {
        0xda3
    } else if i == 6 {
        0xb47
    } else if i == 7 {
        0x68f
    } else if i == 8 {
        0xd1d
    } else if i == 9 {
        0xa3b
    } else if i == 10 {
        0x477
    } else {
        0xffe
    }
}

pub proof fn lemma_syndrome_linear(a: u32, b: u32)
    by (bit_vector)
    ensures
        syndrome_of(a ^ b) == syndrome_of(a) ^ syndrome_of(b),
        syndrome_of(a) < 0x1000,
{
}

pub proof fn lemma_matrix(x: u32, i: u32)
    by (bit_vector)
    requires
        x < 0x1000,
        i < 12,
    ensures
        syndrome_of(x << 12u32) == x,
        syndrome_of(codeword(x)) == 0,
        codeword(x) < 0x100_0000,
        square_product(x) < 0x1000,
        syndrome_of(x) == square_product(x),
        square_product(square_product(x)) == x,
        row(i) < 0x1000,
        square_product(row(i)) == 1u32 << (11 - i) as u32,
        square_product(1u32 << (11 - i) as u32) == row(i),
        x == 0 || ones(codeword(x)) >= 8,
{
}

pub proof fn lemma_zero_syndrome(c: u32)
    by (bit_vector)
    requires
        c < 0x100_0000,
        syndrome_of(c) == 0,
    ensures
        c == codeword(c & 0xfff),
{
}

pub proof fn lemma_square_linear(a: u32, b: u32)
    by (bit_vector)
    ensures
        square_product(a ^ b) == square_product(a) ^ square_product(b),
        codeword(a ^ b) == codeword(a) ^ codeword(b),
{
}

pub proof fn lemma_ones(m: u32, j: u32, e: u32, f: u32)
    by (bit_vector)
    ensures
        m < 0x1000 && j < 12 ==> ones((m << 12u32) | (1u32 << j)) == ones(m) + 1 && (m << 12u32) | (
        1u32 << j) == (m << 12u32) ^ (1u32 << j) && (m << 12u32) | (1u32 << j) < 0x100_0000,
        m < 0x1000 && j < 12 ==> ones((1u32 << (12 + j) as u32) | m) == ones(m) + 1 && (1u32 << (12
            + j) as u32) | m == (1u32 << (12 + j) as u32) ^ m && (1u32 << (12 + j) as u32) | m
            < 0x100_0000 && 1u32 << (12 + j) as u32 == (1u32 << j) << 12u32 && 1u32 << j < 0x1000,
        m < 0x1000 ==> ones(m << 12u32) == ones(m) && m << 12u32 < 0x100_0000,
        m < 0x1000 && ones(m) == 1 ==> m == 1 || m == 2 || m == 4 || m == 8 || m == 16 || m == 32
            || m == 64 || m == 128 || m == 256 || m == 512 || m == 1024 || m == 2048,
        e < 0x100_0000 ==> ones(e) == ones(e >> 12u32) + ones(e & 0xfff) && e >> 12u32 < 0x1000
            && e & 0xfff < 0x1000 && e == ((e >> 12u32) << 12u32) ^ (e & 0xfff) && (ones(e) == 0
            ==> e == 0),
        e < 0x100_0000 && f < 0x100_0000 ==> e ^ f < 0x100_0000,
        e ^ f ^ f == e,
        e ^ (e ^ f) == f,
        e ^ f == f ^ e,
        e ^ e == 0,
        e ^ 0 == e,
        (m ^ e) ^ f == m ^ (e ^ f),
        0 <= ones(e) <= 24,
        ones(0) == 0,
        m & 0xff_ffff < 0x100_0000,
        m & 0xfff < 0x1000,
        m < 0x100_0000 ==> m & 0xff_ffff == m,
        e ^ f == 0 ==> e == f,
        (m ^ e) ^ (m ^ f) == e ^ f,
        e < 0x1000 && f < 0x1000 ==> e ^ f < 0x1000,
{
}

/// The powers of two below 4096.
pub proof fn lemma_powers()
    by (bit_vector)
    ensures
        1u32 << 0u32 == 1,
        1u32 << 1u32 == 2,
        1u32 << 2u32 == 4,
        1u32 << 3u32 == 8,
        1u32 << 4u32 == 16,
        1u32 << 5u32 == 32,
        1u32 << 6u32 == 64,
        1u32 << 7u32 == 128,
        1u32 << 8u32 == 256,
        1u32 << 9u32 == 512,
        1u32 << 10u32 == 1024,
        1u32 << 11u32 == 2048,
{
}

proof fn lemma_bit(e: u32, f: u32, i: u32)
    by (bit_vector)
    requires
        i < 24,
    ensures
        ((e ^ f) >> i) & 1 <= ((e >> i) & 1) + ((f >> i) & 1),
        e >> 0u32 == e,
        f >> 0u32 == f,
        (e ^ f) >> 0u32 == e ^ f,
{
}

/// A sum has no more set bits than its parts together.
pub proof fn lemma_ones_add(e: u32, f: u32)
    ensures
        ones(e ^ f) <= ones(e) + ones(f),
{
    reveal(ones);
    lemma_bit(e, f, 0);
    lemma_bit(e, f, 1);
    lemma_bit(e, f, 2);
    lemma_bit(e, f, 3);
    lemma_bit(e, f, 4);
    lemma_bit(e, f, 5);
    lemma_bit(e, f, 6);
    lemma_bit(e, f, 7);
    lemma_bit(e, f, 8);
    lemma_bit(e, f, 9);
    lemma_bit(e, f, 10);
    lemma_bit(e, f, 11);
    lemma_bit(e, f, 12);
    lemma_bit(e, f, 13);
    lemma_bit(e, f, 14);
    lemma_bit(e, f, 15);
    lemma_bit(e, f, 16);
    lemma_bit(e, f, 17);
    lemma_bit(e, f, 18);
    lemma_bit(e, f, 19);
    lemma_bit(e, f, 20);
    lemma_bit(e, f, 21);
    lemma_bit(e, f, 22);
    lemma_bit(e, f, 23);
}

/// Bit `j` of `d`.
pub open spec fn digit(d: u32, j: u32) -> u32 {
    (d >> j) & 1u32
}

/// A codeword is the data below and twelve check bits above. The check bits are those of
/// the bordered circulant matrix of the quadratic residues modulo eleven: counted from
/// the high end, check bit `i` is the sum of data bit zero and of six of the other
/// eleven, whose places move on by one, modulo eleven, with each check bit; the last one
/// is the sum of those eleven.
pub proof fn law_check_bits(d: u32, i: u32)
    by (bit_vector)
    requires
        d < 0x1000,
        i < 11,
    ensures
        codeword(d) & 0xfff == d,
        codeword(d) < 0x100_0000,
        digit(codeword(d), (23 - i) as u32) == digit(d, 0) ^ digit(d, (1 + (i + 1) % 11) as u32)
            ^ digit(d, (1 + (i + 2) % 11) as u32) ^ digit(d, (1 + (i + 4) % 11) as u32) ^ digit(
            d,
            (1 + (i + 5) % 11) as u32,
        ) ^ digit(d, (1 + (i + 6) % 11) as u32) ^ digit(d, (1 + (i + 10) % 11) as u32),
        digit(codeword(d), 12) == digit(d, 1) ^ digit(d, 2) ^ digit(d, 3) ^ digit(d, 4) ^ digit(
            d,
            5,
        ) ^ digit(d, 6) ^ digit(d, 7) ^ digit(d, 8) ^ digit(d, 9) ^ digit(d, 10) ^ digit(d, 11),
{
}

} // verus!
