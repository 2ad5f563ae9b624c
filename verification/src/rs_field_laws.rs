//! What the field and the code of the Reed-Solomon blocks are, in terms of integers.
use vstd::prelude::*;
use crate::gf256::{
    gf_mul, lemma_alpha_add, lemma_mul_add, lemma_mul_assoc, lemma_mul_comm, lemma_mul_const,
};
use crate::gf_tables::{alpha_pow, gf_log, lemma_log, xtime};
use crate::reed_solomon::{
    is_shortened_encoding, lemma_message_symbol, lemma_path_is_codeword, path_block,
};
use crate::rs_code::{is_codeword, syndrome};
use crate::rs_engine::{generator_root, horner, lemma_horner_syndrome};

verus! {

/// Twice `v`, with the ninth bit exchanged for `x^7 + x^2 + x + 1`.
pub open spec fn doubled(v: u8) -> u8 {
    if v < 128 {
        (2 * v) as u8
    } else {
        ((2 * v - 256) as u8) ^ 0x87u8
    }
}

proof fn lemma_doubled(v: u8)
    by (bit_vector)
    ensures
        v < 128 ==> xtime(v) == 2 * v,
        v >= 128 ==> xtime(v) == ((2 * v - 256) as u8) ^ 0x87u8,
{
}

/// The symbols multiply as polynomials modulo `x^8 + x^7 + x^2 + x + 1`: the product
/// commutes, associates, distributes over the sum, one is neutral, and two times a
/// symbol is its double.
pub proof fn law_field(a: u8, b: u8, c: u8)
    ensures
        gf_mul(a, b) == gf_mul(b, a),
        gf_mul(gf_mul(a, b), c) == gf_mul(a, gf_mul(b, c)),
        gf_mul(a, b ^ c) == gf_mul(a, b) ^ gf_mul(a, c),
        gf_mul(1, a) == a,
        gf_mul(0, a) == 0,
        gf_mul(2, a) == doubled(a),
{
    lemma_mul_comm(a, b);
    lemma_mul_assoc(a, b, c);
    lemma_mul_add(a, b, c);
    lemma_mul_const(a);
    lemma_doubled(a);
    lemma_doubled(1);
    reveal_with_fuel(alpha_pow, 2);
    if a != 0 {
        lemma_log(a);
        lemma_alpha_add(1, gf_log(a));
        assert(alpha_pow(1) == 2);
    } else {
        lemma_mul_const(2);
    }
}

/// The `n`-th double of one.
pub open spec fn power_of_two(n: nat) -> u8
    decreases n,
{
    if n == 0 {
        1
    } else {
        doubled(power_of_two((n - 1) as nat))
    }
}

proof fn lemma_power(n: nat)
    ensures
        alpha_pow(n) == power_of_two(n),
    decreases n,
{
    if n > 0 {
        lemma_power((n - 1) as nat);
        lemma_doubled(alpha_pow((n - 1) as nat));
    }
}

/// The polynomial with the first `n` symbols as coefficients, the last of them
/// constant, at `x`.
pub open spec fn value_at(symbols: Seq<u8>, x: u8, n: nat) -> u8
    decreases n,
{
    if n == 0 {
        0
    } else {
        gf_mul(x, value_at(symbols, x, (n - 1) as nat)) ^ symbols[n - 1]
    }
}

proof fn lemma_value(symbols: Seq<u8>, x: u8, n: nat)
    ensures
        horner(symbols, x, n) == value_at(symbols, x, n),
    decreases n,
{
    if n > 0 {
        lemma_value(symbols, x, (n - 1) as nat);
    }
}

/// Codewords are the blocks of 255 symbols whose polynomial vanishes at the 32 powers of
/// two with the exponents 11 times 112, 11 times 113, and so on.
pub proof fn law_codewords_vanish_at_the_roots(block: Seq<u8>)
    requires
        block.len() == 255,
    ensures
        is_codeword(block) <==> forall|i: nat|
            i < 32 ==> value_at(block, #[trigger] power_of_two(11 * (112 + i)), 255) == 0,
{
    assert forall|i: nat| i < 32 implies syndrome(block, i) == value_at(
        block,
        #[trigger] power_of_two(11 * (112 + i)),
        255,
    ) by {
        lemma_power(11 * (112 + i));
        lemma_horner_syndrome(block, i);
        lemma_value(block, generator_root(i), 255);
    }
    if forall|i: nat|
        i < 32 ==> value_at(block, #[trigger] power_of_two(11 * (112 + i)), 255) == 0 {
        assert forall|i: nat| i < 32 implies syndrome(block, i) == 0 by {
            assert(value_at(block, power_of_two(11 * (112 + i)), 255) == 0);
        }
    }
}

/// Every `n`-th symbol from `first` on, with zeros before them up to 255.
pub open spec fn spread_block(symbols: Seq<u8>, n: nat, first: int) -> Seq<u8> {
    let count = symbols.len() / n;
    Seq::new(
        255,
        |p: int|
            if p < 255 - count {
                0u8
            } else {
                symbols[first + n * (p - (255 - count))]
            },
    )
}

/// An encoding starts with the message, unchanged; and of `n` interleaved codewords, each
/// takes every `n`-th symbol.
pub proof fn law_encoding_is_spread(message: Seq<u8>, n: nat, sent: Seq<u8>, first: int)
    requires
        0 < n,
        message.len() % n == 0,
        message.len() / n <= 223,
        is_shortened_encoding(message, n as int, sent),
        0 <= first < n,
    ensures
        sent.len() == message.len() + 32 * n,
        sent.take(message.len() as int) == message,
        is_codeword(spread_block(sent, n, first)),
{
    let i = n as int;
    lemma_path_is_codeword(message, i, sent, first);
    let pad = 255 - sent.len() / n;
    let a = spread_block(sent, n, first);
    let b = path_block(sent, i, first, pad);
    assert forall|p: int| 0 <= p < 255 implies a[p] == b[p] by {
        assert(i * (p - pad) == (p - pad) * i) by (nonlinear_arith);
    }
    assert(a =~= b);
    let k = (message.len() / n) as int;
    vstd::arithmetic::div_mod::lemma_fundamental_div_mod(message.len() as int, i);
    assert forall|j: int| 0 <= j < message.len() implies sent.take(message.len() as int)[j]
        == message[j] by {
        lemma_message_symbol(message, i, sent, j, k);
        let m = j / i;
        vstd::arithmetic::div_mod::lemma_fundamental_div_mod(j, i);
        assert(j == j % i + m * i && 0 <= m < k) by (nonlinear_arith)
            requires
                j == i * m + j % i,
                0 <= j % i < i,
                0 <= j < i * k,
        ;
        assert(path_block(sent, i, j % i, pad)[pad + m] == sent[j % i + (pad + m - pad) * i]);
    }
    assert(sent.take(message.len() as int) =~= message);
}

} // verus!
