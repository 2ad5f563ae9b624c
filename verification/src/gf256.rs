//! Arithmetic in GF(256) with the primitive polynomial
//! `x^8 + x^7 + x^2 + x + 1` (0x187) and its primitive element `alpha`.
//!
//! Addition is XOR. Multiplication is stated bit by bit in [`gf_mul`]; the
//! executable code multiplies through logarithm tables, and the lemmas here
//! tie the tables to [`gf_mul`] and give the field laws.
use vstd::prelude::*;
use crate::gf_tables::{alpha_to, index_of, NN};
use crate::gf_tables::{alpha_pow, gf_log, xtime, lemma_last_step, lemma_log, lemma_log_alpha};

verus! {

/// `a` when the bits of `b` selected by `m` are not all zero, else zero.
pub open spec fn pick(a: u8, b: u8, m: u8) -> u8 {
    if b & m != 0u8 {
        a
    } else {
        0u8
    }
}

/// Field multiplication: the sum of `alpha^k * a` over the set bits `k` of `b`.
#[verifier::opaque]
pub open spec fn gf_mul(a: u8, b: u8) -> u8 {
    let x1 = xtime(a);
    let x2 = xtime(x1);
    let x3 = xtime(x2);
    let x4 = xtime(x3);
    let x5 = xtime(x4);
    let x6 = xtime(x5);
    let x7 = xtime(x6);
    pick(a, b, 1) ^ pick(x1, b, 2) ^ pick(x2, b, 4) ^ pick(x3, b, 8) ^ pick(x4, b, 16) ^ pick(
        x5,
        b,
        32,
    ) ^ pick(x6, b, 64) ^ pick(x7, b, 128)
}

/// `x^n`.
pub open spec fn gf_pow(x: u8, n: nat) -> u8
    decreases n,
{
    if n == 0 {
        1u8
    } else {
        gf_mul(x, gf_pow(x, (n - 1) as nat))
    }
}

/// The multiplicative inverse of a non-zero `v`.
pub open spec fn gf_inv(v: u8) -> u8 {
    alpha_pow((255 - gf_log(v)) as nat)
}

/// XOR is an abelian group operation in which every element is its own inverse.
pub proof fn lemma_xor(a: u8, b: u8, c: u8, d: u8)
    by (bit_vector)
    ensures
        a ^ b == b ^ a,
        (a ^ b) ^ c == a ^ (b ^ c),
        a ^ a == 0u8,
        a ^ 0u8 == a,
        0u8 ^ a == a,
        (a ^ b) ^ b == a,
        (a ^ b) ^ (c ^ d) == (a ^ c) ^ (b ^ d),
        a ^ b == 0u8 <==> a == b,
        a ^ (a ^ b) == b,
{
}

proof fn lemma_pick(a: u8, b: u8, c: u8)
    by (bit_vector)
    ensures
        xtime(a ^ b) == xtime(a) ^ xtime(b),
        xtime(0) == 0,
        pick(a, b ^ c, 1) == pick(a, b, 1) ^ pick(a, c, 1),
        pick(a, b ^ c, 2) == pick(a, b, 2) ^ pick(a, c, 2),
        pick(a, b ^ c, 4) == pick(a, b, 4) ^ pick(a, c, 4),
        pick(a, b ^ c, 8) == pick(a, b, 8) ^ pick(a, c, 8),
        pick(a, b ^ c, 16) == pick(a, b, 16) ^ pick(a, c, 16),
        pick(a, b ^ c, 32) == pick(a, b, 32) ^ pick(a, c, 32),
        pick(a, b ^ c, 64) == pick(a, b, 64) ^ pick(a, c, 64),
        pick(a, b ^ c, 128) == pick(a, b, 128) ^ pick(a, c, 128),
        0u8 & 1 == 0,
        0u8 & 2 == 0,
        0u8 & 4 == 0,
        0u8 & 8 == 0,
        0u8 & 16 == 0,
        0u8 & 32 == 0,
        0u8 & 64 == 0,
        0u8 & 128 == 0,
{
}

proof fn lemma_xor_pairs(
    a0: u8,
    a1: u8,
    a2: u8,
    a3: u8,
    a4: u8,
    a5: u8,
    a6: u8,
    a7: u8,
    b0: u8,
    b1: u8,
    b2: u8,
    b3: u8,
    b4: u8,
    b5: u8,
    b6: u8,
    b7: u8,
)
    by (bit_vector)
    ensures
        (a0 ^ a1 ^ a2 ^ a3 ^ a4 ^ a5 ^ a6 ^ a7) ^ (b0 ^ b1 ^ b2 ^ b3 ^ b4 ^ b5 ^ b6 ^ b7) == (a0
            ^ b0) ^ (a1 ^ b1) ^ (a2 ^ b2) ^ (a3 ^ b3) ^ (a4 ^ b4) ^ (a5 ^ b5) ^ (a6 ^ b6) ^ (a7
            ^ b7),
{
}

/// Multiplication distributes over addition on the right.
pub proof fn lemma_mul_add(a: u8, b: u8, c: u8)
    ensures
        gf_mul(a, b ^ c) == gf_mul(a, b) ^ gf_mul(a, c),
{
    reveal(gf_mul);
    let x1 = xtime(a);
    let x2 = xtime(x1);
    let x3 = xtime(x2);
    let x4 = xtime(x3);
    let x5 = xtime(x4);
    let x6 = xtime(x5);
    let x7 = xtime(x6);
    lemma_pick(a, b, c);
    lemma_pick(x1, b, c);
    lemma_pick(x2, b, c);
    lemma_pick(x3, b, c);
    lemma_pick(x4, b, c);
    lemma_pick(x5, b, c);
    lemma_pick(x6, b, c);
    lemma_pick(x7, b, c);
    lemma_xor_pairs(
        pick(a, b, 1),
        pick(x1, b, 2),
        pick(x2, b, 4),
        pick(x3, b, 8),
        pick(x4, b, 16),
        pick(x5, b, 32),
        pick(x6, b, 64),
        pick(x7, b, 128),
        pick(a, c, 1),
        pick(x1, c, 2),
        pick(x2, c, 4),
        pick(x3, c, 8),
        pick(x4, c, 16),
        pick(x5, c, 32),
        pick(x6, c, 64),
        pick(x7, c, 128),
    );
}

proof fn lemma_mul_xtime(a: u8, b: u8)
    ensures
        gf_mul(xtime(a), b) == xtime(gf_mul(a, b)),
{
    reveal(gf_mul);
    let x1 = xtime(a);
    let x2 = xtime(x1);
    let x3 = xtime(x2);
    let x4 = xtime(x3);
    let x5 = xtime(x4);
    let x6 = xtime(x5);
    let x7 = xtime(x6);
    let p0 = pick(a, b, 1);
    let p1 = p0 ^ pick(x1, b, 2);
    let p2 = p1 ^ pick(x2, b, 4);
    let p3 = p2 ^ pick(x3, b, 8);
    let p4 = p3 ^ pick(x4, b, 16);
    let p5 = p4 ^ pick(x5, b, 32);
    let p6 = p5 ^ pick(x6, b, 64);
    lemma_pick(p0, pick(x1, b, 2), 0);
    lemma_pick(p1, pick(x2, b, 4), 0);
    lemma_pick(p2, pick(x3, b, 8), 0);
    lemma_pick(p3, pick(x4, b, 16), 0);
    lemma_pick(p4, pick(x5, b, 32), 0);
    lemma_pick(p5, pick(x6, b, 64), 0);
    lemma_pick(p6, pick(x7, b, 128), 0);
}

proof fn lemma_mul_one(b: u8)
    ensures
        gf_mul(1, b) == b,
        gf_mul(b, 0) == 0,
{
    reveal(gf_mul);
    assert(gf_mul(1, b) == b) by (bit_vector);
    lemma_pick(0, 0, 0);
    lemma_xor(0, 0, 0, 0);
}

/// Multiplying by a power of `alpha` adds exponents.
pub proof fn lemma_alpha_add(m: nat, n: nat)
    ensures
        gf_mul(alpha_pow(m), alpha_pow(n)) == alpha_pow(m + n),
    decreases m,
{
    if m == 0 {
        lemma_mul_one(alpha_pow(n));
    } else {
        lemma_alpha_add((m - 1) as nat, n);
        lemma_mul_xtime(alpha_pow((m - 1) as nat), alpha_pow(n));
        assert(((m - 1) + n) as nat == m + n - 1);
    }
}

/// `alpha` has order 255.
pub proof fn lemma_alpha_period(n: nat)
    ensures
        alpha_pow(n + 255) == alpha_pow(n),
        alpha_pow(255) == 1,
{
    lemma_last_step();
    lemma_alpha_add(255, n);
    lemma_mul_one(alpha_pow(n));
}

/// Exponents of `alpha` count modulo 255.
pub proof fn lemma_alpha_mod(n: nat)
    ensures
        alpha_pow(n) == alpha_pow(n % 255),
        alpha_pow(n) != 0,
    decreases n,
{
    if n >= 255 {
        let k = (n - 255) as nat;
        lemma_alpha_mod(k);
        lemma_alpha_period(k);
        assert(k % 255 == n % 255) by {
            vstd::arithmetic::div_mod::lemma_mod_add_multiples_vanish(k as int, 255);
        }
    } else {
        lemma_log_alpha(n);
    }
}

/// Two powers of `alpha` agree exactly when their exponents agree modulo 255.
pub proof fn lemma_alpha_injective(m: nat, n: nat)
    ensures
        alpha_pow(m) == alpha_pow(n) <==> m % 255 == n % 255,
{
    lemma_alpha_mod(m);
    lemma_alpha_mod(n);
    lemma_log_alpha(m % 255);
    lemma_log_alpha(n % 255);
}

/// Zero annihilates and one is neutral.
pub proof fn lemma_mul_const(a: u8)
    ensures
        gf_mul(a, 0) == 0,
        gf_mul(0, a) == 0,
        gf_mul(1, a) == a,
        gf_mul(a, 1) == a,
{
    lemma_mul_one(a);
    lemma_mul_comm(a, 0);
    lemma_mul_comm(a, 1);
}

proof fn lemma_mul_zero_left(a: u8)
    ensures
        gf_mul(0, a) == 0,
{
    reveal(gf_mul);
    lemma_pick(0, 0, 0);
    lemma_xor(0, 0, 0, 0);
}

/// Multiplication is commutative.
pub proof fn lemma_mul_comm(a: u8, b: u8)
    ensures
        gf_mul(a, b) == gf_mul(b, a),
{
    lemma_mul_one(a);
    lemma_mul_one(b);
    lemma_mul_zero_left(a);
    lemma_mul_zero_left(b);
    if a != 0 && b != 0 {
        lemma_log(a);
        lemma_log(b);
        lemma_alpha_add(gf_log(a), gf_log(b));
        lemma_alpha_add(gf_log(b), gf_log(a));
    }
}

/// Multiplication is associative.
pub proof fn lemma_mul_assoc(a: u8, b: u8, c: u8)
    ensures
        gf_mul(gf_mul(a, b), c) == gf_mul(a, gf_mul(b, c)),
{
    lemma_mul_const(a);
    lemma_mul_const(b);
    lemma_mul_const(c);
    if a != 0 && b != 0 && c != 0 {
        lemma_log(a);
        lemma_log(b);
        lemma_log(c);
        lemma_alpha_add(gf_log(a), gf_log(b));
        lemma_alpha_add(gf_log(b), gf_log(c));
        lemma_alpha_add(gf_log(a) + gf_log(b), gf_log(c));
        lemma_alpha_add(gf_log(a), gf_log(b) + gf_log(c));
    } else if a == 0 {
        lemma_mul_const(gf_mul(b, c));
    } else if c == 0 {
        lemma_mul_const(gf_mul(a, b));
    }
}

/// Multiplication distributes over addition on the left.
pub proof fn lemma_add_mul(a: u8, b: u8, c: u8)
    ensures
        gf_mul(a ^ b, c) == gf_mul(a, c) ^ gf_mul(b, c),
{
    lemma_mul_comm(a ^ b, c);
    lemma_mul_comm(a, c);
    lemma_mul_comm(b, c);
    lemma_mul_add(c, a, b);
}

/// A product is zero exactly when a factor is.
pub proof fn lemma_mul_zero(a: u8, b: u8)
    ensures
        gf_mul(a, b) == 0 <==> a == 0 || b == 0,
{
    lemma_mul_const(a);
    lemma_mul_const(b);
    if a != 0 && b != 0 {
        lemma_log(a);
        lemma_log(b);
        lemma_alpha_add(gf_log(a), gf_log(b));
        lemma_alpha_mod(gf_log(a) + gf_log(b));
    }
}

/// A non-zero element times its inverse is one.
pub proof fn lemma_inv(a: u8)
    requires
        a != 0,
    ensures
        gf_mul(a, gf_inv(a)) == 1,
        gf_mul(gf_inv(a), a) == 1,
        gf_inv(a) != 0,
{
    lemma_log(a);
    lemma_alpha_add(gf_log(a), (255 - gf_log(a)) as nat);
    lemma_alpha_period(0);
    lemma_alpha_mod((255 - gf_log(a)) as nat);
    lemma_mul_comm(a, gf_inv(a));
}

/// Logarithms add under multiplication.
pub proof fn lemma_mul_log(a: u8, b: u8)
    requires
        a != 0,
        b != 0,
    ensures
        gf_mul(a, b) == alpha_pow(gf_log(a) + gf_log(b)),
{
    lemma_log(a);
    lemma_log(b);
    lemma_alpha_add(gf_log(a), gf_log(b));
}

/// A power of a power of `alpha`.
pub proof fn lemma_alpha_pow_pow(m: nat, n: nat)
    ensures
        gf_pow(alpha_pow(m), n) == alpha_pow(m * n),
    decreases n,
{
    if n > 0 {
        lemma_alpha_pow_pow(m, (n - 1) as nat);
        lemma_alpha_add(m, (m * (n - 1)) as nat);
        assert(m + m * (n - 1) == m * n) by (nonlinear_arith);
    } else {
        assert(m * n == 0) by (nonlinear_arith)
            requires
                n == 0,
        ;
    }
}

/// Powers add exponents.
pub proof fn lemma_pow_add(x: u8, m: nat, n: nat)
    ensures
        gf_pow(x, m + n) == gf_mul(gf_pow(x, m), gf_pow(x, n)),
    decreases m,
{
    if m == 0 {
        lemma_mul_const(gf_pow(x, n));
    } else {
        lemma_pow_add(x, (m - 1) as nat, n);
        lemma_mul_assoc(x, gf_pow(x, (m - 1) as nat), gf_pow(x, n));
        assert((m + n - 1) as nat == (m - 1) as nat + n);
    }
}

/// A power of a non-zero element is non-zero.
pub proof fn lemma_pow_nonzero(x: u8, n: nat)
    requires
        x != 0,
    ensures
        gf_pow(x, n) != 0,
    decreases n,
{
    if n > 0 {
        lemma_pow_nonzero(x, (n - 1) as nat);
        lemma_mul_zero(x, gf_pow(x, (n - 1) as nat));
    }
}

/// Powers of a product of two inverse elements cancel.
pub proof fn lemma_pow_cancel(x: u8, y: u8, n: nat)
    requires
        gf_mul(x, y) == 1,
    ensures
        gf_mul(gf_pow(x, n), gf_pow(y, n)) == 1,
    decreases n,
{
    if n == 0 {
        lemma_mul_const(1);
    } else {
        let px = gf_pow(x, (n - 1) as nat);
        let py = gf_pow(y, (n - 1) as nat);
        lemma_pow_cancel(x, y, (n - 1) as nat);
        lemma_mul_assoc(x, px, gf_mul(y, py));
        lemma_mul_comm(y, py);
        lemma_mul_assoc(px, py, y);
        lemma_mul_const(y);
    }
}

/// Reduce an exponent modulo 255.
pub fn mod_nn(value: usize) -> (r: usize)
    ensures
        r == value % 255,
        r < 255,
{
    let mut v: usize = value;
    while v >= NN
        invariant
            v % 255 == value % 255,
        decreases v,
    {
        v = v - NN;
        let ghost w = v;
        assert((w >> 8) == w / 256 && (w & 255) == w % 256) by (bit_vector);
        v = (v >> 8) + (v & NN);
        assert(v == w / 256 + w % 256);
        assert(w == 256 * (w / 256) + w % 256);
        assert(w % 255 == v % 255) by (nonlinear_arith)
            requires
                v == w / 256 + w % 256,
                w == 256 * (w / 256) + w % 256,
        ;
        assert((w + 255) % 255 == w % 255);
    }
    v
}

/// The product of two field elements through the tables.
pub fn gf_product(a: u8, b: u8) -> (r: u8)
    ensures
        r == gf_mul(a, b),
{
    proof {
        lemma_mul_const(a);
        lemma_mul_const(b);
    }
    if a == 0 || b == 0 {
        0
    } else {
        proof {
            lemma_mul_log(a, b);
            lemma_log(a);
            lemma_log(b);
            lemma_alpha_mod(gf_log(a) + gf_log(b));
        }
        alpha_to(mod_nn(index_of(a) as usize + index_of(b) as usize))
    }
}

} // verus!
