//! The codes of JPEG tables and coefficients, in terms of their numbers.
use vstd::prelude::*;
use vstd::arithmetic::power2::{lemma2_to64, lemma_pow2_pos, lemma_pow2_unfold, pow2};
use crate::jpeg_huffman::{
    bit_width, code_from, code_of, int_code, int_value, lemma_bit_width, magnitude, symbol_at,
};

verus! {

/// A coefficient takes as many bits as its magnitude. A positive one is written as it is,
/// a negative one as what is left to the largest number of that width; zero takes none.
pub proof fn law_coefficient_bits(v: int)
    ensures
        ({
            let (bits, width) = int_code(v);
            &&& v == 0 ==> bits == 0 && width == 0
            &&& v > 0 ==> width > 0 && pow2((width - 1) as nat) <= v < pow2(width) && bits == v
            &&& v < 0 ==> width > 0 && pow2((width - 1) as nat) <= -v < pow2(width) && bits
                == pow2(width) - 1 + v
        }),
{
    lemma_bit_width(magnitude(v));
}

proof fn lemma_width_is(v: nat, w: nat)
    requires
        w > 0,
        pow2((w - 1) as nat) <= v < pow2(w),
    ensures
        bit_width(v) == w,
    decreases w,
{
    lemma2_to64();
    lemma_pow2_pos((w - 1) as nat);
    lemma_pow2_unfold(w);
    if w == 1 {
        reveal_with_fuel(bit_width, 2);
    } else {
        lemma_pow2_unfold((w - 1) as nat);
        lemma_width_is(v / 2, (w - 1) as nat);
    }
}

/// Any bits of a width are read as the one coefficient that is written so.
pub proof fn law_bits_are_read(bits: nat, width: nat)
    requires
        width > 0,
        bits < pow2(width),
    ensures
        int_code(int_value(bits as int, width)) == (bits, width),
{
    lemma_pow2_unfold(width);
    lemma_pow2_pos((width - 1) as nat);
    let v = int_value(bits as int, width);
    lemma_width_is(magnitude(v), width);
}

/// The number of symbols with codes shorter than `l`.
pub open spec fn shorter(dht: Seq<u8>, l: nat) -> nat
    decreases l,
{
    if l <= 1 {
        0
    } else {
        shorter(dht, (l - 1) as nat) + dht[l - 1] as nat
    }
}

/// Symbol number `p` of the table has a code of `l` bits.
pub open spec fn has_length(dht: Seq<u8>, p: nat, l: nat) -> bool {
    1 <= l <= 16 && shorter(dht, l) <= p < shorter(dht, l) + dht[l as int] as nat
}

/// No symbol of the table occurs twice.
pub open spec fn symbols_once(dht: Seq<u8>) -> bool {
    forall|i: int, j: int| 17 <= i < j < dht.len() ==> dht[i] != dht[j]
}

/// The first code of `l` bits.
spec fn first_code(dht: Seq<u8>, l: nat) -> nat
    decreases l,
{
    if l <= 1 {
        0
    } else {
        2 * (first_code(dht, (l - 1) as nat) + dht[l - 1] as nat)
    }
}

proof fn lemma_symbol_found(dht: Seq<u8>, from: nat, to: nat, k: nat)
    requires
        symbols_once(dht),
        17 <= from,
        k < dht.len(),
        to <= dht.len(),
        17 <= k,
    ensures
        symbol_at(dht, dht[k as int], from, to) == if from <= k < to {
            Some(k)
        } else {
            None
        },
    decreases to - from,
{
    if from < to {
        lemma_symbol_found(dht, from + 1, to, k);
        if from < k {
            assert(dht[from as int] != dht[k as int]);
        } else if k < from {
            assert(dht[k as int] != dht[from as int]);
        }
    }
}

proof fn lemma_shorter(dht: Seq<u8>, a: nat, b: nat)
    requires
        1 <= a <= b,
    ensures
        shorter(dht, a) <= shorter(dht, b),
    decreases b - a,
{
    if a < b {
        lemma_shorter(dht, a, (b - 1) as nat);
    }
}

proof fn lemma_code_from(dht: Seq<u8>, p: nat, l: nat, cw: nat)
    requires
        symbols_once(dht),
        has_length(dht, p, l),
        17 + shorter(dht, 17) <= dht.len(),
        1 <= cw <= l,
    ensures
        code_from(dht, dht[17 + p as int], cw, first_code(dht, cw), 17 + shorter(dht, cw)) == Some(
            ((first_code(dht, l) + p - shorter(dht, l)) as nat, l),
        ),
    decreases l - cw,
{
    let n = dht[cw as int] as nat;
    lemma_shorter(dht, cw + 1, 17);
    lemma_shorter(dht, l + 1, 17);
    lemma_symbol_found(dht, 17 + shorter(dht, cw), 17 + shorter(dht, cw) + n, 17 + p);
    if cw < l {
        lemma_shorter(dht, cw + 1, l);
        lemma_code_from(dht, p, l, cw + 1);
    }
}

/// Between the codes of two lengths with none in between, codes double.
proof fn lemma_first_code(dht: Seq<u8>, a: nat, b: nat)
    requires
        1 <= a < b,
        forall|l: int| a < l < b ==> #[trigger] dht[l] == 0,
    ensures
        first_code(dht, b) == (first_code(dht, a) + dht[a as int] as nat) * pow2((b - a) as nat),
        shorter(dht, b) == shorter(dht, a) + dht[a as int] as nat,
    decreases b,
{
    lemma_pow2_unfold((b - a) as nat);
    if b == a + 1 {
        lemma2_to64();
    } else {
        lemma_first_code(dht, a, (b - 1) as nat);
        assert(dht[b - 1] == 0);
        let x = (first_code(dht, a) + dht[a as int] as nat) as int;
        let y = pow2((b - 1 - a) as nat) as int;
        assert(2 * (x * y) == x * (2 * y)) by (nonlinear_arith);
    }
}

proof fn lemma_no_lengths_between(dht: Seq<u8>, p: nat, a: nat, b: nat)
    requires
        has_length(dht, p, a),
        has_length(dht, p + 1, b),
    ensures
        a <= b,
        a < b ==> p + 1 == shorter(dht, a) + dht[a as int] && forall|l: int|
            a < l < b ==> #[trigger] dht[l] == 0,
{
    if b < a {
        lemma_shorter(dht, b + 1, a);
    } else if a < b {
        lemma_shorter(dht, a + 1, b);
        assert forall|l: int| a < l < b implies #[trigger] dht[l] == 0 by {
            lemma_shorter(dht, a + 1, l as nat);
            lemma_shorter(dht, (l + 1) as nat, b);
        }
    }
}

/// The codes of a table are dealt out in order: the first symbol of the shortest length
/// gets zeros, and each further one the code behind the one before it, with zeros
/// appended where its length is greater.
pub proof fn law_codes_are_consecutive(dht: Seq<u8>, p: nat, a: nat, b: nat)
    requires
        symbols_once(dht),
        17 + shorter(dht, 17) <= dht.len(),
        has_length(dht, p, a),
    ensures
        code_of(dht, dht[17 + p as int]) matches Some((_, w)) && w == a,
        p == 0 ==> code_of(dht, dht[17 + p as int]) == Some((0nat, a)),
        has_length(dht, p + 1, b) ==> code_of(dht, dht[18 + p as int]) == Some(
            ((code_of(dht, dht[17 + p as int]).unwrap().0 + 1) * pow2((b - a) as nat), b),
        ),
{
    lemma_code_from(dht, p, a, 1);
    if p == 0 {
        lemma_zero_first(dht, a);
    }
    if has_length(dht, p + 1, b) {
        lemma_code_from(dht, p + 1, b, 1);
        lemma_no_lengths_between(dht, p, a, b);
        if a < b {
            lemma_first_code(dht, a, b);
        } else {
            lemma2_to64();
            let x = (first_code(dht, a) + p - shorter(dht, a)) as nat + 1;
            assert(x * 1 == x);
        }
    }
}

proof fn lemma_zero_first(dht: Seq<u8>, l: nat)
    requires
        1 <= l,
        shorter(dht, l) == 0,
    ensures
        first_code(dht, l) == 0,
    decreases l,
{
    if l > 1 {
        lemma_zero_first(dht, (l - 1) as nat);
    }
}

} // verus!
