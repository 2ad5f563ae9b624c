//! The shortened RS(255, 223) code: what a codeword is, and what the algebraic
//! decoder computes.
//!
//! A block has 255 symbols over GF(256). The generator has the 32 roots
//! `alpha^(11 (112 + i))`, `0 <= i < 32`. The symbol at position `p` is the
//! coefficient of `x^(254 - p)`.
use vstd::prelude::*;
use crate::gf256::{gf_inv, gf_mul, gf_pow};
use crate::gf_tables::alpha_pow;
use crate::poly::{gsum, pev};

verus! {

/// Parity symbols in a block.
pub const PARITY_LEN: usize = 32;

/// The locator `X` of position `p`.
pub open spec fn locator(p: int) -> u8 {
    alpha_pow((11 * (254 - p)) as nat)
}

/// The inverse of the locator of position `p`: the root that an error at `p`
/// gives to the error locator polynomial.
pub open spec fn root_at(p: int) -> u8 {
    alpha_pow((11 * (p + 1)) as nat)
}

/// What the symbol `v` at position `p` adds to the zeroth power sum.
pub open spec fn weight(v: u8, p: int) -> u8 {
    gf_mul(v, gf_pow(locator(p), 112))
}

/// The `i`-th syndrome of a block.
pub open spec fn syndrome(data: Seq<u8>, i: nat) -> u8 {
    gsum(|p: int| gf_mul(data[p], gf_pow(locator(p), 112 + i)), 255)
}

/// All 32 syndromes of a block.
pub open spec fn syndromes(data: Seq<u8>) -> Seq<u8> {
    Seq::new(32, |i: int| syndrome(data, i as nat))
}

/// A block is a codeword when all its syndromes vanish.
pub open spec fn is_codeword(data: Seq<u8>) -> bool {
    data.len() == 255 && forall|i: nat| i < 32 ==> syndrome(data, i) == 0
}

/// The coefficient of `x^r` in the product of `l` and the syndrome polynomial.
pub open spec fn conv(l: Seq<u8>, s: Seq<u8>, r: int) -> u8 {
    gsum(|i: int| gf_mul(l[i], s[r - i]), (r + 1) as nat)
}

/// `x b(x)`, cut to 33 coefficients.
pub open spec fn shift(b: Seq<u8>) -> Seq<u8> {
    seq![0u8] + b.take(32)
}

/// The constant polynomial one, with room for degree 32.
pub open spec fn poly_one() -> Seq<u8> {
    Seq::new(33, |i: int| if i == 0 { 1u8 } else { 0u8 })
}

/// The polynomial `(1 - X x) ... ` over the erased positions.
pub open spec fn erasure_locator(eras: Seq<int>) -> Seq<u8>
    decreases eras.len(),
{
    if eras.len() == 0 {
        poly_one()
    } else {
        let g = erasure_locator(eras.drop_last());
        let xg = shift(g);
        Seq::new(33, |i: int| g[i] ^ gf_mul(locator(eras.last()), xg[i]))
    }
}

/// State of the Berlekamp-Massey recursion: the connection polynomial, the
/// auxiliary polynomial and the register length.
#[verifier::ext_equal]
pub struct BmState {
    pub lambda: Seq<u8>,
    pub b: Seq<u8>,
    pub el: nat,
}

/// One step of the recursion, which takes in the syndrome of index `r`.
pub open spec fn bm_step(st: BmState, s: Seq<u8>, n0: nat, r: nat) -> BmState {
    let d = conv(st.lambda, s, r as int);
    let xb = shift(st.b);
    if d == 0 {
        BmState { lambda: st.lambda, b: xb, el: st.el }
    } else {
        let t = Seq::new(33, |i: int| st.lambda[i] ^ gf_mul(d, xb[i]));
        if 2 * st.el <= r + n0 {
            BmState {
                lambda: t,
                b: Seq::new(33, |i: int| gf_mul(gf_inv(d), st.lambda[i])),
                el: (r + 1 + n0 - st.el) as nat,
            }
        } else {
            BmState { lambda: t, b: xb, el: st.el }
        }
    }
}

/// The recursion after the syndromes below `r`, started from the erasures.
pub open spec fn bm(s: Seq<u8>, eras: Seq<int>, r: nat) -> BmState
    decreases r,
{
    if r <= eras.len() {
        let g = erasure_locator(eras);
        BmState { lambda: g, b: g, el: eras.len() }
    } else {
        bm_step(bm(s, eras, (r - 1) as nat), s, eras.len(), (r - 1) as nat)
    }
}

/// The index of the last non-zero coefficient among the first `n`, or zero.
pub open spec fn degree(l: Seq<u8>, n: nat) -> nat
    decreases n,
{
    if n <= 1 {
        0
    } else if l[n - 1] != 0 {
        (n - 1) as nat
    } else {
        degree(l, (n - 1) as nat)
    }
}

/// Positions below `n` whose root the polynomial has, in ascending order.
pub open spec fn root_positions(l: Seq<u8>, n: nat) -> Seq<int>
    decreases n,
{
    if n == 0 {
        Seq::empty()
    } else {
        let before = root_positions(l, (n - 1) as nat);
        if pev(l, root_at(n - 1)) == 0 {
            before.push(n - 1)
        } else {
            before
        }
    }
}

/// The error evaluator at `y`: the first `d` coefficients of the product of
/// locator and syndromes.
pub open spec fn evaluator(l: Seq<u8>, s: Seq<u8>, d: nat, y: u8) -> u8 {
    gsum(|i: int| gf_mul(conv(l, s, i), gf_pow(y, i as nat)), d)
}

/// The formal derivative of the polynomial at `y`: the odd coefficients.
pub open spec fn derivative(l: Seq<u8>, y: u8) -> u8 {
    gsum(|t: int| gf_mul(l[2 * t + 1], gf_pow(y, (2 * t) as nat)), l.len() / 2)
}

/// Forney's error value at the root `y` of a locator of degree `d`.
pub open spec fn forney(l: Seq<u8>, s: Seq<u8>, d: nat, y: u8) -> u8 {
    gf_mul(
        gf_mul(evaluator(l, s, d, y), gf_pow(y, 111)),
        gf_inv(derivative(l, y)),
    )
}

/// The block with the error value taken out at every root of the locator.
pub open spec fn corrected(data: Seq<u8>, l: Seq<u8>, s: Seq<u8>, d: nat) -> Seq<u8> {
    Seq::new(
        data.len(),
        |p: int|
            if pev(l, root_at(p)) == 0 {
                data[p] ^ forney(l, s, d, root_at(p))
            } else {
                data[p]
            },
    )
}

/// What the errors-and-erasures decoder makes of a block whose first `pad`
/// symbols are not transmitted: the corrected block and the degree of the
/// locator, or nothing when the locator does not describe that many errors.
pub open spec fn decode_block_spec(data: Seq<u8>, pad: int, eras: Seq<int>) -> Option<
    (Seq<u8>, nat),
> {
    let s = syndromes(data);
    let l = bm(s, eras, 32).lambda;
    let d = degree(l, 33);
    let roots = root_positions(l, 255);
    if forall|i: nat| i < 32 ==> syndrome(data, i) == 0 {
        Some((data, 0))
    } else if d == 0 || 2 * d > 32 + eras.len() || roots.len() != d || roots[0] < pad {
        None
    } else {
        Some((corrected(data, l, s, d), d))
    }
}

} // verus!
