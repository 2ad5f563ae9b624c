//! The steps of the algebraic Reed-Solomon decoder and the systematic encoder.
use vstd::prelude::*;
use crate::gf256::{
    gf_inv, gf_mul, gf_pow, gf_product, lemma_alpha_mod, lemma_alpha_pow_pow, lemma_mul_assoc,
    lemma_mul_comm, lemma_mul_const, lemma_xor, mod_nn,
};
use crate::gf_tables::{alpha_pow, alpha_to, gf_log, index_of, lemma_log, NN};
use crate::poly::{gsum, lemma_gsum_ext, lemma_gsum_scale, pev};
use crate::rs_code::{
    bm, bm_step, conv, degree, derivative, erasure_locator, evaluator, forney, locator, poly_one,
    root_at, root_positions, shift, syndrome, syndromes, BmState, PARITY_LEN,
};
use crate::rs_lemmas::{lemma_bm_inv, positions};

verus! {

/// `data[0] b^(n-1) + ... + data[n-1]`, by Horner's rule.
pub open spec fn horner(data: Seq<u8>, b: u8, n: nat) -> u8
    decreases n,
{
    if n == 0 {
        0
    } else {
        gf_mul(b, horner(data, b, (n - 1) as nat)) ^ data[n - 1]
    }
}

/// The `i`-th root of the generator.
pub open spec fn generator_root(i: nat) -> u8 {
    alpha_pow(11 * (112 + i))
}

pub proof fn lemma_horner_sum(data: Seq<u8>, b: u8, n: nat)
    ensures
        horner(data, b, n) == gsum(|q: int| gf_mul(data[q], gf_pow(b, (n - 1 - q) as nat)), n),
    decreases n,
{
    if n > 0 {
        let m = (n - 1) as nat;
        lemma_horner_sum(data, b, m);
        let f = |q: int| gf_mul(data[q], gf_pow(b, (m - 1 - q) as nat));
        let g = |q: int| gf_mul(data[q], gf_pow(b, (n - 1 - q) as nat));
        lemma_gsum_scale(b, f, m);
        assert forall|q: int| 0 <= q < m implies #[trigger] g(q) == gf_mul(b, f(q)) by {
            let w = gf_pow(b, (m - 1 - q) as nat);
            assert(gf_pow(b, (n - 1 - q) as nat) == gf_mul(b, w));
            lemma_mul_comm(data[q], gf_mul(b, w));
            lemma_mul_assoc(b, w, data[q]);
            lemma_mul_comm(w, data[q]);
        }
        lemma_gsum_ext(g, |q: int| gf_mul(b, f(q)), m);
        lemma_mul_const(data[m as int]);
        assert(g(m as int) == data[m as int]);
    }
}

/// The syndromes are the values of the block at the roots of the generator.
pub proof fn lemma_horner_syndrome(data: Seq<u8>, i: nat)
    requires
        data.len() == 255,
    ensures
        horner(data, generator_root(i), 255) == syndrome(data, i),
{
    let b = generator_root(i);
    lemma_horner_sum(data, b, 255);
    let f = |q: int| gf_mul(data[q], gf_pow(b, (255 - 1 - q) as nat));
    let g = |p: int| gf_mul(data[p], gf_pow(locator(p), 112 + i));
    assert forall|q: int| 0 <= q < 255 implies #[trigger] f(q) == g(q) by {
        let k = (254 - q) as nat;
        lemma_alpha_pow_pow(11 * (112 + i), k);
        lemma_alpha_pow_pow((11 * k) as nat, 112 + i);
        assert((11 * (112 + i)) * k == (11 * k) * (112 + i)) by (nonlinear_arith);
    }
    lemma_gsum_ext(f, g, 255);
}

/// Leading zeros do not change the value.
pub proof fn lemma_horner_zeros(data: Seq<u8>, b: u8, n: nat)
    requires
        forall|p: int| 0 <= p < n ==> data[p] == 0,
    ensures
        horner(data, b, n) == 0,
    decreases n,
{
    if n > 0 {
        lemma_horner_zeros(data, b, (n - 1) as nat);
        lemma_mul_const(b);
        lemma_xor(0, 0, 0, 0);
    }
}

/// The syndromes of a block whose first `pad` symbols are zero.
pub fn compute_syndromes(data: &[u8; 255], pad: usize) -> (s: [u8; 32])
    requires
        pad <= 255,
        forall|p: int| 0 <= p < pad ==> data@[p] == 0,
    ensures
        s@ == syndromes(data@),
{
    let mut s: [u8; 32] = [0u8; 32];
    let mut i: usize = 0;
    while i < PARITY_LEN
        invariant
            i <= 32,
            pad <= 255,
            forall|p: int| 0 <= p < pad ==> data@[p] == 0,
            forall|k: int| 0 <= k < i ==> s@[k] == syndrome(data@, k as nat),
        decreases 32 - i,
    {
        proof {
            lemma_alpha_mod((11 * (112 + i)) as nat);
            lemma_horner_zeros(data@, generator_root(i as nat), pad as nat);
        }
        let root: u8 = alpha_to(mod_nn((112 + i) * 11));
        assert(root == generator_root(i as nat));
        let mut acc: u8 = 0;
        let mut p: usize = pad;
        while p < NN
            invariant
                pad <= p <= 255,
                acc == horner(data@, root, p as nat),
            decreases 255 - p,
        {
            acc = gf_product(root, acc) ^ data[p];
            p = p + 1;
        }
        proof {
            lemma_horner_syndrome(data@, i as nat);
        }
        s[i] = acc;
        i = i + 1;
    }
    assert(s@ =~= syndromes(data@));
    s
}

fn unit_poly() -> (g: [u8; 33])
    ensures
        g@ == poly_one(),
{
    let mut g: [u8; 33] = [0u8; 33];
    let mut i: usize = 0;
    while i < 33
        invariant
            i <= 33,
            forall|k: int| 0 <= k < i ==> #[trigger] g@[k] == 0,
        decreases 33 - i,
    {
        g[i] = 0;
        i = i + 1;
    }
    g[0] = 1;
    assert(g@ =~= poly_one());
    g
}

/// The locator polynomial of a list of erased positions.
pub fn erasure_poly(eras: &[usize]) -> (g: [u8; 33])
    requires
        eras@.len() <= 32,
        forall|k: int| 0 <= k < eras@.len() ==> #[trigger] eras@[k] < 255,
    ensures
        g@ == erasure_locator(eras@.map_values(|e: usize| e as int)),
{
    let ghost list = eras@.map_values(|e: usize| e as int);
    let mut g: [u8; 33] = unit_poly();
    let mut n: usize = 0;
    assert(list.take(0) =~= Seq::<int>::empty());
    while n < eras.len()
        invariant
            n <= eras@.len() <= 32,
            list == eras@.map_values(|e: usize| e as int),
            forall|k: int| 0 <= k < eras@.len() ==> #[trigger] eras@[k] < 255,
            g@ == erasure_locator(list.take(n as int)),
        decreases eras@.len() - n,
    {
        let e: usize = eras[n];
        proof {
            lemma_alpha_mod((11 * (254 - e)) as nat);
        }
        let x: u8 = alpha_to(mod_nn(11 * (254 - e)));
        assert(x == locator(e as int));
        let ghost before = g@;
        let mut j: usize = 32;
        while j > 0
            invariant
                j <= 32,
                x == locator(e as int),
                before.len() == 33,
                forall|i: int| 0 <= i <= j ==> g@[i] == before[i],
                forall|i: int|
                    j < i < 33 ==> g@[i] == before[i] ^ gf_mul(x, before[i - 1]),
            decreases j,
        {
            g[j] = g[j] ^ gf_product(x, g[j - 1]);
            j = j - 1;
        }
        n = n + 1;
        proof {
            let cur = list.take(n as int);
            assert(cur.drop_last() =~= list.take(n - 1));
            assert(cur.last() == e as int);
            lemma_mul_const(x);
            lemma_xor(before[0], 0, 0, 0);
            let xg = shift(before);
            assert forall|i: int| 0 < i < 33 implies xg[i] == before[i - 1] by {}
            assert(g@ =~= erasure_locator(cur));
        }
    }
    assert(list.take(n as int) =~= list);
    g
}

/// The coefficient of `x^r` in the product of `l` and the syndromes.
fn product_coefficient(l: &[u8; 33], s: &[u8; 32], r: usize) -> (d: u8)
    requires
        r < 32,
    ensures
        d == conv(l@, s@, r as int),
{
    let ghost f = |i: int| gf_mul(l@[i], s@[r - i]);
    let mut acc: u8 = 0;
    let mut i: usize = 0;
    while i <= r
        invariant
            i <= r + 1,
            r < 32,
            f == (|i: int| gf_mul(l@[i], s@[r - i])),
            acc == gsum(f, i as nat),
        decreases r + 1 - i,
    {
        acc = acc ^ gf_product(l[i], s[r - i]);
        i = i + 1;
    }
    proof {
        lemma_gsum_ext(f, |i: int| gf_mul(l@[i], s@[r - i]), (r + 1) as nat);
    }
    acc
}

fn shift_up(b: &mut [u8; 33])
    ensures
        final(b)@ == shift(old(b)@),
{
    let mut j: usize = 32;
    while j > 0
        invariant
            j <= 32,
            forall|i: int| 0 <= i <= j ==> b@[i] == old(b)@[i],
            forall|i: int| j < i < 33 ==> b@[i] == old(b)@[i - 1],
        decreases j,
    {
        b[j] = b[j - 1];
        j = j - 1;
    }
    b[0] = 0;
    assert(b@ =~= shift(old(b)@));
}

/// The multiplicative inverse of a non-zero element.
fn inverse(v: u8) -> (r: u8)
    requires
        v != 0,
    ensures
        r == gf_inv(v),
{
    proof {
        lemma_log(v);
        lemma_alpha_mod((255 - gf_log(v)) as nat);
    }
    alpha_to(mod_nn(NN - index_of(v) as usize))
}

/// The Berlekamp-Massey recursion over all 32 syndromes: the connection
/// polynomial and its register length.
pub fn berlekamp_massey(s: &[u8; 32], gamma: &[u8; 33], eras: &[usize]) -> (r: ([u8; 33], usize))
    requires
        eras@.len() <= 32,
        forall|k: int| 0 <= k < eras@.len() ==> #[trigger] eras@[k] < 255,
        gamma@ == erasure_locator(eras@.map_values(|e: usize| e as int)),
    ensures
        r.0@ == bm(s@, eras@.map_values(|e: usize| e as int), 32).lambda,
        r.1 == bm(s@, eras@.map_values(|e: usize| e as int), 32).el,
{
    let ghost list = eras@.map_values(|e: usize| e as int);
    proof {
        assert(positions(list));
    }
    let n0: usize = eras.len();
    let mut lambda: [u8; 33] = *gamma;
    let mut b: [u8; 33] = *gamma;
    let mut el: usize = n0;
    let mut r: usize = n0;
    while r < PARITY_LEN
        invariant
            n0 == list.len(),
            n0 <= r <= 32,
            positions(list),
            el <= r,
            bm(s@, list, r as nat) == (BmState { lambda: lambda@, b: b@, el: el as nat }),
        decreases 32 - r,
    {
        proof {
            lemma_bm_inv(s@, list, r as nat);
        }
        let ghost st = bm(s@, list, r as nat);
        let d: u8 = product_coefficient(&lambda, s, r);
        let ghost old_lambda = lambda@;
        if d == 0 {
            shift_up(&mut b);
        } else {
            let saved: [u8; 33] = lambda;
            let mut xb: [u8; 33] = b;
            shift_up(&mut xb);
            let mut i: usize = 0;
            while i < 33
                invariant
                    i <= 33,
                    forall|k: int| 0 <= k < i ==> lambda@[k] == saved@[k] ^ gf_mul(d, xb@[k]),
                    forall|k: int| i <= k < 33 ==> lambda@[k] == saved@[k],
                decreases 33 - i,
            {
                lambda[i] = lambda[i] ^ gf_product(d, xb[i]);
                i = i + 1;
            }
            if 2 * el <= r + n0 {
                el = r + 1 + n0 - el;
                let inv: u8 = inverse(d);
                let mut k: usize = 0;
                while k < 33
                    invariant
                        k <= 33,
                        forall|m: int| 0 <= m < k ==> b@[m] == gf_mul(inv, saved@[m]),
                    decreases 33 - k,
                {
                    b[k] = gf_product(inv, saved[k]);
                    k = k + 1;
                }
            } else {
                b = xb;
            }
        }
        proof {
            let next = bm_step(st, s@, list.len(), r as nat);
            assert(lambda@ =~= next.lambda);
            assert(b@ =~= next.b);
            assert(el as nat == next.el);
            lemma_bm_inv(s@, list, (r + 1) as nat);
        }
        r = r + 1;
    }
    (lambda, el)
}

/// The degree of the locator, or zero.
pub fn degree_of(l: &[u8; 33]) -> (d: usize)
    ensures
        d as nat == degree(l@, 33),
        d <= 32,
{
    let mut n: usize = 33;
    while n > 1 && l[n - 1] == 0
        invariant
            1 <= n <= 33,
            degree(l@, n as nat) == degree(l@, 33),
        decreases n,
    {
        n = n - 1;
    }
    n - 1
}

/// The value of a polynomial, by Horner's rule.
fn evaluate(p: &[u8], y: u8) -> (v: u8)
    ensures
        v == pev(p@, y),
{
    let mut j: usize = p.len();
    let mut acc: u8 = 0;
    assert(p@.skip(j as int) =~= Seq::<u8>::empty());
    while j > 0
        invariant
            j <= p@.len(),
            acc == pev(p@.skip(j as int), y),
        decreases j,
    {
        proof {
            crate::poly::lemma_horner(p@.skip(j - 1), y);
            assert(p@.skip(j - 1).skip(1) =~= p@.skip(j as int));
            lemma_xor(p@[j - 1], gf_mul(y, acc), 0, 0);
        }
        acc = gf_product(y, acc) ^ p[j - 1];
        j = j - 1;
    }
    assert(p@.skip(0) =~= p@);
    acc
}

/// The root of position `p`.
fn root_of(p: usize) -> (y: u8)
    requires
        p < 255,
    ensures
        y == root_at(p as int),
{
    proof {
        lemma_alpha_mod((11 * (p + 1)) as nat);
    }
    alpha_to(mod_nn(11 * (p + 1)))
}

/// Search all positions for roots of the locator.
pub fn chien_search(l: &[u8; 33]) -> (found: Vec<usize>)
    ensures
        found@.map_values(|p: usize| p as int) == root_positions(l@, 255),
{
    let mut found: Vec<usize> = Vec::new();
    let mut p: usize = 0;
    assert(found@.map_values(|p: usize| p as int) =~= Seq::<int>::empty());
    while p < NN
        invariant
            p <= 255,
            found@.map_values(|p: usize| p as int) == root_positions(l@, p as nat),
        decreases 255 - p,
    {
        let y: u8 = root_of(p);
        let ghost before = found@.map_values(|p: usize| p as int);
        if evaluate(l.as_slice(), y) == 0 {
            found.push(p);
            assert(found@.map_values(|p: usize| p as int) =~= before.push(p as int));
        }
        p = p + 1;
    }
    found
}

/// The evaluator polynomial: the first `d` coefficients of the product.
pub fn evaluator_poly(l: &[u8; 33], s: &[u8; 32], d: usize) -> (om: Vec<u8>)
    requires
        d <= 32,
    ensures
        om@.len() == d,
        forall|y: u8| pev(om@, y) == evaluator(l@, s@, d as nat, y),
{
    let mut om: Vec<u8> = Vec::new();
    let mut i: usize = 0;
    while i < d
        invariant
            i <= d <= 32,
            om@.len() == i,
            forall|k: int| 0 <= k < i ==> om@[k] == conv(l@, s@, k),
        decreases d - i,
    {
        let c: u8 = product_coefficient(l, s, i);
        om.push(c);
        i = i + 1;
    }
    proof {
        assert forall|y: u8| pev(om@, y) == evaluator(l@, s@, d as nat, y) by {
            lemma_gsum_ext(
                |i: int| gf_mul(om@[i], gf_pow(y, i as nat)),
                |i: int| gf_mul(conv(l@, s@, i), gf_pow(y, i as nat)),
                d as nat,
            );
        }
    }
    om
}

/// The formal derivative of the locator at `y`.
pub fn derivative_at(l: &[u8; 33], y: u8) -> (v: u8)
    ensures
        v == derivative(l@, y),
{
    let mut odd: Vec<u8> = Vec::new();
    let mut t: usize = 0;
    while t < 16
        invariant
            t <= 16,
            odd@.len() == t,
            forall|k: int| 0 <= k < t ==> odd@[k] == l@[2 * k + 1],
        decreases 16 - t,
    {
        odd.push(l[2 * t + 1]);
        t = t + 1;
    }
    let y2: u8 = gf_product(y, y);
    let v: u8 = evaluate(odd.as_slice(), y2);
    proof {
        let f = |i: int| gf_mul(odd@[i], gf_pow(y2, i as nat));
        let g = |t: int| gf_mul(l@[2 * t + 1], gf_pow(y, (2 * t) as nat));
        assert forall|i: int| 0 <= i < 16 implies #[trigger] f(i) == g(i) by {
            lemma_square_pow(y, i as nat);
        }
        lemma_gsum_ext(f, g, 16);
    }
    v
}

proof fn lemma_square_pow(y: u8, n: nat)
    ensures
        gf_pow(gf_mul(y, y), n) == gf_pow(y, 2 * n),
    decreases n,
{
    if n > 0 {
        lemma_square_pow(y, (n - 1) as nat);
        let w = gf_pow(y, (2 * n - 2) as nat);
        assert(gf_pow(y, (2 * n - 1) as nat) == gf_mul(y, w));
        assert(gf_pow(y, 2 * n) == gf_mul(y, gf_mul(y, w)));
        lemma_mul_assoc(y, y, w);
    }
}

/// The error value at the root of position `p`, given the evaluator polynomial.
pub fn error_value(l: &[u8; 33], s: &[u8; 32], om: &Vec<u8>, d: usize, p: usize) -> (e: u8)
    requires
        p < 255,
        d <= 32,
        forall|y: u8| pev(om@, y) == evaluator(l@, s@, d as nat, y),
        derivative(l@, root_at(p as int)) != 0,
    ensures
        e == forney(l@, s@, d as nat, root_at(p as int)),
{
    let y: u8 = root_of(p);
    let den: u8 = derivative_at(l, y);
    let num1: u8 = evaluate(om.as_slice(), y);
    assert(num1 == evaluator(l@, s@, d as nat, y));
    proof {
        lemma_alpha_pow_pow((11 * (p + 1)) as nat, 111);
        lemma_alpha_mod((11 * (p + 1) * 111) as nat);
    }
    let num2: u8 = alpha_to(mod_nn(11 * (p + 1) * 111));
    gf_product(gf_product(num1, num2), inverse(den))
}

} // verus!
