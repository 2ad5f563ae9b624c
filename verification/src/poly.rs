//! Finite sums and polynomials over GF(256).
use vstd::prelude::*;
use crate::gf256::{
    gf_mul, gf_pow, lemma_add_mul, lemma_mul_add, lemma_mul_assoc, lemma_mul_comm, lemma_mul_const,
    lemma_mul_zero, lemma_pow_nonzero, lemma_xor,
};

verus! {

/// `f(0) + f(1) + ... + f(n - 1)`.
pub open spec fn gsum(f: spec_fn(int) -> u8, n: nat) -> u8
    decreases n,
{
    if n == 0 {
        0u8
    } else {
        gsum(f, (n - 1) as nat) ^ f(n - 1)
    }
}

/// Equal terms give equal sums.
pub proof fn lemma_gsum_ext(f: spec_fn(int) -> u8, g: spec_fn(int) -> u8, n: nat)
    requires
        forall|i: int| 0 <= i < n ==> #[trigger] f(i) == g(i),
    ensures
        gsum(f, n) == gsum(g, n),
    decreases n,
{
    if n > 0 {
        lemma_gsum_ext(f, g, (n - 1) as nat);
    }
}

/// A sum of zeros is zero.
pub proof fn lemma_gsum_zero(f: spec_fn(int) -> u8, n: nat)
    requires
        forall|i: int| 0 <= i < n ==> #[trigger] f(i) == 0,
    ensures
        gsum(f, n) == 0,
    decreases n,
{
    if n > 0 {
        lemma_gsum_zero(f, (n - 1) as nat);
        lemma_xor(0, 0, 0, 0);
    }
}

/// Terms that are zero from `n` on do not change the sum.
pub proof fn lemma_gsum_extend(f: spec_fn(int) -> u8, n: nat, m: nat)
    requires
        n <= m,
        forall|i: int| n <= i < m ==> #[trigger] f(i) == 0,
    ensures
        gsum(f, m) == gsum(f, n),
    decreases m,
{
    if m > n {
        lemma_gsum_extend(f, n, (m - 1) as nat);
        lemma_xor(gsum(f, n), 0, 0, 0);
    }
}

/// Sums add term by term.
pub proof fn lemma_gsum_add(f: spec_fn(int) -> u8, g: spec_fn(int) -> u8, n: nat)
    ensures
        gsum(|i: int| f(i) ^ g(i), n) == gsum(f, n) ^ gsum(g, n),
    decreases n,
{
    if n > 0 {
        let m = (n - 1) as nat;
        lemma_gsum_add(f, g, m);
        lemma_xor(gsum(f, m), gsum(g, m), f(n - 1), g(n - 1));
    } else {
        lemma_xor(0, 0, 0, 0);
    }
}

/// A constant factor comes out of a sum.
pub proof fn lemma_gsum_scale(c: u8, f: spec_fn(int) -> u8, n: nat)
    ensures
        gsum(|i: int| gf_mul(c, f(i)), n) == gf_mul(c, gsum(f, n)),
    decreases n,
{
    if n > 0 {
        lemma_gsum_scale(c, f, (n - 1) as nat);
        lemma_mul_add(c, gsum(f, (n - 1) as nat), f(n - 1));
    } else {
        lemma_mul_const(c);
    }
}

/// The first term can be split off.
pub proof fn lemma_gsum_first(f: spec_fn(int) -> u8, n: nat)
    ensures
        gsum(f, n + 1) == f(0) ^ gsum(|i: int| f(i + 1), n),
    decreases n,
{
    let g = |i: int| f(i + 1);
    if n > 0 {
        lemma_gsum_first(f, (n - 1) as nat);
        lemma_xor(f(0), gsum(g, (n - 1) as nat), f(n as int), 0);
        assert(gsum(f, n + 1) == gsum(f, n) ^ f(n as int));
        assert(g(n - 1) == f(n as int));
    } else {
        lemma_xor(f(0), 0, 0, 0);
        assert(gsum(f, 1) == gsum(f, 0) ^ f(0));
    }
}

/// A sum with a single term that is not zero.
pub proof fn lemma_gsum_single(f: spec_fn(int) -> u8, n: nat, k: int)
    requires
        0 <= k < n,
        forall|i: int| 0 <= i < n && i != k ==> #[trigger] f(i) == 0,
    ensures
        gsum(f, n) == f(k),
    decreases n,
{
    lemma_xor(f(k), 0, 0, 0);
    if k == n - 1 {
        lemma_gsum_zero(f, (n - 1) as nat);
    } else {
        lemma_gsum_single(f, (n - 1) as nat, k);
    }
}

/// Double sums can be taken in either order.
pub proof fn lemma_gsum_swap(f: spec_fn(int, int) -> u8, n: nat, m: nat)
    ensures
        gsum(|i: int| gsum(|k: int| f(i, k), m), n) == gsum(
            |k: int| gsum(|i: int| f(i, k), n),
            m,
        ),
    decreases n,
{
    let rows = |i: int| gsum(|k: int| f(i, k), m);
    let cols = |k: int| gsum(|i: int| f(i, k), n);
    if n == 0 {
        lemma_gsum_zero(cols, m);
    } else {
        let n1 = (n - 1) as nat;
        lemma_gsum_swap(f, n1, m);
        let cols1 = |k: int| gsum(|i: int| f(i, k), n1);
        let last = |k: int| f(n - 1, k);
        lemma_gsum_add(cols1, last, m);
        lemma_gsum_ext(cols, |k: int| cols1(k) ^ last(k), m);
        assert(rows(n - 1) == gsum(last, m)) by {
            lemma_gsum_ext(|k: int| f(n - 1, k), last, m);
        }
    }
}

/// The value at `x` of the polynomial whose coefficient of `x^i` is `p[i]`.
pub open spec fn pev(p: Seq<u8>, x: u8) -> u8 {
    gsum(|i: int| gf_mul(p[i], gf_pow(x, i as nat)), p.len())
}

/// Horner's rule.
pub proof fn lemma_horner(p: Seq<u8>, x: u8)
    requires
        p.len() > 0,
    ensures
        pev(p, x) == p[0] ^ gf_mul(x, pev(p.skip(1), x)),
{
    let f = |i: int| gf_mul(p[i], gf_pow(x, i as nat));
    let q = p.skip(1);
    let g = |i: int| gf_mul(q[i], gf_pow(x, i as nat));
    let n = (p.len() - 1) as nat;
    lemma_gsum_first(f, n);
    lemma_gsum_scale(x, g, n);
    assert forall|i: int| 0 <= i < n implies #[trigger] f(i + 1) == gf_mul(x, g(i)) by {
        let c = q[i];
        let w = gf_pow(x, i as nat);
        assert(gf_pow(x, (i + 1) as nat) == gf_mul(x, w));
        lemma_mul_comm(c, gf_mul(x, w));
        lemma_mul_assoc(x, w, c);
        lemma_mul_comm(w, c);
    }
    lemma_gsum_ext(|i: int| f(i + 1), |i: int| gf_mul(x, g(i)), n);
    lemma_mul_const(p[0]);
    assert(f(0) == p[0]);
}

/// The quotient of `p` by `x - a`.
pub open spec fn quot(p: Seq<u8>, a: u8) -> Seq<u8> {
    Seq::new((p.len() - 1) as nat, |i: int| pev(p.skip(i + 1), a))
}

/// `p(x) = (x - a) q(x) + p(a)`.
pub proof fn lemma_quot(p: Seq<u8>, a: u8, x: u8)
    requires
        p.len() > 0,
    ensures
        pev(p, x) == gf_mul(x ^ a, pev(quot(p, a), x)) ^ pev(p, a),
    decreases p.len(),
{
    let q = quot(p, a);
    if p.len() == 1 {
        lemma_horner(p, x);
        lemma_horner(p, a);
        assert(p.skip(1) =~= Seq::<u8>::empty());
        lemma_mul_const(x);
        lemma_mul_const(a);
        lemma_mul_const(x ^ a);
        lemma_xor(p[0], 0, 0, 0);
        lemma_xor(0, pev(p, a), 0, 0);
    } else {
        let t = p.skip(1);
        lemma_quot(t, a, x);
        lemma_horner(p, x);
        lemma_horner(p, a);
        lemma_horner(q, x);
        let qt = quot(t, a);
        assert(q.skip(1) =~= qt) by {
            assert forall|i: int| 0 <= i < qt.len() implies q.skip(1)[i] == qt[i] by {
                assert(p.skip(i + 2) =~= t.skip(i + 1));
            }
        }
        let ta = pev(t, a);
        assert(q[0] == ta);
        let w = pev(qt, x);
        let d = x ^ a;
        // p(x) = p0 + x (d w + ta), and (d)(ta + x w) + p0 + a ta is the same.
        lemma_mul_add(x, gf_mul(d, w), ta);
        lemma_mul_add(d, ta, gf_mul(x, w));
        lemma_add_mul(x, a, ta);
        lemma_mul_assoc(d, x, w);
        lemma_mul_comm(d, x);
        lemma_mul_assoc(x, d, w);
        lemma_sum_rearrange(
            p[0],
            gf_mul(x, gf_mul(d, w)),
            gf_mul(x, ta),
            gf_mul(a, ta),
        );
    }
}

proof fn lemma_sum_rearrange(p: u8, u: u8, v: u8, w: u8)
    by (bit_vector)
    ensures
        p ^ (u ^ v) == ((v ^ w) ^ u) ^ (p ^ w),
{
}

/// No value occurs twice.
pub open spec fn distinct(s: Seq<u8>) -> bool {
    forall|i: int, j: int| 0 <= i < j < s.len() ==> s[i] != s[j]
}

/// A polynomial with at least as many roots as coefficients is zero.
pub proof fn lemma_roots(p: Seq<u8>, roots: Seq<u8>)
    requires
        distinct(roots),
        p.len() <= roots.len(),
        forall|k: int| 0 <= k < roots.len() ==> pev(p, #[trigger] roots[k]) == 0,
    ensures
        forall|i: int| 0 <= i < p.len() ==> p[i] == 0,
    decreases p.len(),
{
    if p.len() > 0 {
        let a = roots.last();
        let rest = roots.drop_last();
        let q = quot(p, a);
        assert forall|k: int| 0 <= k < rest.len() implies pev(q, #[trigger] rest[k]) == 0 by {
            let r = rest[k];
            assert(r == roots[k]);
            lemma_quot(p, a, r);
            lemma_xor(gf_mul(r ^ a, pev(q, r)), 0, 0, 0);
            lemma_xor(r, a, 0, 0);
            lemma_mul_zero(r ^ a, pev(q, r));
        }
        lemma_roots(q, rest);
        assert forall|i: int| 0 <= i < p.len() implies p[i] == 0 by {
            let s = p.skip(i);
            lemma_horner(s, a);
            assert(s.skip(1) =~= p.skip(i + 1));
            assert(s[0] == p[i]);
            if i == p.len() - 1 {
                assert(p.skip(i + 1) =~= Seq::<u8>::empty());
            } else {
                assert(q[i] == pev(p.skip(i + 1), a));
            }
            assert(pev(p.skip(i + 1), a) == 0);
            if i == 0 {
                assert(s =~= p);
                assert(pev(p, roots[roots.len() - 1]) == 0);
            } else {
                assert(q[i - 1] == pev(p.skip(i), a));
            }
            lemma_mul_const(a);
            lemma_xor(p[i], 0, 0, 0);
        }
    }
}

/// `ws[0] xs[0]^j + ws[1] xs[1]^j + ...`.
pub open spec fn psum(xs: Seq<u8>, ws: Seq<u8>, j: nat) -> u8 {
    gsum(|k: int| gf_mul(ws[k], gf_pow(xs[k], j)), xs.len())
}

/// As many consecutive power sums as points can only vanish when every weight does.
pub proof fn lemma_vandermonde(xs: Seq<u8>, ws: Seq<u8>, a: nat)
    requires
        distinct(xs),
        xs.len() == ws.len(),
        forall|k: int| 0 <= k < xs.len() ==> xs[k] != 0,
        forall|j: nat| a <= j < a + xs.len() ==> psum(xs, ws, j) == 0,
    ensures
        forall|k: int| 0 <= k < ws.len() ==> ws[k] == 0,
    decreases xs.len(),
{
    if xs.len() > 0 {
        let n = (xs.len() - 1) as nat;
        let z = xs.last();
        let xs1 = xs.drop_last();
        let ws1 = Seq::new(n, |k: int| gf_mul(ws[k], xs[k] ^ z));
        assert forall|j: nat| a <= j < a + n implies psum(xs1, ws1, j) == 0 by {
            lemma_vandermonde_step(xs, ws, j);
            assert(psum(xs, ws, j) == 0);
            assert(psum(xs, ws, j + 1) == 0);
            lemma_mul_const(z);
            lemma_xor(0, 0, 0, 0);
        }
        lemma_vandermonde(xs1, ws1, a);
        assert forall|k: int| 0 <= k < n implies ws[k] == 0 by {
            assert(ws1[k] == 0);
            lemma_xor(xs[k], z, 0, 0);
            lemma_mul_zero(ws[k], xs[k] ^ z);
        }
        let f = |k: int| gf_mul(ws[k], gf_pow(xs[k], a));
        assert forall|k: int| 0 <= k < xs.len() && k != n implies #[trigger] f(k) == 0 by {
            lemma_mul_const(gf_pow(xs[k], a));
        }
        lemma_gsum_single(f, xs.len(), n as int);
        assert(psum(xs, ws, a) == 0);
        lemma_pow_nonzero(z, a);
        lemma_mul_zero(ws[n as int], gf_pow(z, a));
    }
}

proof fn lemma_vandermonde_step(xs: Seq<u8>, ws: Seq<u8>, j: nat)
    requires
        xs.len() > 0,
        xs.len() == ws.len(),
    ensures
        psum(
            xs.drop_last(),
            Seq::new((xs.len() - 1) as nat, |k: int| gf_mul(ws[k], xs[k] ^ xs.last())),
            j,
        ) == psum(xs, ws, j + 1) ^ gf_mul(xs.last(), psum(xs, ws, j)),
{
    let n = (xs.len() - 1) as nat;
    let z = xs.last();
    let xs1 = xs.drop_last();
    let ws1 = Seq::new(n, |k: int| gf_mul(ws[k], xs[k] ^ z));
    let f0 = |k: int| gf_mul(ws[k], gf_pow(xs[k], j));
    let f1 = |k: int| gf_mul(ws[k], gf_pow(xs[k], j + 1));
    let zf0 = |k: int| gf_mul(z, f0(k));
    let h = |k: int| f1(k) ^ zf0(k);
    let g = |k: int| gf_mul(ws1[k], gf_pow(xs1[k], j));
    lemma_gsum_scale(z, f0, xs.len());
    lemma_gsum_add(f1, zf0, xs.len());
    assert forall|k: int| 0 <= k < xs.len() implies #[trigger] h(k) == gf_mul(
        gf_mul(ws[k], xs[k] ^ z),
        gf_pow(xs[k], j),
    ) by {
        let w = ws[k];
        let x = xs[k];
        let p = gf_pow(x, j);
        assert(gf_pow(x, j + 1) == gf_mul(x, p));
        lemma_mul_assoc(w, x ^ z, p);
        lemma_add_mul(x, z, p);
        lemma_mul_add(w, gf_mul(x, p), gf_mul(z, p));
        lemma_mul_assoc(w, z, p);
        lemma_mul_comm(w, z);
        lemma_mul_assoc(z, w, p);
    }
    assert(h(n as int) == 0) by {
        lemma_xor(z, 0, 0, 0);
        lemma_mul_const(ws[n as int]);
        lemma_mul_const(gf_pow(z, j));
    }
    lemma_gsum_ext(h, g, n);
    lemma_xor(gsum(h, n), 0, 0, 0);
    assert(gsum(h, xs.len()) == gsum(h, n) ^ h(n as int));
}

} // verus!
