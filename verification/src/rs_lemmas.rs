//! Why the algebraic decoder corrects errors and erasures.
use vstd::prelude::*;
use crate::gf256::{
    gf_inv, gf_mul, gf_pow, lemma_add_mul, lemma_alpha_add, lemma_alpha_injective, lemma_alpha_mod,
    lemma_inv, lemma_mul_add, lemma_mul_assoc, lemma_mul_comm, lemma_mul_const, lemma_mul_zero,
    lemma_pow_add, lemma_pow_cancel, lemma_xor,
};
use crate::poly::{
    distinct, gsum, lemma_gsum_add, lemma_gsum_ext, lemma_gsum_extend, lemma_gsum_first,
    lemma_gsum_scale, lemma_gsum_single, lemma_gsum_swap, lemma_gsum_zero, lemma_horner, lemma_quot,
    lemma_roots, lemma_vandermonde, pev, psum, quot,
};
use crate::rs_code::{
    bm, bm_step, conv, derivative, erasure_locator, evaluator, forney, locator, root_at, shift,
    weight, BmState,
};

verus! {

/// The locator of a position and its root are inverse to each other.
pub proof fn lemma_locator(p: int)
    requires
        0 <= p < 255,
    ensures
        gf_mul(locator(p), root_at(p)) == 1,
        locator(p) != 0,
        root_at(p) != 0,
{
    lemma_alpha_add((11 * (254 - p)) as nat, (11 * (p + 1)) as nat);
    assert(11 * (254 - p) + 11 * (p + 1) == 255 * 11);
    lemma_alpha_injective(2805, 0);
    lemma_alpha_mod((11 * (254 - p)) as nat);
    lemma_alpha_mod((11 * (p + 1)) as nat);
}

/// Positions have different locators and different roots.
pub proof fn lemma_locator_distinct(p: int, q: int)
    requires
        0 <= p < 255,
        0 <= q < 255,
        p != q,
    ensures
        locator(p) != locator(q),
        root_at(p) != root_at(q),
{
    let a = 11 * (254 - p);
    let b = 11 * (254 - q);
    lemma_alpha_injective(a as nat, b as nat);
    lemma_alpha_injective((11 * (p + 1)) as nat, (11 * (q + 1)) as nat);
    if a % 255 == b % 255 {
        lemma_times_eleven(254 - p, 254 - q);
    }
    if (11 * (p + 1)) % 255 == (11 * (q + 1)) % 255 {
        lemma_times_eleven(p + 1, q + 1);
    }
}

proof fn lemma_times_eleven(m: int, n: int)
    requires
        0 <= m <= 255,
        0 <= n <= 255,
        -255 < m - n < 255,
        (11 * m) % 255 == (11 * n) % 255,
    ensures
        m == n,
{
    let k = (11 * m) / 255 - (11 * n) / 255;
    assert(11 * (m - n) == 255 * k);
    assert(m - n == 255 * (k * 116) - (m - n) * 1275);
    assert((m - n) == 255 * (116 * k - 5 * (m - n)));
}

/// Coefficients that are zero from `n` on do not matter to the value.
pub proof fn lemma_pev_take(p: Seq<u8>, n: int, x: u8)
    requires
        0 <= n <= p.len(),
        forall|i: int| n <= i < p.len() ==> p[i] == 0,
    ensures
        pev(p.take(n), x) == pev(p, x),
{
    let f = |i: int| gf_mul(p[i], gf_pow(x, i as nat));
    let g = |i: int| gf_mul(p.take(n)[i], gf_pow(x, i as nat));
    assert forall|i: int| n <= i < p.len() implies #[trigger] f(i) == 0 by {
        lemma_mul_const(gf_pow(x, i as nat));
    }
    lemma_gsum_extend(f, n as nat, p.len());
    lemma_gsum_ext(f, g, n as nat);
}

/// The value of a linear combination.
pub proof fn lemma_pev_combine(p: Seq<u8>, c: u8, q: Seq<u8>, r: Seq<u8>, x: u8)
    requires
        p.len() == q.len(),
        r.len() == p.len(),
        forall|i: int| 0 <= i < p.len() ==> r[i] == p[i] ^ gf_mul(c, q[i]),
    ensures
        pev(r, x) == pev(p, x) ^ gf_mul(c, pev(q, x)),
{
    let f = |i: int| gf_mul(p[i], gf_pow(x, i as nat));
    let g = |i: int| gf_mul(q[i], gf_pow(x, i as nat));
    let cg = |i: int| gf_mul(c, g(i));
    let h = |i: int| gf_mul(r[i], gf_pow(x, i as nat));
    lemma_gsum_scale(c, g, p.len());
    lemma_gsum_add(f, cg, p.len());
    assert forall|i: int| 0 <= i < p.len() implies #[trigger] h(i) == f(i) ^ cg(i) by {
        let w = gf_pow(x, i as nat);
        lemma_add_mul(p[i], gf_mul(c, q[i]), w);
        lemma_mul_assoc(c, q[i], w);
    }
    lemma_gsum_ext(h, |i: int| f(i) ^ cg(i), p.len());
}

/// The value of a multiple.
pub proof fn lemma_pev_scale(c: u8, q: Seq<u8>, r: Seq<u8>, x: u8)
    requires
        r.len() == q.len(),
        forall|i: int| 0 <= i < q.len() ==> r[i] == gf_mul(c, q[i]),
    ensures
        pev(r, x) == gf_mul(c, pev(q, x)),
{
    let z = Seq::new(q.len(), |i: int| 0u8);
    assert forall|i: int| 0 <= i < q.len() implies r[i] == z[i] ^ gf_mul(c, q[i]) by {
        lemma_xor(gf_mul(c, q[i]), 0, 0, 0);
    }
    lemma_pev_combine(z, c, q, r, x);
    lemma_pev_take(z, 0, x);
    assert(z.take(0) =~= Seq::<u8>::empty());
    lemma_xor(gf_mul(c, pev(q, x)), 0, 0, 0);
}

/// The value of `x b(x)`, when nothing is cut off.
pub proof fn lemma_pev_shift(b: Seq<u8>, x: u8)
    requires
        b.len() == 33,
        b[32] == 0,
    ensures
        pev(shift(b), x) == gf_mul(x, pev(b, x)),
{
    lemma_horner(shift(b), x);
    assert(shift(b).skip(1) =~= b.take(32));
    lemma_pev_take(b, 32, x);
    lemma_xor(gf_mul(x, pev(b, x)), 0, 0, 0);
}

/// Convolution is linear in the polynomial.
pub proof fn lemma_conv_combine(p: Seq<u8>, c: u8, q: Seq<u8>, t: Seq<u8>, s: Seq<u8>, r: int)
    requires
        p.len() == 33,
        q.len() == 33,
        t.len() == 33,
        0 <= r < 32,
        forall|i: int| 0 <= i < 33 ==> t[i] == p[i] ^ gf_mul(c, q[i]),
    ensures
        conv(t, s, r) == conv(p, s, r) ^ gf_mul(c, conv(q, s, r)),
{
    let n = (r + 1) as nat;
    let f = |i: int| gf_mul(p[i], s[r - i]);
    let g = |i: int| gf_mul(q[i], s[r - i]);
    let cg = |i: int| gf_mul(c, g(i));
    let h = |i: int| gf_mul(t[i], s[r - i]);
    lemma_gsum_scale(c, g, n);
    lemma_gsum_add(f, cg, n);
    assert forall|i: int| 0 <= i < n implies #[trigger] h(i) == f(i) ^ cg(i) by {
        lemma_add_mul(p[i], gf_mul(c, q[i]), s[r - i]);
        lemma_mul_assoc(c, q[i], s[r - i]);
    }
    lemma_gsum_ext(h, |i: int| f(i) ^ cg(i), n);
}

/// Convolution with a multiple.
pub proof fn lemma_conv_scale(c: u8, q: Seq<u8>, t: Seq<u8>, s: Seq<u8>, r: int)
    requires
        q.len() == 33,
        t.len() == 33,
        0 <= r < 32,
        forall|i: int| 0 <= i < 33 ==> t[i] == gf_mul(c, q[i]),
    ensures
        conv(t, s, r) == gf_mul(c, conv(q, s, r)),
{
    let n = (r + 1) as nat;
    let g = |i: int| gf_mul(q[i], s[r - i]);
    let h = |i: int| gf_mul(t[i], s[r - i]);
    lemma_gsum_scale(c, g, n);
    assert forall|i: int| 0 <= i < n implies #[trigger] h(i) == gf_mul(c, g(i)) by {
        lemma_mul_assoc(c, q[i], s[r - i]);
    }
    lemma_gsum_ext(h, |i: int| gf_mul(c, g(i)), n);
}

/// Convolution with `x b(x)`.
pub proof fn lemma_conv_shift(b: Seq<u8>, s: Seq<u8>, r: int)
    requires
        b.len() == 33,
        0 <= r < 32,
    ensures
        conv(shift(b), s, r) == if r == 0 {
            0
        } else {
            conv(b, s, r - 1)
        },
{
    let f = |i: int| gf_mul(shift(b)[i], s[r - i]);
    lemma_gsum_first(f, r as nat);
    lemma_mul_const(s[r]);
    assert(f(0) == 0);
    let g = |i: int| gf_mul(b[i], s[r - 1 - i]);
    assert forall|i: int| 0 <= i < r implies #[trigger] f(i + 1) == g(i) by {
        assert(shift(b)[i + 1] == b[i]);
        assert(r - (i + 1) == r - 1 - i);
    }
    lemma_gsum_ext(|i: int| f(i + 1), g, r as nat);
    lemma_xor(gsum(g, r as nat), 0, 0, 0);
    if r > 0 {
        assert((r - 1 + 1) as nat == r as nat);
    }
}

/// The polynomial vanishes at the root of every position in the list.
pub open spec fn vanishes(p: Seq<u8>, pos: Seq<int>) -> bool {
    forall|k: int| 0 <= k < pos.len() ==> pev(p, root_at(#[trigger] pos[k])) == 0
}

/// Every entry is a position of a block.
pub open spec fn positions(pos: Seq<int>) -> bool {
    forall|k: int| 0 <= k < pos.len() ==> 0 <= #[trigger] pos[k] < 255
}

/// The erasure locator has constant term one, degree at most the number of
/// erasures, and a root for each of them.
pub proof fn lemma_erasure_locator(eras: Seq<int>)
    requires
        positions(eras),
        eras.len() <= 32,
    ensures
        erasure_locator(eras).len() == 33,
        erasure_locator(eras)[0] == 1,
        forall|i: int| eras.len() < i < 33 ==> erasure_locator(eras)[i] == 0,
        vanishes(erasure_locator(eras), eras),
    decreases eras.len(),
{
    if eras.len() > 0 {
        let front = eras.drop_last();
        let e = eras.last();
        assert(e == eras[eras.len() - 1]);
        assert(positions(front)) by {
            assert forall|k: int| 0 <= k < front.len() implies 0 <= #[trigger] front[k] < 255 by {
                assert(front[k] == eras[k]);
            }
        }
        lemma_erasure_locator(front);
        let g = erasure_locator(front);
        let xg = shift(g);
        let h = erasure_locator(eras);
        let x = locator(e);
        lemma_mul_const(x);
        lemma_xor(1, 0, 0, 0);
        lemma_xor(0, 0, 0, 0);
        assert(xg[0] == 0);
        assert(h[0] == 1);
        assert forall|i: int| eras.len() < i < 33 implies h[i] == 0 by {
            assert(xg[i] == g[i - 1]);
        }
        assert forall|k: int| 0 <= k < eras.len() implies pev(h, root_at(#[trigger] eras[k]))
            == 0 by {
            let y = root_at(eras[k]);
            lemma_pev_combine(g, x, xg, h, y);
            lemma_pev_shift(g, y);
            if k < front.len() {
                assert(front[k] == eras[k]);
                lemma_mul_const(y);
            } else {
                lemma_locator(e);
                lemma_mul_assoc(x, y, pev(g, y));
                lemma_mul_const(pev(g, y));
                lemma_xor(pev(g, y), 0, 0, 0);
            }
        }
    } else {
        assert(vanishes(erasure_locator(eras), eras));
    }
}

/// What the recursion keeps true before it takes in the syndrome `r`.
pub open spec fn bm_inv(st: BmState, s: Seq<u8>, eras: Seq<int>, r: nat) -> bool {
    let n0 = eras.len();
    let m = r + 1 + n0 - st.el;
    &&& st.lambda.len() == 33
    &&& st.b.len() == 33
    &&& n0 <= st.el <= r
    &&& st.lambda[0] == 1
    &&& forall|i: int| st.el < i < 33 ==> st.lambda[i] == 0
    &&& forall|j: int| st.el <= j < r ==> #[trigger] conv(st.lambda, s, j) == 0
    &&& forall|i: int| m <= i < 33 ==> st.b[i] == 0
    &&& st.el > n0 ==> {
        &&& forall|j: int| m - 1 <= j < r - 1 ==> #[trigger] conv(st.b, s, j) == 0
        &&& conv(st.b, s, r - 1) == 1
    }
    &&& vanishes(st.lambda, eras)
    &&& vanishes(st.b, eras)
}

proof fn lemma_bm_step(st: BmState, s: Seq<u8>, eras: Seq<int>, r: nat)
    requires
        bm_inv(st, s, eras, r),
        positions(eras),
        r < 32,
    ensures
        bm_inv(bm_step(st, s, eras.len(), r), s, eras, r + 1),
{
    let n0 = eras.len();
    let m = r + 1 + n0 - st.el;
    let d = conv(st.lambda, s, r as int);
    let xb = shift(st.b);
    let st1 = bm_step(st, s, n0, r);
    let m1 = r + 2 + n0 - st1.el;
    assert(xb.len() == 33);
    assert forall|i: int| 0 < i < 33 implies xb[i] == st.b[i - 1] by {}
    assert(xb[0] == 0);
    assert forall|i: int| m < i < 33 implies xb[i] == 0 by {}
    assert forall|j: int| 0 < j < 32 implies #[trigger] conv(xb, s, j) == conv(
        st.b,
        s,
        j - 1,
    ) by {
        lemma_conv_shift(st.b, s, j);
    }
    assert(vanishes(xb, eras)) by {
        assert(st.b[32] == 0);
        assert forall|k: int| 0 <= k < eras.len() implies pev(xb, root_at(#[trigger] eras[k]))
            == 0 by {
            lemma_pev_shift(st.b, root_at(eras[k]));
            lemma_mul_const(root_at(eras[k]));
        }
    }
    if d == 0 {
        assert(st1.b =~= xb);
        if st.el > n0 {
            assert(conv(xb, s, r as int) == conv(st.b, s, r - 1));
        }
    } else {
        let t = Seq::new(33, |i: int| st.lambda[i] ^ gf_mul(d, xb[i]));
        assert(st1.lambda =~= t);
        lemma_mul_const(d);
        lemma_xor(1, 0, 0, 0);
        lemma_xor(0, 0, 0, 0);
        lemma_xor(d, 0, 0, 0);
        assert(t[0] == 1);
        assert(vanishes(t, eras)) by {
            assert forall|k: int| 0 <= k < eras.len() implies pev(t, root_at(#[trigger] eras[k]))
                == 0 by {
                lemma_pev_combine(st.lambda, d, xb, t, root_at(eras[k]));
            }
        }
        assert forall|i: int| st1.el < i < 33 implies t[i] == 0 by {}
        assert forall|j: int| st1.el <= j < r + 1 implies #[trigger] conv(t, s, j) == 0 by {
            lemma_conv_combine(st.lambda, d, xb, t, s, j);
            if j < r {
                assert(conv(st.lambda, s, j) == 0);
                assert(conv(xb, s, j) == conv(st.b, s, j - 1));
            } else {
                assert(conv(xb, s, j) == conv(st.b, s, j - 1));
            }
        }
        if 2 * st.el <= r + n0 {
            let inv = gf_inv(d);
            lemma_inv(d);
            lemma_mul_const(inv);
            assert forall|i: int| m1 <= i < 33 implies st1.b[i] == 0 by {}
            assert forall|j: int| m1 - 1 <= j < r implies #[trigger] conv(st1.b, s, j) == 0 by {
                lemma_conv_scale(inv, st.lambda, st1.b, s, j);
                assert(conv(st.lambda, s, j) == 0);
            }
            lemma_conv_scale(inv, st.lambda, st1.b, s, r as int);
            assert forall|k: int| 0 <= k < eras.len() implies pev(
                st1.b,
                root_at(#[trigger] eras[k]),
            ) == 0 by {
                lemma_pev_scale(inv, st.lambda, st1.b, root_at(eras[k]));
            }
        } else {
            assert(st1.b =~= xb);
            assert(conv(xb, s, r as int) == conv(st.b, s, r - 1));
        }
    }
}

/// The recursion keeps its invariant.
pub proof fn lemma_bm_inv(s: Seq<u8>, eras: Seq<int>, r: nat)
    requires
        positions(eras),
        eras.len() <= r <= 32,
    ensures
        bm_inv(bm(s, eras, r), s, eras, r),
    decreases r,
{
    if r <= eras.len() {
        lemma_erasure_locator(eras);
    } else {
        lemma_bm_inv(s, eras, (r - 1) as nat);
        lemma_bm_step(bm(s, eras, (r - 1) as nat), s, eras, (r - 1) as nat);
    }
}

/// The locators of a list of positions.
pub open spec fn locators(pos: Seq<int>) -> Seq<u8> {
    Seq::new(pos.len(), |k: int| locator(pos[k]))
}

/// The roots of a list of positions.
pub open spec fn roots_of(pos: Seq<int>) -> Seq<u8> {
    Seq::new(pos.len(), |k: int| root_at(pos[k]))
}

/// The syndromes are the power sums of an error pattern at the given positions.
pub open spec fn follows(s: Seq<u8>, pos: Seq<int>, ws: Seq<u8>) -> bool {
    &&& s.len() == 32
    &&& pos.len() == ws.len()
    &&& positions(pos)
    &&& pos.no_duplicates()
    &&& forall|i: int| 0 <= i < 32 ==> #[trigger] s[i] == psum(locators(pos), ws, i as nat)
}

pub proof fn lemma_points_distinct(pos: Seq<int>)
    requires
        positions(pos),
        pos.no_duplicates(),
    ensures
        distinct(locators(pos)),
        distinct(roots_of(pos)),
        forall|k: int| 0 <= k < pos.len() ==> locators(pos)[k] != 0,
{
    assert forall|i: int, j: int| 0 <= i < j < pos.len() implies locators(pos)[i] != locators(
        pos,
    )[j] && roots_of(pos)[i] != roots_of(pos)[j] by {
        lemma_locator_distinct(pos[i], pos[j]);
    }
    assert forall|k: int| 0 <= k < pos.len() implies locators(pos)[k] != 0 by {
        lemma_locator(pos[k]);
    }
}

/// The weights seen through the polynomial `l`.
pub open spec fn filtered(l: Seq<u8>, pos: Seq<int>, ws: Seq<u8>) -> Seq<u8> {
    Seq::new(pos.len(), |k: int| gf_mul(ws[k], pev(l, root_at(pos[k]))))
}

proof fn lemma_filtered_term(l: Seq<u8>, w: u8, x: u8, y: u8, r: int)
    requires
        l.len() == 33,
        0 <= r < 32,
        gf_mul(x, y) == 1,
        forall|i: int| r < i < 33 ==> l[i] == 0,
    ensures
        gsum(|i: int| gf_mul(l[i], gf_mul(w, gf_pow(x, (r - i) as nat))), (r + 1) as nat) == gf_mul(
            gf_mul(w, pev(l, y)),
            gf_pow(x, r as nat),
        ),
{
    let n = (r + 1) as nat;
    let xr = gf_pow(x, r as nat);
    let c = gf_mul(w, xr);
    let f = |i: int| gf_mul(l[i], gf_mul(w, gf_pow(x, (r - i) as nat)));
    let g = |i: int| gf_mul(l[i], gf_pow(y, i as nat));
    assert forall|i: int| 0 <= i < n implies #[trigger] f(i) == gf_mul(c, g(i)) by {
        let xi = gf_pow(x, i as nat);
        let yi = gf_pow(y, i as nat);
        let xd = gf_pow(x, (r - i) as nat);
        lemma_pow_add(x, (r - i) as nat, i as nat);
        assert(xr == gf_mul(xd, xi));
        lemma_pow_cancel(x, y, i as nat);
        // xr yi = xd
        lemma_mul_assoc(xd, xi, yi);
        lemma_mul_const(xd);
        assert(gf_mul(xr, yi) == xd);
        // l (w xd) = (w xr) (l yi)
        lemma_mul_assoc(w, xr, yi);
        lemma_mul_assoc(c, yi, l[i]);
        lemma_mul_comm(yi, l[i]);
        lemma_mul_comm(gf_mul(c, yi), l[i]);
    }
    lemma_gsum_ext(f, |i: int| gf_mul(c, g(i)), n);
    lemma_gsum_scale(c, g, n);
    assert forall|i: int| n <= i < 33 implies #[trigger] g(i) == 0 by {
        lemma_mul_const(gf_pow(y, i as nat));
    }
    lemma_gsum_extend(g, n, 33);
    lemma_mul_comm(w, pev(l, y));
    lemma_mul_assoc(pev(l, y), w, xr);
    lemma_mul_comm(pev(l, y), c);
}

/// A coefficient of the product beyond the degree of `l` is a power sum of the
/// filtered weights.
pub proof fn lemma_conv_points(l: Seq<u8>, s: Seq<u8>, pos: Seq<int>, ws: Seq<u8>, r: int)
    requires
        l.len() == 33,
        0 <= r < 32,
        forall|i: int| r < i < 33 ==> l[i] == 0,
        follows(s, pos, ws),
    ensures
        conv(l, s, r) == psum(locators(pos), filtered(l, pos, ws), r as nat),
{
    let n = (r + 1) as nat;
    let m = pos.len();
    let xs = locators(pos);
    let f = |i: int, k: int| gf_mul(l[i], gf_mul(ws[k], gf_pow(xs[k], (r - i) as nat)));
    let rows = |i: int| gsum(|k: int| f(i, k), m);
    let cols = |k: int| gsum(|i: int| f(i, k), n);
    assert forall|i: int| 0 <= i < n implies #[trigger] rows(i) == gf_mul(l[i], s[r - i]) by {
        let h = |k: int| gf_mul(ws[k], gf_pow(xs[k], (r - i) as nat));
        lemma_gsum_scale(l[i], h, m);
        lemma_gsum_ext(|k: int| f(i, k), |k: int| gf_mul(l[i], h(k)), m);
        assert(s[r - i] == psum(xs, ws, (r - i) as nat));
    }
    lemma_gsum_ext(rows, |i: int| gf_mul(l[i], s[r - i]), n);
    lemma_gsum_swap(f, n, m);
    let g = |k: int| gf_mul(filtered(l, pos, ws)[k], gf_pow(xs[k], r as nat));
    assert forall|k: int| 0 <= k < m implies #[trigger] cols(k) == g(k) by {
        lemma_locator(pos[k]);
        lemma_filtered_term(l, ws[k], xs[k], root_at(pos[k]), r);
        lemma_gsum_ext(
            |i: int| f(i, k),
            |i: int| gf_mul(l[i], gf_mul(ws[k], gf_pow(xs[k], (r - i) as nat))),
            n,
        );
    }
    lemma_gsum_ext(cols, g, m);
}

/// When the product vanishes at as many consecutive places as there are
/// unerased errors, every filtered weight vanishes.
proof fn lemma_filtered_zero(
    l: Seq<u8>,
    s: Seq<u8>,
    errs: Seq<int>,
    eras: Seq<int>,
    ws: Seq<u8>,
    from: nat,
    to: nat,
)
    requires
        l.len() == 33,
        from + errs.len() <= to <= 32,
        forall|i: int| from < i < 33 ==> l[i] == 0,
        vanishes(l, eras),
        follows(s, errs + eras, ws),
        forall|j: int| from <= j < to ==> #[trigger] conv(l, s, j) == 0,
    ensures
        forall|k: int| 0 <= k < ws.len() ==> filtered(l, errs + eras, ws)[k] == 0,
{
    let pos = errs + eras;
    let v = errs.len();
    let fw = filtered(l, pos, ws);
    let xs = locators(pos);
    assert forall|k: int| v <= k < pos.len() implies fw[k] == 0 by {
        assert(pos[k] == eras[k - v]);
        lemma_mul_const(ws[k]);
    }
    let xs1 = xs.take(v as int);
    let fw1 = fw.take(v as int);
    lemma_points_distinct(pos);
    assert forall|j: nat| from <= j < from + xs1.len() implies psum(xs1, fw1, j) == 0 by {
        lemma_conv_points(l, s, pos, ws, j as int);
        assert(conv(l, s, j as int) == 0);
        let f = |k: int| gf_mul(fw[k], gf_pow(xs[k], j));
        let f1 = |k: int| gf_mul(fw1[k], gf_pow(xs1[k], j));
        assert forall|k: int| v <= k < pos.len() implies #[trigger] f(k) == 0 by {
            lemma_mul_const(gf_pow(xs[k], j));
        }
        lemma_gsum_extend(f, v, pos.len());
        lemma_gsum_ext(f, f1, v);
    }
    lemma_vandermonde(xs1, fw1, from);
    assert forall|k: int| 0 <= k < ws.len() implies fw[k] == 0 by {
        if k < v {
            assert(fw1[k] == 0);
        }
    }
}

/// The register never grows beyond the number of erasures and errors.
proof fn lemma_bm_minimal(s: Seq<u8>, errs: Seq<int>, eras: Seq<int>, ws: Seq<u8>, r: nat)
    requires
        follows(s, errs + eras, ws),
        positions(eras),
        eras.len() <= r <= 32,
    ensures
        bm(s, eras, r).el <= errs.len() + eras.len(),
    decreases r,
{
    if r > eras.len() {
        let q = (r - 1) as nat;
        lemma_bm_minimal(s, errs, eras, ws, q);
        lemma_bm_inv(s, eras, q);
        let st = bm(s, eras, q);
        if conv(st.lambda, s, q as int) != 0 && st.el + errs.len() <= q {
            lemma_filtered_zero(st.lambda, s, errs, eras, ws, st.el, q);
            lemma_conv_points(st.lambda, s, errs + eras, ws, q as int);
            let f = |k: int|
                gf_mul(
                    filtered(st.lambda, errs + eras, ws)[k],
                    gf_pow(locators(errs + eras)[k], q),
                );
            assert forall|k: int| 0 <= k < ws.len() implies #[trigger] f(k) == 0 by {
                lemma_mul_const(gf_pow(locators(errs + eras)[k], q));
            }
            lemma_gsum_zero(f, ws.len());
        }
    }
}

/// For an error pattern within reach the recursion finds its locator: the
/// polynomial of exact degree whose roots are those of the pattern.
pub proof fn lemma_locator_found(s: Seq<u8>, errs: Seq<int>, eras: Seq<int>, ws: Seq<u8>)
    requires
        follows(s, errs + eras, ws),
        positions(eras),
        2 * errs.len() + eras.len() <= 32,
        forall|k: int| 0 <= k < errs.len() ==> ws[k] != 0,
    ensures
        ({
            let st = bm(s, eras, 32);
            let n = errs.len() + eras.len();
            &&& st.el == n
            &&& st.lambda.len() == 33
            &&& st.lambda[0] == 1
            &&& st.lambda[n as int] != 0
            &&& forall|i: int| n < i < 33 ==> st.lambda[i] == 0
            &&& vanishes(st.lambda, errs + eras)
        }),
{
    let st = bm(s, eras, 32);
    let l = st.lambda;
    let pos = errs + eras;
    let n = pos.len();
    lemma_bm_inv(s, eras, 32);
    lemma_bm_minimal(s, errs, eras, ws, 32);
    lemma_filtered_zero(l, s, errs, eras, ws, st.el, 32);
    assert forall|k: int| 0 <= k < pos.len() implies pev(l, root_at(#[trigger] pos[k])) == 0 by {
        if k < errs.len() {
            assert(filtered(l, pos, ws)[k] == 0);
            lemma_mul_zero(ws[k], pev(l, root_at(pos[k])));
        } else {
            assert(pos[k] == eras[k - errs.len()]);
        }
    }
    if st.el < n || l[n as int] == 0 {
        let cut = l.take(n as int);
        assert forall|k: int| 0 <= k < n implies pev(cut, #[trigger] roots_of(pos)[k]) == 0 by {
            lemma_pev_take(l, n as int, roots_of(pos)[k]);
            assert(pev(l, root_at(pos[k])) == 0);
        }
        lemma_points_distinct(pos);
        if n > 0 {
            lemma_roots(cut, roots_of(pos));
            assert(cut[0] == 0);
        }
    }
}

/// A locator of degree `n` that vanishes at `n` positions vanishes nowhere else.
pub proof fn lemma_no_more_roots(l: Seq<u8>, pos: Seq<int>, p: int)
    requires
        l.len() == 33,
        l[0] == 1,
        pos.len() <= 32,
        forall|i: int| pos.len() < i < 33 ==> l[i] == 0,
        positions(pos),
        pos.no_duplicates(),
        vanishes(l, pos),
        0 <= p < 255,
        !pos.contains(p),
    ensures
        pev(l, root_at(p)) != 0,
{
    if pev(l, root_at(p)) == 0 {
        let more = pos.push(p);
        let n = pos.len() as int;
        assert(positions(more));
        assert(more.no_duplicates());
        lemma_points_distinct(more);
        let cut = l.take(n + 1);
        assert forall|k: int| 0 <= k < more.len() implies pev(cut, #[trigger] roots_of(more)[k])
            == 0 by {
            lemma_pev_take(l, n + 1, roots_of(more)[k]);
            if k < n {
                assert(more[k] == pos[k]);
            }
        }
        lemma_roots(cut, roots_of(more));
        assert(cut[0] == 0);
    }
}

proof fn lemma_gsum_split(f: spec_fn(int) -> u8, n: nat, m: nat)
    ensures
        gsum(f, n + m) == gsum(f, n) ^ gsum(|i: int| f(n + i), m),
    decreases m,
{
    let g = |i: int| f(n + i);
    if m > 0 {
        let m1 = (m - 1) as nat;
        lemma_gsum_split(f, n, m1);
        assert(gsum(f, n + m) == gsum(f, n + m1) ^ f(n + m - 1));
        assert(g(m - 1) == f(n + m - 1));
        lemma_xor(gsum(f, n), gsum(g, m1), f(n + m - 1), 0);
    } else {
        lemma_xor(gsum(f, n), 0, 0, 0);
    }
}

/// A polynomial split into its low and high coefficients.
proof fn lemma_pev_split(p: Seq<u8>, n: nat, x: u8)
    requires
        n <= p.len(),
    ensures
        pev(p, x) == pev(p.take(n as int), x) ^ gf_mul(gf_pow(x, n), pev(p.skip(n as int), x)),
{
    let m = (p.len() - n) as nat;
    let xn = gf_pow(x, n);
    let f = |i: int| gf_mul(p[i], gf_pow(x, i as nat));
    let lo = |i: int| gf_mul(p.take(n as int)[i], gf_pow(x, i as nat));
    let hi = |i: int| gf_mul(p.skip(n as int)[i], gf_pow(x, i as nat));
    lemma_gsum_split(f, n, m);
    lemma_gsum_ext(f, lo, n);
    assert forall|i: int| 0 <= i < m implies #[trigger] f(n + i) == gf_mul(xn, hi(i)) by {
        let c = p[n + i];
        let xi = gf_pow(x, i as nat);
        lemma_pow_add(x, n, i as nat);
        assert(gf_pow(x, (n + i) as nat) == gf_mul(xn, xi));
        lemma_mul_comm(c, gf_mul(xn, xi));
        lemma_mul_assoc(xn, xi, c);
        lemma_mul_comm(xi, c);
    }
    lemma_gsum_ext(|i: int| f(n + i), |i: int| gf_mul(xn, hi(i)), m);
    lemma_gsum_scale(xn, hi, m);
}

proof fn lemma_partial(l: Seq<u8>, x: u8, y: u8, i: int)
    requires
        l.len() == 33,
        gf_mul(x, y) == 1,
        pev(l, y) == 0,
        0 <= i < 32,
    ensures
        gsum(|j: int| gf_mul(l[j], gf_pow(x, (i - j) as nat)), (i + 1) as nat) == gf_mul(
            y,
            quot(l, y)[i],
        ),
{
    let n = (i + 1) as nat;
    let xi = gf_pow(x, i as nat);
    let yi = gf_pow(y, i as nat);
    let low = l.take(i + 1);
    let f = |j: int| gf_mul(l[j], gf_pow(x, (i - j) as nat));
    let g = |j: int| gf_mul(low[j], gf_pow(y, j as nat));
    assert forall|j: int| 0 <= j < n implies #[trigger] f(j) == gf_mul(xi, g(j)) by {
        let xd = gf_pow(x, (i - j) as nat);
        let xj = gf_pow(x, j as nat);
        let yj = gf_pow(y, j as nat);
        lemma_pow_add(x, (i - j) as nat, j as nat);
        assert(xi == gf_mul(xd, xj));
        lemma_pow_cancel(x, y, j as nat);
        lemma_mul_assoc(xd, xj, yj);
        lemma_mul_const(xd);
        assert(gf_mul(xi, yj) == xd);
        lemma_mul_comm(l[j], xd);
        lemma_mul_assoc(xi, yj, l[j]);
        lemma_mul_comm(yj, l[j]);
    }
    lemma_gsum_ext(f, |j: int| gf_mul(xi, g(j)), n);
    lemma_gsum_scale(xi, g, n);
    // Since l(y) = 0 the low part equals the high part.
    let high = pev(l.skip(i + 1), y);
    lemma_pev_split(l, n, y);
    let yn = gf_pow(y, n);
    lemma_xor(pev(low, y), gf_mul(yn, high), 0, 0);
    assert(pev(low, y) == gf_mul(yn, high));
    assert(yn == gf_mul(y, yi));
    lemma_mul_assoc(y, yi, high);
    lemma_pow_cancel(x, y, i as nat);
    // xi (y (yi high)) = y high
    lemma_mul_assoc(xi, y, gf_mul(yi, high));
    lemma_mul_comm(xi, y);
    lemma_mul_assoc(y, xi, gf_mul(yi, high));
    lemma_mul_assoc(xi, yi, high);
    lemma_mul_const(high);
}

/// The value at its own root of the polynomial divided by that root factor.
pub open spec fn slope(l: Seq<u8>, y: u8) -> u8 {
    pev(quot(l, y), y)
}

proof fn lemma_slope_step(p: Seq<u8>, a: u8)
    requires
        p.len() >= 2,
    ensures
        slope(p, a) == pev(p.skip(1), a) ^ gf_mul(a, slope(p.skip(1), a)),
{
    let q = quot(p, a);
    let t = p.skip(1);
    let qt = quot(t, a);
    lemma_horner(q, a);
    assert(q.skip(1) =~= qt) by {
        assert forall|i: int| 0 <= i < qt.len() implies q.skip(1)[i] == qt[i] by {
            assert(p.skip(i + 2) =~= t.skip(i + 1));
        }
    }
}

/// The derivative at a point is the slope there.
pub proof fn lemma_derivative(p: Seq<u8>, a: u8)
    ensures
        derivative(p, a) == if p.len() == 0 {
            0
        } else {
            slope(p, a)
        },
    decreases p.len(),
{
    let f = |t: int| gf_mul(p[2 * t + 1], gf_pow(a, (2 * t) as nat));
    if p.len() >= 2 {
        let p1 = p.skip(1);
        let p2 = p.skip(2);
        let a2 = gf_mul(a, a);
        assert(p1.skip(1) =~= p2);
        lemma_derivative(p2, a);
        lemma_slope_step(p, a);
        lemma_horner(p1, a);
        let d2 = derivative(p2, a);
        let v2 = pev(p2, a);
        let n = p2.len() / 2;
        let g = |t: int| gf_mul(p2[2 * t + 1], gf_pow(a, (2 * t) as nat));
        assert(p.len() / 2 == n + 1);
        lemma_gsum_first(f, n);
        assert(gf_pow(a, 0) == 1);
        lemma_mul_const(p[1]);
        assert forall|t: int| 0 <= t < n implies #[trigger] f(t + 1) == gf_mul(a2, g(t)) by {
            let w = gf_pow(a, (2 * t) as nat);
            let c = p2[2 * t + 1];
            assert(c == p[2 * (t + 1) + 1]);
            assert(gf_pow(a, (2 * t + 1) as nat) == gf_mul(a, w));
            assert(gf_pow(a, (2 * t + 2) as nat) == gf_mul(a, gf_mul(a, w)));
            lemma_mul_assoc(a, a, w);
            lemma_mul_comm(c, gf_mul(a2, w));
            lemma_mul_assoc(a2, w, c);
            lemma_mul_comm(w, c);
        }
        lemma_gsum_ext(|t: int| f(t + 1), |t: int| gf_mul(a2, g(t)), n);
        lemma_gsum_scale(a2, g, n);
        assert(derivative(p, a) == p[1] ^ gf_mul(a2, d2));
        if p.len() == 2 {
            assert(p2 =~= Seq::<u8>::empty());
            assert(quot(p1, a) =~= Seq::<u8>::empty());
            lemma_mul_const(a);
            lemma_mul_const(a2);
            lemma_xor(p[1], 0, 0, 0);
        } else {
            lemma_slope_step(p1, a);
            let s2 = slope(p2, a);
            lemma_mul_add(a, v2, gf_mul(a, s2));
            lemma_mul_assoc(a, a, s2);
            let u = gf_mul(a, v2);
            let w = gf_mul(a2, s2);
            lemma_xor(p[1], u, u, w);
            lemma_xor(u, w, 0, 0);
            assert((p[1] ^ u) ^ (u ^ w) == (p[1] ^ u) ^ (u ^ w));
            lemma_xor(p[1] ^ u, u, w, 0);
        }
    } else if p.len() == 1 {
        assert(quot(p, a) =~= Seq::<u8>::empty());
    }
}

/// A locator with as many roots as its degree has no double root.
pub proof fn lemma_slope_nonzero(l: Seq<u8>, pos: Seq<int>, k: int)
    requires
        l.len() == 33,
        l[0] == 1,
        pos.len() <= 32,
        forall|i: int| pos.len() < i < 33 ==> l[i] == 0,
        positions(pos),
        pos.no_duplicates(),
        vanishes(l, pos),
        0 <= k < pos.len(),
    ensures
        slope(l, root_at(pos[k])) != 0,
{
    let y = root_at(pos[k]);
    let d = pos.len() as int;
    let q = quot(l, y);
    lemma_quot_degree(l, y, d);
    if slope(l, y) == 0 {
        let cut = q.take(d);
        let roots = roots_of(pos);
        lemma_points_distinct(pos);
        assert forall|m: int| 0 <= m < d implies pev(cut, #[trigger] roots[m]) == 0 by {
            lemma_pev_take(q, d, roots[m]);
            if m != k {
                assert(roots[m] != roots[k]);
                lemma_other_root(l, y, root_at(pos[m]));
            }
        }
        lemma_roots(cut, roots);
        lemma_quot(l, y, 0);
        lemma_horner(l, 0);
        lemma_mul_const(pev(l.skip(1), 0));
        lemma_xor(1, 0, 0, 0);
        assert(pev(l, 0) == 1);
        assert forall|i: int| 0 <= i < 32 implies q[i] == 0 by {
            if i < d {
                assert(cut[i] == 0);
            }
        }
        lemma_pev_take(q, 0, 0);
        assert(q.take(0) =~= Seq::<u8>::empty());
        lemma_mul_const(0u8 ^ y);
        lemma_xor(0, 0, 0, 0);
    }
}

proof fn lemma_quot_degree(l: Seq<u8>, y: u8, d: int)
    requires
        l.len() == 33,
        0 <= d <= 32,
        forall|i: int| d < i < 33 ==> l[i] == 0,
    ensures
        quot(l, y).len() == 32,
        forall|i: int| d <= i < 32 ==> quot(l, y)[i] == 0,
{
    assert forall|i: int| d <= i < 32 implies quot(l, y)[i] == 0 by {
        let t = l.skip(i + 1);
        lemma_pev_take(t, 0, y);
        assert(t.take(0) =~= Seq::<u8>::empty());
    }
}

proof fn lemma_other_root(l: Seq<u8>, y: u8, z: u8)
    requires
        l.len() == 33,
        pev(l, y) == 0,
        pev(l, z) == 0,
        y != z,
    ensures
        pev(quot(l, y), z) == 0,
{
    lemma_quot(l, y, z);
    lemma_xor(gf_mul(z ^ y, pev(quot(l, y), z)), 0, 0, 0);
    lemma_xor(z, y, 0, 0);
    lemma_mul_zero(z ^ y, pev(quot(l, y), z));
}

/// The evaluator at a root singles out the weight of that root.
pub proof fn lemma_evaluator(l: Seq<u8>, s: Seq<u8>, pos: Seq<int>, ws: Seq<u8>, d: nat, k: int)
    requires
        l.len() == 33,
        d <= 32,
        forall|i: int| d < i < 33 ==> l[i] == 0,
        follows(s, pos, ws),
        vanishes(l, pos),
        0 <= k < pos.len(),
    ensures
        evaluator(l, s, d, root_at(pos[k])) == gf_mul(
            ws[k],
            gf_mul(root_at(pos[k]), slope(l, root_at(pos[k]))),
        ),
{
    let y = root_at(pos[k]);
    let m = pos.len();
    let xs = locators(pos);
    // The i-th coefficient is the sum over the pattern of ws * Y * quot[i].
    let c = |t: int| gf_mul(ws[t], root_at(pos[t]));
    let f = |i: int, t: int|
        gf_mul(c(t), gf_mul(quot(l, root_at(pos[t]))[i], gf_pow(y, i as nat)));
    let rows = |i: int| gsum(|t: int| f(i, t), m);
    let cols = |t: int| gsum(|i: int| f(i, t), d);
    let terms = |i: int| gf_mul(conv(l, s, i), gf_pow(y, i as nat));
    assert forall|i: int| 0 <= i < d implies #[trigger] terms(i) == rows(i) by {
        lemma_conv_weights(l, s, pos, ws, i);
        let yi = gf_pow(y, i as nat);
        let g = |t: int| gf_mul(c(t), quot(l, root_at(pos[t]))[i]);
        lemma_gsum_ext(
            |t: int| gf_mul(gf_mul(ws[t], root_at(pos[t])), quot(l, root_at(pos[t]))[i]),
            g,
            m,
        );
        lemma_gsum_scale(yi, g, m);
        lemma_mul_comm(yi, conv(l, s, i));
        assert forall|t: int| 0 <= t < m implies #[trigger] f(i, t) == gf_mul(yi, g(t)) by {
            let q = quot(l, root_at(pos[t]))[i];
            lemma_mul_assoc(c(t), q, yi);
            lemma_mul_comm(yi, gf_mul(c(t), q));
        }
        lemma_gsum_ext(|t: int| f(i, t), |t: int| gf_mul(yi, g(t)), m);
    }
    lemma_gsum_ext(terms, rows, d);
    lemma_gsum_swap(f, d, m);
    lemma_points_distinct(pos);
    assert forall|t: int| 0 <= t < m implies #[trigger] cols(t) == gf_mul(
        c(t),
        pev(quot(l, root_at(pos[t])), y),
    ) by {
        let q = quot(l, root_at(pos[t]));
        let h = |i: int| gf_mul(q[i], gf_pow(y, i as nat));
        lemma_gsum_scale(c(t), h, d);
        lemma_gsum_ext(|i: int| f(i, t), |i: int| gf_mul(c(t), h(i)), d);
        lemma_quot_degree(l, root_at(pos[t]), d as int);
        assert forall|i: int| d <= i < 32 implies #[trigger] h(i) == 0 by {
            lemma_mul_const(gf_pow(y, i as nat));
        }
        lemma_gsum_extend(h, d, 32);
    }
    assert forall|t: int| 0 <= t < m && t != k implies #[trigger] cols(t) == 0 by {
        assert(roots_of(pos)[t] != roots_of(pos)[k]);
        lemma_other_root(l, root_at(pos[t]), y);
        lemma_mul_const(c(t));
    }
    lemma_gsum_single(cols, m, k);
    lemma_mul_assoc(ws[k], y, slope(l, y));
}

proof fn lemma_conv_weights(l: Seq<u8>, s: Seq<u8>, pos: Seq<int>, ws: Seq<u8>, i: int)
    requires
        l.len() == 33,
        follows(s, pos, ws),
        vanishes(l, pos),
        0 <= i < 32,
    ensures
        conv(l, s, i) == gsum(
            |t: int| gf_mul(gf_mul(ws[t], root_at(pos[t])), quot(l, root_at(pos[t]))[i]),
            pos.len(),
        ),
{
    let n = (i + 1) as nat;
    let m = pos.len();
    let xs = locators(pos);
    let f = |j: int, t: int| gf_mul(l[j], gf_mul(ws[t], gf_pow(xs[t], (i - j) as nat)));
    let rows = |j: int| gsum(|t: int| f(j, t), m);
    let cols = |t: int| gsum(|j: int| f(j, t), n);
    assert forall|j: int| 0 <= j < n implies #[trigger] rows(j) == gf_mul(l[j], s[i - j]) by {
        let h = |t: int| gf_mul(ws[t], gf_pow(xs[t], (i - j) as nat));
        lemma_gsum_scale(l[j], h, m);
        lemma_gsum_ext(|t: int| f(j, t), |t: int| gf_mul(l[j], h(t)), m);
        assert(s[i - j] == psum(xs, ws, (i - j) as nat));
    }
    lemma_gsum_ext(rows, |j: int| gf_mul(l[j], s[i - j]), n);
    lemma_gsum_swap(f, n, m);
    let g = |t: int| gf_mul(gf_mul(ws[t], root_at(pos[t])), quot(l, root_at(pos[t]))[i]);
    assert forall|t: int| 0 <= t < m implies #[trigger] cols(t) == g(t) by {
        let y = root_at(pos[t]);
        lemma_locator(pos[t]);
        lemma_partial(l, xs[t], y, i);
        let h = |j: int| gf_mul(l[j], gf_pow(xs[t], (i - j) as nat));
        lemma_gsum_scale(ws[t], h, n);
        assert forall|j: int| 0 <= j < n implies #[trigger] f(j, t) == gf_mul(ws[t], h(j)) by {
            let w = gf_pow(xs[t], (i - j) as nat);
            lemma_mul_assoc(l[j], ws[t], w);
            lemma_mul_comm(l[j], ws[t]);
            lemma_mul_assoc(ws[t], l[j], w);
        }
        lemma_gsum_ext(|j: int| f(j, t), |j: int| gf_mul(ws[t], h(j)), n);
        lemma_mul_assoc(ws[t], y, quot(l, y)[i]);
    }
    lemma_gsum_ext(cols, g, m);
}

/// Forney's value is the error value.
pub proof fn lemma_forney(
    l: Seq<u8>,
    s: Seq<u8>,
    pos: Seq<int>,
    ws: Seq<u8>,
    k: int,
    e: u8,
)
    requires
        l.len() == 33,
        l[0] == 1,
        pos.len() <= 32,
        forall|i: int| pos.len() < i < 33 ==> l[i] == 0,
        follows(s, pos, ws),
        vanishes(l, pos),
        0 <= k < pos.len(),
        ws[k] == weight(e, pos[k]),
    ensures
        forney(l, s, pos.len(), root_at(pos[k])) == e,
        derivative(l, root_at(pos[k])) != 0,
{
    let y = root_at(pos[k]);
    let x = locator(pos[k]);
    let d = slope(l, y);
    lemma_derivative(l, y);
    lemma_slope_nonzero(l, pos, k);
    lemma_evaluator(l, s, pos, ws, pos.len(), k);
    lemma_locator(pos[k]);
    let x112 = gf_pow(x, 112);
    let y111 = gf_pow(y, 111);
    let y112 = gf_pow(y, 112);
    lemma_pow_cancel(x, y, 112);
    assert(y112 == gf_mul(y, y111));
    // ((e x112) (y d)) y111 = e d
    let ev = gf_mul(gf_mul(e, x112), gf_mul(y, d));
    lemma_mul_comm(gf_mul(e, x112), gf_mul(y, d));
    lemma_mul_comm(ev, y111);
    lemma_mul_assoc(y111, gf_mul(y, d), gf_mul(e, x112));
    lemma_mul_assoc(y111, y, d);
    lemma_mul_comm(y111, y);
    assert(gf_mul(ev, y111) == gf_mul(gf_mul(y112, d), gf_mul(e, x112)));
    lemma_mul_comm(gf_mul(y112, d), gf_mul(e, x112));
    lemma_mul_assoc(e, x112, gf_mul(y112, d));
    lemma_mul_assoc(x112, y112, d);
    lemma_mul_const(d);
    assert(gf_mul(ev, y111) == gf_mul(e, d));
    lemma_mul_assoc(e, d, gf_inv(d));
    lemma_inv(d);
    lemma_mul_const(e);
}

} // verus!
