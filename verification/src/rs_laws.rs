//! What the Reed-Solomon decoder promises: error patterns within reach are
//! taken out, and what it accepts is a codeword.
use vstd::prelude::*;
use crate::gf256::{
    gf_inv, gf_mul, gf_pow, lemma_add_mul, lemma_inv, lemma_mul_assoc, lemma_mul_comm,
    lemma_mul_const, lemma_mul_zero, lemma_pow_add, lemma_pow_cancel, lemma_pow_nonzero, lemma_xor,
};
use crate::poly::{
    gsum, lemma_gsum_add, lemma_gsum_ext, lemma_gsum_first, lemma_gsum_single, lemma_gsum_zero,
    lemma_roots, lemma_vandermonde, pev, psum,
};
use crate::rs_code::{
    bm, conv, corrected, decode_block_spec, degree, derivative, evaluator, forney, is_codeword,
    locator, root_at, root_positions, syndrome, syndromes, weight,
};
use crate::rs_lemmas::{
    filtered, follows, lemma_bm_inv, lemma_conv_points, lemma_derivative, lemma_evaluator,
    lemma_forney, lemma_locator, lemma_locator_found, lemma_no_more_roots, lemma_points_distinct,
    lemma_slope_nonzero, locators, positions, roots_of,
};

verus! {

/// Positions below `n`, outside `eras`, at which the two blocks differ.
pub open spec fn mismatches(a: Seq<u8>, b: Seq<u8>, eras: Seq<int>, n: nat) -> Seq<int>
    decreases n,
{
    if n == 0 {
        Seq::empty()
    } else {
        let before = mismatches(a, b, eras, (n - 1) as nat);
        if a[n - 1] != b[n - 1] && !eras.contains(n - 1) {
            before.push(n - 1)
        } else {
            before
        }
    }
}

/// The number of positions at which two blocks differ.
pub open spec fn distance(a: Seq<u8>, b: Seq<u8>) -> nat {
    mismatches(a, b, Seq::empty(), 255).len()
}

proof fn lemma_mismatches(a: Seq<u8>, b: Seq<u8>, eras: Seq<int>, n: nat)
    ensures
        mismatches(a, b, eras, n).no_duplicates(),
        forall|p: int|
            mismatches(a, b, eras, n).contains(p) <==> (0 <= p < n && a[p] != b[p]
                && !eras.contains(p)),
        forall|k: int|
            0 <= k < mismatches(a, b, eras, n).len() ==> 0 <= #[trigger] mismatches(
                a,
                b,
                eras,
                n,
            )[k] < n,
    decreases n,
{
    let m = mismatches(a, b, eras, n);
    if n > 0 {
        let before = mismatches(a, b, eras, (n - 1) as nat);
        lemma_mismatches(a, b, eras, (n - 1) as nat);
        if a[n - 1] != b[n - 1] && !eras.contains(n - 1) {
            assert forall|p: int| m.contains(p) <==> (0 <= p < n && a[p] != b[p] && !eras.contains(
                p,
            )) by {
                if before.contains(p) {
                    let k = choose|k: int| 0 <= k < before.len() && before[k] == p;
                    assert(m[k] == p);
                }
                if p == n - 1 {
                    assert(m[m.len() - 1] == p);
                }
                if m.contains(p) {
                    let k = choose|k: int| 0 <= k < m.len() && m[k] == p;
                    if k < before.len() {
                        assert(before[k] == p);
                    }
                }
            }
        }
    }
}

/// The root list holds exactly the positions of the roots, in ascending order.
pub proof fn lemma_root_positions(l: Seq<u8>, n: nat)
    ensures
        forall|p: int|
            root_positions(l, n).contains(p) <==> (0 <= p < n && pev(l, root_at(p)) == 0),
        forall|i: int, j: int|
            0 <= i < j < root_positions(l, n).len() ==> root_positions(l, n)[i] < root_positions(
                l,
                n,
            )[j],
        forall|k: int|
            0 <= k < root_positions(l, n).len() ==> 0 <= #[trigger] root_positions(l, n)[k] < n
                && pev(l, root_at(root_positions(l, n)[k])) == 0,
    decreases n,
{
    let m = root_positions(l, n);
    if n > 0 {
        let before = root_positions(l, (n - 1) as nat);
        lemma_root_positions(l, (n - 1) as nat);
        if pev(l, root_at(n - 1)) == 0 {
            assert forall|p: int| m.contains(p) <==> (0 <= p < n && pev(l, root_at(p)) == 0) by {
                if before.contains(p) {
                    let k = choose|k: int| 0 <= k < before.len() && before[k] == p;
                    assert(m[k] == p);
                }
                if p == n - 1 {
                    assert(m[m.len() - 1] == p);
                }
                if m.contains(p) {
                    let k = choose|k: int| 0 <= k < m.len() && m[k] == p;
                    if k < before.len() {
                        assert(before[k] == p);
                    }
                }
            }
        }
    }
}

/// A sum whose terms vanish off a list of indices is the sum over the list.
proof fn lemma_gsum_support(f: spec_fn(int) -> u8, n: nat, pos: Seq<int>)
    requires
        pos.no_duplicates(),
        forall|k: int| 0 <= k < pos.len() ==> 0 <= #[trigger] pos[k] < n,
        forall|p: int| 0 <= p < n && !pos.contains(p) ==> #[trigger] f(p) == 0,
    ensures
        gsum(f, n) == gsum(|k: int| f(pos[k]), pos.len()),
    decreases pos.len(),
{
    if pos.len() == 0 {
        lemma_gsum_zero(f, n);
    } else {
        let front = pos.drop_last();
        let q = pos.last();
        assert(pos[pos.len() - 1] == q);
        let g = |p: int| if p == q { 0u8 } else { f(p) };
        let h = |p: int| if p == q { f(p) } else { 0u8 };
        assert forall|p: int| 0 <= p < n && !front.contains(p) implies #[trigger] g(p) == 0 by {
            if p != q && pos.contains(p) {
                let k = choose|k: int| 0 <= k < pos.len() && pos[k] == p;
                assert(front[k] == p);
            }
        }
        assert forall|k: int| 0 <= k < front.len() implies 0 <= #[trigger] front[k] < n by {
            assert(front[k] == pos[k]);
        }
        lemma_gsum_support(g, n, front);
        lemma_gsum_single(h, n, q);
        lemma_gsum_add(g, h, n);
        assert forall|p: int| 0 <= p < n implies #[trigger] f(p) == g(p) ^ h(p) by {
            lemma_xor(f(p), 0, 0, 0);
        }
        lemma_gsum_ext(f, |p: int| g(p) ^ h(p), n);
        assert forall|k: int| 0 <= k < front.len() implies #[trigger] g(front[k]) == f(pos[k]) by {
            assert(pos[k] != pos[pos.len() - 1]);
        }
        lemma_gsum_ext(|k: int| g(front[k]), |k: int| f(pos[k]), front.len());
    }
}

/// The syndromes of a sum of blocks are the sums of the syndromes.
pub proof fn lemma_syndrome_add(a: Seq<u8>, b: Seq<u8>, c: Seq<u8>, i: nat)
    requires
        forall|p: int| 0 <= p < 255 ==> c[p] == a[p] ^ b[p],
    ensures
        syndrome(c, i) == syndrome(a, i) ^ syndrome(b, i),
{
    let f = |p: int| gf_mul(a[p], gf_pow(locator(p), 112 + i));
    let g = |p: int| gf_mul(b[p], gf_pow(locator(p), 112 + i));
    let h = |p: int| gf_mul(c[p], gf_pow(locator(p), 112 + i));
    assert forall|p: int| 0 <= p < 255 implies #[trigger] h(p) == f(p) ^ g(p) by {
        lemma_add_mul(a[p], b[p], gf_pow(locator(p), 112 + i));
    }
    lemma_gsum_ext(h, |p: int| f(p) ^ g(p), 255);
    lemma_gsum_add(f, g, 255);
}

/// The weights of an error pattern.
pub open spec fn weights(e: Seq<u8>, pos: Seq<int>) -> Seq<u8> {
    Seq::new(pos.len(), |k: int| weight(e[pos[k]], pos[k]))
}

/// The syndromes of a block that is zero off a list of positions.
proof fn lemma_syndrome_support(e: Seq<u8>, pos: Seq<int>, i: nat)
    requires
        positions(pos),
        pos.no_duplicates(),
        forall|p: int| 0 <= p < 255 && !pos.contains(p) ==> #[trigger] e[p] == 0,
    ensures
        syndrome(e, i) == psum(locators(pos), weights(e, pos), i),
{
    let f = |p: int| gf_mul(e[p], gf_pow(locator(p), 112 + i));
    assert forall|p: int| 0 <= p < 255 && !pos.contains(p) implies #[trigger] f(p) == 0 by {
        lemma_mul_const(gf_pow(locator(p), 112 + i));
    }
    lemma_gsum_support(f, 255, pos);
    let g = |k: int| gf_mul(weights(e, pos)[k], gf_pow(locators(pos)[k], i));
    assert forall|k: int| 0 <= k < pos.len() implies #[trigger] f(pos[k]) == g(k) by {
        let x = locator(pos[k]);
        lemma_pow_add(x, 112, i);
        lemma_mul_assoc(e[pos[k]], gf_pow(x, 112), gf_pow(x, i));
    }
    lemma_gsum_ext(|k: int| f(pos[k]), g, pos.len());
}

proof fn lemma_weight_zero(v: u8, p: int)
    requires
        0 <= p < 255,
    ensures
        weight(v, p) == 0 <==> v == 0,
{
    lemma_locator(p);
    lemma_pow_nonzero(locator(p), 112);
    lemma_mul_zero(v, gf_pow(locator(p), 112));
}

/// A block that is zero off at most 32 positions and has no syndromes is zero.
pub proof fn lemma_light_codeword(e: Seq<u8>, pos: Seq<int>)
    requires
        positions(pos),
        pos.no_duplicates(),
        pos.len() <= 32,
        forall|p: int| 0 <= p < 255 && !pos.contains(p) ==> #[trigger] e[p] == 0,
        forall|i: nat| i < 32 ==> syndrome(e, i) == 0,
    ensures
        forall|p: int| 0 <= p < 255 ==> e[p] == 0,
{
    lemma_points_distinct(pos);
    let ws = weights(e, pos);
    assert forall|j: nat| 0 <= j < 0 + pos.len() implies psum(locators(pos), ws, j) == 0 by {
        lemma_syndrome_support(e, pos, j);
    }
    lemma_vandermonde(locators(pos), ws, 0);
    assert forall|p: int| 0 <= p < 255 implies e[p] == 0 by {
        if pos.contains(p) {
            let k = choose|k: int| 0 <= k < pos.len() && pos[k] == p;
            assert(ws[k] == 0);
            lemma_weight_zero(e[p], p);
        }
    }
}

proof fn lemma_degree(l: Seq<u8>, n: nat, d: nat)
    requires
        d < n <= l.len(),
        l[d as int] != 0,
        forall|i: int| d < i < n ==> l[i] == 0,
    ensures
        degree(l, n) == d,
    decreases n,
{
    if n > d + 1 {
        lemma_degree(l, (n - 1) as nat, d);
    }
}

/// The degree is the last place with a non-zero coefficient.
pub proof fn lemma_degree_zero_above(l: Seq<u8>, n: nat)
    requires
        0 < n <= l.len(),
    ensures
        degree(l, n) < n,
        forall|i: int| degree(l, n) < i < n ==> l[i] == 0,
        degree(l, n) > 0 ==> l[degree(l, n) as int] != 0,
    decreases n,
{
    if n > 1 && l[n - 1] == 0 {
        lemma_degree_zero_above(l, (n - 1) as nat);
    }
}

/// The list of positions that an error pattern may touch.
pub open spec fn touched(data: Seq<u8>, code: Seq<u8>, eras: Seq<int>) -> Seq<int> {
    mismatches(data, code, eras, 255) + eras
}

/// The difference of two blocks.
pub open spec fn difference(a: Seq<u8>, b: Seq<u8>) -> Seq<u8> {
    Seq::new(255, |p: int| a[p] ^ b[p])
}

proof fn lemma_touched(data: Seq<u8>, code: Seq<u8>, eras: Seq<int>)
    requires
        data.len() == 255,
        is_codeword(code),
        positions(eras),
        eras.no_duplicates(),
    ensures
        ({
            let pos = touched(data, code, eras);
            let e = difference(data, code);
            &&& positions(pos)
            &&& pos.no_duplicates()
            &&& forall|p: int| 0 <= p < 255 && !pos.contains(p) ==> #[trigger] e[p] == 0
            &&& forall|i: nat| i < 32 ==> syndrome(data, i) == syndrome(e, i)
            &&& follows(syndromes(data), pos, weights(e, pos))
        }),
{
    let errs = mismatches(data, code, eras, 255);
    let pos = errs + eras;
    let e = difference(data, code);
    lemma_mismatches(data, code, eras, 255);
    assert forall|k: int| 0 <= k < pos.len() implies 0 <= #[trigger] pos[k] < 255 by {
        if k >= errs.len() {
            assert(pos[k] == eras[k - errs.len()]);
        }
    }
    assert forall|i: int, j: int| 0 <= i < pos.len() && 0 <= j < pos.len() && i != j implies pos[i]
        != pos[j] by {
        if i < errs.len() && j >= errs.len() {
            assert(errs.contains(pos[i]));
            assert(eras.contains(pos[j])) by {
                assert(eras[j - errs.len()] == pos[j]);
            }
        }
        if j < errs.len() && i >= errs.len() {
            assert(errs.contains(pos[j]));
            assert(eras.contains(pos[i])) by {
                assert(eras[i - errs.len()] == pos[i]);
            }
        }
    }
    assert forall|p: int| 0 <= p < 255 && !pos.contains(p) implies #[trigger] e[p] == 0 by {
        if errs.contains(p) {
            let k = choose|k: int| 0 <= k < errs.len() && errs[k] == p;
            assert(pos[k] == p);
        }
        if eras.contains(p) {
            let k = choose|k: int| 0 <= k < eras.len() && eras[k] == p;
            assert(pos[k + errs.len()] == p);
        }
        lemma_xor(data[p], data[p], 0, 0);
    }
    assert forall|i: nat| i < 32 implies syndrome(data, i) == syndrome(e, i) by {
        lemma_syndrome_add(data, code, e, i);
        lemma_xor(syndrome(data, i), 0, 0, 0);
        assert(syndrome(code, i) == 0);
    }
    assert forall|i: int| 0 <= i < 32 implies #[trigger] syndromes(data)[i] == psum(
        locators(pos),
        weights(e, pos),
        i as nat,
    ) by {
        lemma_syndrome_support(e, pos, i as nat);
        assert(syndrome(data, i as nat) == syndrome(e, i as nat));
    }
}

/// Errors and erasures are corrected together: a block that differs from a
/// codeword at `v` unerased positions, with `2 v` plus the number of erasures at
/// most 32, decodes to that codeword, and the count reported is `v` plus the
/// number of erasures (zero when the block was a codeword already).
pub proof fn law_corrects_errors_and_erasures(
    data: Seq<u8>,
    code: Seq<u8>,
    pad: int,
    eras: Seq<int>,
)
    requires
        data.len() == 255,
        is_codeword(code),
        0 <= pad <= 255,
        forall|p: int| 0 <= p < pad ==> data[p] == code[p],
        positions(eras),
        eras.no_duplicates(),
        forall|k: int| 0 <= k < eras.len() ==> pad <= #[trigger] eras[k],
        2 * mismatches(data, code, eras, 255).len() + eras.len() <= 32,
    ensures
        decode_block_spec(data, pad, eras) == Some(
            (
                code,
                if is_codeword(data) {
                    0
                } else {
                    mismatches(data, code, eras, 255).len() + eras.len()
                },
            ),
        ),
{
    let s = syndromes(data);
    let errs = mismatches(data, code, eras, 255);
    let pos = touched(data, code, eras);
    let n = pos.len();
    let e = difference(data, code);
    let ws = weights(e, pos);
    lemma_mismatches(data, code, eras, 255);
    lemma_touched(data, code, eras);
    if forall|i: nat| i < 32 ==> syndrome(data, i) == 0 {
        lemma_light_codeword(e, pos);
        assert(data =~= code) by {
            assert forall|p: int| 0 <= p < 255 implies data[p] == code[p] by {
                assert(e[p] == 0);
                lemma_xor(data[p], code[p], 0, 0);
            }
        }
    } else {
        let i0 = choose|i: nat| i < 32 && syndrome(data, i) != 0;
        assert(s[i0 as int] != 0);
        assert(n > 0);
        assert forall|k: int| 0 <= k < errs.len() implies ws[k] != 0 by {
            assert(errs.contains(errs[k]));
            let p = errs[k];
            lemma_xor(data[p], code[p], 0, 0);
            lemma_weight_zero(e[p], p);
        }
        lemma_locator_found(s, errs, eras, ws);
        let l = bm(s, eras, 32).lambda;
        let d = degree(l, 33);
        let roots = root_positions(l, 255);
        lemma_degree(l, 33, n);
        lemma_root_positions(l, 255);
        assert forall|p: int| pos.contains(p) <==> roots.contains(p) by {
            if pos.contains(p) {
                let k = choose|k: int| 0 <= k < pos.len() && pos[k] == p;
                assert(pev(l, root_at(pos[k])) == 0);
            } else if 0 <= p < 255 {
                lemma_no_more_roots(l, pos, p);
            }
        }
        assert(roots.no_duplicates());
        lemma_same_length(roots, pos);
        assert(roots.contains(roots[0]));
        assert(roots[0] >= pad) by {
            let p = roots[0];
            assert(pos.contains(p));
            let k = choose|k: int| 0 <= k < pos.len() && pos[k] == p;
            if k < errs.len() {
                assert(errs[k] == p);
                assert(errs.contains(p));
                assert(data[p] != code[p]);
            } else {
                assert(eras[k - errs.len()] == pos[k]);
            }
        }
        let fixed = corrected(data, l, s, d);
        assert forall|p: int| 0 <= p < 255 implies fixed[p] == code[p] by {
            if pos.contains(p) {
                let k = choose|k: int| 0 <= k < pos.len() && pos[k] == p;
                lemma_forney(l, s, pos, ws, k, e[p]);
                assert(roots.contains(p));
                lemma_xor(data[p], code[p], 0, 0);
            } else {
                assert(!roots.contains(p));
                assert(e[p] == 0);
                lemma_xor(data[p], code[p], 0, 0);
            }
        }
        assert(fixed =~= code);
    }
}

proof fn lemma_same_length(a: Seq<int>, b: Seq<int>)
    requires
        a.no_duplicates(),
        b.no_duplicates(),
        forall|p: int| a.contains(p) <==> b.contains(p),
    ensures
        a.len() == b.len(),
{
    a.unique_seq_to_set();
    b.unique_seq_to_set();
    assert(a.to_set() =~= b.to_set());
}

/// The recursion found a locator whose degree is its register length, at most
/// 16, and which has as many roots as its degree.
pub open spec fn locates(data: Seq<u8>) -> bool {
    let st = bm(syndromes(data), Seq::empty(), 32);
    let d = degree(st.lambda, 33);
    &&& st.el == d
    &&& 1 <= d <= 16
    &&& root_positions(st.lambda, 255).len() == d
}

/// The convolution with a polynomial of constant term one determines the sequence.
proof fn lemma_conv_injective(l: Seq<u8>, s: Seq<u8>, t: Seq<u8>, n: nat)
    requires
        l.len() == 33,
        l[0] == 1,
        n <= 32,
        forall|i: int| 0 <= i < n ==> #[trigger] conv(l, s, i) == conv(l, t, i),
    ensures
        forall|i: int| 0 <= i < n ==> s[i] == t[i],
    decreases n,
{
    if n > 0 {
        let r = n - 1;
        lemma_conv_injective(l, s, t, r as nat);
        let f = |i: int| gf_mul(l[i], s[r - i]);
        let g = |i: int| gf_mul(l[i], t[r - i]);
        lemma_gsum_first(f, r as nat);
        lemma_gsum_first(g, r as nat);
        lemma_gsum_ext(|i: int| f(i + 1), |i: int| g(i + 1), r as nat);
        assert(conv(l, s, r) == conv(l, t, r));
        lemma_mul_const(s[r]);
        lemma_mul_const(t[r]);
        let rest = gsum(|i: int| f(i + 1), r as nat);
        lemma_xor(s[r], rest, 0, 0);
        lemma_xor(t[r], rest, 0, 0);
    }
}

/// Forney's values reproduce the evaluator at the roots.
proof fn lemma_forney_inverse(l: Seq<u8>, s: Seq<u8>, d: nat, p: int)
    requires
        0 <= p < 255,
        derivative(l, root_at(p)) != 0,
    ensures
        gf_mul(
            weight(forney(l, s, d, root_at(p)), p),
            gf_mul(root_at(p), derivative(l, root_at(p))),
        ) == evaluator(l, s, d, root_at(p)),
{
    let y = root_at(p);
    let x = locator(p);
    let dv = derivative(l, y);
    let ev = evaluator(l, s, d, y);
    let y111 = gf_pow(y, 111);
    let y112 = gf_pow(y, 112);
    let x112 = gf_pow(x, 112);
    let iv = gf_inv(dv);
    let f = gf_mul(gf_mul(ev, y111), iv);
    lemma_locator(p);
    lemma_pow_cancel(x, y, 112);
    lemma_inv(dv);
    assert(y112 == gf_mul(y, y111));
    // (f x112) (y dv) = ((f dv) y) x112
    lemma_mul_comm(f, x112);
    lemma_mul_comm(y, dv);
    lemma_mul_assoc(x112, f, gf_mul(dv, y));
    lemma_mul_assoc(f, dv, y);
    lemma_mul_assoc(gf_mul(ev, y111), iv, dv);
    lemma_mul_const(gf_mul(ev, y111));
    assert(gf_mul(f, dv) == gf_mul(ev, y111));
    lemma_mul_assoc(ev, y111, y);
    lemma_mul_comm(y111, y);
    assert(gf_mul(f, gf_mul(dv, y)) == gf_mul(ev, y112));
    lemma_mul_comm(ev, y112);
    lemma_mul_assoc(x112, y112, ev);
    lemma_mul_const(ev);
}

/// What the decoder makes of a block whose errors it located is a codeword.
proof fn lemma_located_is_codeword(data: Seq<u8>)
    requires
        data.len() == 255,
        locates(data),
    ensures
        ({
            let s = syndromes(data);
            let l = bm(s, Seq::empty(), 32).lambda;
            is_codeword(corrected(data, l, s, degree(l, 33)))
        }),
{
    let s = syndromes(data);
    let none = Seq::<int>::empty();
    let st = bm(s, none, 32);
    let l = st.lambda;
    let d = degree(l, 33);
    let pos = root_positions(l, 255);
    let fixed = corrected(data, l, s, d);
    lemma_bm_inv(s, none, 32);
    lemma_root_positions(l, 255);
    lemma_degree_zero_above(l, 33);
    let e = Seq::new(
        255,
        |p: int|
            if pev(l, root_at(p)) == 0 {
                forney(l, s, d, root_at(p))
            } else {
                0u8
            },
    );
    let ws = weights(e, pos);
    let t = syndromes(e);
    assert forall|p: int| 0 <= p < 255 && !pos.contains(p) implies #[trigger] e[p] == 0 by {}
    assert forall|i: int| 0 <= i < 32 implies #[trigger] t[i] == psum(
        locators(pos),
        ws,
        i as nat,
    ) by {
        lemma_syndrome_support(e, pos, i as nat);
    }
    assert(follows(t, pos, ws));
    // The evaluators of s and t agree at the d roots, so they agree.
    let om = Seq::new(d, |i: int| conv(l, s, i) ^ conv(l, t, i));
    assert forall|k: int| 0 <= k < pos.len() implies pev(om, #[trigger] roots_of(pos)[k]) == 0 by {
        let y = root_at(pos[k]);
        lemma_evaluator(l, t, pos, ws, d, k);
        lemma_derivative(l, y);
        lemma_slope_nonzero(l, pos, k);
        lemma_forney_inverse(l, s, d, pos[k]);
        assert(evaluator(l, s, d, y) == evaluator(l, t, d, y));
        let f = |i: int| gf_mul(conv(l, s, i), gf_pow(y, i as nat));
        let g = |i: int| gf_mul(conv(l, t, i), gf_pow(y, i as nat));
        let h = |i: int| gf_mul(om[i], gf_pow(y, i as nat));
        assert forall|i: int| 0 <= i < d implies #[trigger] h(i) == f(i) ^ g(i) by {
            lemma_add_mul(conv(l, s, i), conv(l, t, i), gf_pow(y, i as nat));
        }
        lemma_gsum_ext(h, |i: int| f(i) ^ g(i), d);
        lemma_gsum_add(f, g, d);
        lemma_xor(gsum(f, d), 0, 0, 0);
    }
    lemma_points_distinct(pos);
    lemma_roots(om, roots_of(pos));
    assert forall|i: int| 0 <= i < 32 implies #[trigger] conv(l, s, i) == conv(l, t, i) by {
        if i < d {
            assert(om[i] == 0);
            lemma_xor(conv(l, s, i), conv(l, t, i), 0, 0);
        } else {
            lemma_conv_points(l, t, pos, ws, i);
            let f = |k: int|
                gf_mul(filtered(l, pos, ws)[k], gf_pow(locators(pos)[k], i as nat));
            assert forall|k: int| 0 <= k < pos.len() implies #[trigger] f(k) == 0 by {
                lemma_mul_const(ws[k]);
                lemma_mul_const(gf_pow(locators(pos)[k], i as nat));
            }
            lemma_gsum_zero(f, pos.len());
        }
    }
    lemma_conv_injective(l, s, t, 32);
    assert forall|i: nat| i < 32 implies syndrome(fixed, i) == 0 by {
        assert forall|p: int| 0 <= p < 255 implies fixed[p] == data[p] ^ e[p] by {
            lemma_xor(data[p], 0, 0, 0);
        }
        lemma_syndrome_add(data, e, fixed, i);
        assert(s[i as int] == t[i as int]);
        lemma_xor(syndrome(data, i), 0, 0, 0);
    }
}

proof fn lemma_fewer(a: Seq<int>, b: Seq<int>)
    requires
        a.no_duplicates(),
        b.no_duplicates(),
        forall|p: int| a.contains(p) ==> b.contains(p),
    ensures
        a.len() <= b.len(),
{
    a.unique_seq_to_set();
    b.unique_seq_to_set();
    vstd::set_lib::lemma_len_subset(a.to_set(), b.to_set());
}

/// A block that is no codeword lies within 16 symbols of a codeword exactly when
/// the decoder locates its errors; the corrected block is then that codeword and
/// the degree of the locator is the distance.
pub proof fn lemma_bounded_distance(data: Seq<u8>)
    requires
        data.len() == 255,
        !is_codeword(data),
    ensures
        ({
            let s = syndromes(data);
            let l = bm(s, Seq::empty(), 32).lambda;
            let d = degree(l, 33);
            let fixed = corrected(data, l, s, d);
            &&& locates(data) ==> is_codeword(fixed) && distance(data, fixed) == d
            &&& !locates(data) ==> forall|c: Seq<u8>|
                is_codeword(c) ==> #[trigger] distance(data, c) > 16
        }),
{
    let s = syndromes(data);
    let none = Seq::<int>::empty();
    let l = bm(s, none, 32).lambda;
    let d = degree(l, 33);
    let roots = root_positions(l, 255);
    let fixed = corrected(data, l, s, d);
    if locates(data) {
        lemma_located_is_codeword(data);
        lemma_root_positions(l, 255);
        lemma_mismatches(data, fixed, none, 255);
        let m = mismatches(data, fixed, none, 255);
        assert forall|p: int| m.contains(p) implies roots.contains(p) by {
            assert(fixed[p] != data[p]);
            assert(pev(l, root_at(p)) == 0);
        }
        lemma_fewer(m, roots);
        law_corrects_errors_and_erasures(data, fixed, 0, none);
    } else {
        assert forall|c: Seq<u8>| is_codeword(c) implies #[trigger] distance(data, c) > 16 by {
            if distance(data, c) <= 16 {
                let errs = mismatches(data, c, none, 255);
                let pos = touched(data, c, none);
                let e = difference(data, c);
                law_corrects_errors_and_erasures(data, c, 0, none);
                lemma_touched(data, c, none);
                lemma_mismatches(data, c, none, 255);
                assert(pos =~= errs);
                let ws = weights(e, pos);
                assert forall|k: int| 0 <= k < errs.len() implies ws[k] != 0 by {
                    assert(errs.contains(errs[k]));
                    let p = errs[k];
                    lemma_xor(data[p], c[p], 0, 0);
                    lemma_weight_zero(e[p], p);
                }
                lemma_locator_found(s, errs, none, ws);
            }
        }
    }
}

/// No two different codewords lie within 16 symbols of one block.
pub proof fn law_codewords_far_apart(data: Seq<u8>, a: Seq<u8>, b: Seq<u8>)
    requires
        data.len() == 255,
        is_codeword(a),
        is_codeword(b),
        distance(data, a) <= 16,
        distance(data, b) <= 16,
    ensures
        a == b,
{
    law_corrects_errors_and_erasures(data, a, 0, Seq::empty());
    law_corrects_errors_and_erasures(data, b, 0, Seq::empty());
}

/// Whatever is decoded lies close to what came: a block is left alone, without
/// corrections, only if it is a codeword, and else no more symbols change than are
/// reported, at most half of the parity symbols and erasures together, and none that
/// was never sent.
pub proof fn law_decoded_block_is_near(data: Seq<u8>, pad: int, eras: Seq<int>)
    requires
        data.len() == 255,
        0 <= pad <= 255,
    ensures
        decode_block_spec(data, pad, eras) matches Some((c, n)) ==> {
            &&& c.len() == 255
            &&& n == 0 <==> is_codeword(data)
            &&& n == 0 ==> c == data
            &&& distance(data, c) <= n
            &&& 2 * n <= 32 + eras.len() || n == 0
            &&& forall|p: int| 0 <= p < pad ==> #[trigger] c[p] == data[p]
        },
{
    if let Some((c, n)) = decode_block_spec(data, pad, eras) {
        if n == 0 {
            lemma_same_block(data, 255);
        } else {
            let l = bm(syndromes(data), eras, 32).lambda;
            let roots = root_positions(l, 255);
            lemma_root_positions(l, 255);
            lemma_mismatches(data, c, Seq::empty(), 255);
            let wrong = mismatches(data, c, Seq::empty(), 255);
            assert(c == corrected(data, l, syndromes(data), n));
            assert forall|p: int| wrong.contains(p) implies roots.contains(p) by {
                assert(c[p] != data[p]);
            }
            assert(roots.no_duplicates());
            wrong.unique_seq_to_set();
            roots.unique_seq_to_set();
            assert(wrong.to_set().subset_of(roots.to_set()));
            vstd::set_lib::lemma_len_subset(wrong.to_set(), roots.to_set());
            assert forall|p: int| 0 <= p < pad implies #[trigger] c[p] == data[p] by {
                if c[p] != data[p] {
                    assert(roots.contains(p));
                    let k = choose|k: int| 0 <= k < roots.len() && roots[k] == p;
                    assert(roots[0] <= roots[k]);
                }
            }
        }
    }
}

proof fn lemma_same_block(block: Seq<u8>, n: nat)
    ensures
        mismatches(block, block, Seq::empty(), n).len() == 0,
    decreases n,
{
    if n > 0 {
        lemma_same_block(block, (n - 1) as nat);
    }
}

} // verus!
