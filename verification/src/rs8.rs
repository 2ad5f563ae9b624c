//! Reed-Solomon RS(255, 223) over GF(256) for the SSDV image protocol.
//!
//! Field parameters: primitive polynomial `x^8 + x^7 + x^2 + x + 1` (0x187),
//! first consecutive root `alpha^112`, primitive element exponent `11`. These
//! are required by SSDV; do not change them.
//!
//! The decoder works in place on a 255-byte block (data and parity, without
//! the SSDV sync byte) and returns the number of corrected errors, or
//! [`RsError::Uncorrectable`] when no codeword lies within 16 bytes.
use vstd::prelude::*;
use crate::gf256::lemma_xor;
use crate::gf_tables::NN;
use crate::poly::pev;
use crate::reed_solomon::encode_parity;
use crate::rs_code::{
    corrected, derivative, evaluator, forney, is_codeword, root_at, root_positions, syndrome,
    PARITY_LEN,
};
use crate::rs_engine::{
    berlekamp_massey, chien_search, compute_syndromes, degree_of, erasure_poly, error_value,
    evaluator_poly, generator_root, horner, lemma_horner_syndrome,
};
use crate::rs_laws::{
    distance, law_codewords_far_apart, lemma_bounded_distance, lemma_degree_zero_above,
    lemma_light_codeword, lemma_root_positions, lemma_syndrome_add, locates, mismatches,
};
use crate::rs_lemmas::{lemma_bm_inv, lemma_derivative, lemma_slope_nonzero, positions};

verus! {

/// Errors returned by [`encode`] and [`decode`].
#[derive(Debug, Clone, Copy, PartialEq, Eq, Structural)]
pub enum RsError {
    /// Input slice was not exactly 255 bytes.
    BadLength,
    /// Syndromes were non-zero but the locator polynomial does not describe at
    /// most 16 byte errors.
    Uncorrectable,
}

impl RsError {
    /// Human-readable description.
    pub fn message(&self) -> (text: &'static str)
        ensures
            text@ == match *self {
                RsError::BadLength => "RS block must be 255 bytes"@,
                RsError::Uncorrectable => "RS block has uncorrectable errors"@,
            },
    {
        match self {
            RsError::BadLength => "RS block must be 255 bytes",
            RsError::Uncorrectable => "RS block has uncorrectable errors",
        }
    }
}

/// Encode 223 data bytes into a 255-byte RS(255, 223) codeword.
///
/// `block` must be exactly 255 bytes. Bytes `[0..223]` carry the caller's data
/// and will not be modified; bytes `[223..255]` are overwritten with parity.
pub fn encode(block: &mut [u8]) -> (res: Result<(), RsError>)
    ensures
        match res {
            Ok(()) => {
                &&& old(block)@.len() == 255
                &&& is_codeword(final(block)@)
                &&& final(block)@.take(223) == old(block)@.take(223)
            },
            Err(err) => {
                &&& old(block)@.len() != 255
                &&& err == RsError::BadLength
                &&& final(block)@ == old(block)@
            },
        },
{
    if block.len() != NN {
        return Err(RsError::BadLength);
    }
    let mut data: Vec<u8> = Vec::new();
    let mut i: usize = 0;
    while i < NN - PARITY_LEN
        invariant
            i <= 223,
            block@ == old(block)@,
            block@.len() == 255,
            data@ == block@.take(i as int),
        decreases 223 - i,
    {
        data.push(block[i]);
        i = i + 1;
        assert(data@ =~= block@.take(i as int));
    }
    let parity: [u8; 32] = encode_parity(data.as_slice());
    let mut j: usize = 0;
    while j < PARITY_LEN
        invariant
            j <= 32,
            block@.len() == 255,
            old(block)@.len() == 255,
            data@ == old(block)@.take(223),
            block@.take(223) == old(block)@.take(223),
            forall|k: int| 0 <= k < j ==> block@[223 + k] == parity@[k],
        decreases 32 - j,
    {
        let ghost prev = block@;
        block[223 + j] = parity[j];
        assert(block@.take(223) =~= prev.take(223));
        j = j + 1;
    }
    proof {
        assert(block@ =~= data@ + parity@) by {
            assert forall|k: int| 0 <= k < 255 implies block@[k] == (data@ + parity@)[k] by {
                if k < 223 {
                    assert(block@[k] == block@.take(223)[k]);
                } else {
                    assert(block@[223 + (k - 223)] == parity@[k - 223]);
                }
            }
        }
        assert forall|r: nat| r < 32 implies syndrome(block@, r) == 0 by {
            lemma_horner_syndrome(block@, r);
            assert(horner(data@ + parity@, generator_root(r), data@.len() + 32) == 0);
        }
    }
    Ok(())
}

/// Decode a 255-byte RS(255, 223) codeword in place.
///
/// On success, returns the number of byte errors that were corrected (zero when
/// the codeword was already clean): the block becomes the codeword at that
/// distance. A block with no codeword within 16 bytes is left as it is.
///
/// # Errors
///
/// Returns [`RsError::BadLength`] if the slice is not exactly 255 bytes long,
/// or [`RsError::Uncorrectable`] when more than 16 byte errors are present.
pub fn decode(block: &mut [u8]) -> (res: Result<usize, RsError>)
    ensures
        match res {
            Ok(n) => {
                &&& old(block)@.len() == 255
                &&& is_codeword(final(block)@)
                &&& n == distance(old(block)@, final(block)@)
                &&& n <= 16
            },
            Err(RsError::BadLength) => {
                &&& old(block)@.len() != 255
                &&& final(block)@ == old(block)@
            },
            Err(RsError::Uncorrectable) => {
                &&& old(block)@.len() == 255
                &&& forall|c: Seq<u8>|
                    is_codeword(c) ==> #[trigger] distance(old(block)@, c) > 16
                &&& final(block)@ == old(block)@
            },
        },
{
    if block.len() != NN {
        return Err(RsError::BadLength);
    }
    let ghost before = block@;
    let mut copy: [u8; 255] = [0u8; 255];
    let mut p: usize = 0;
    while p < NN
        invariant
            p <= 255,
            block@ == before,
            before.len() == 255,
            forall|k: int| 0 <= k < p ==> copy@[k] == before[k],
        decreases 255 - p,
    {
        copy[p] = block[p];
        p = p + 1;
    }
    assert(copy@ =~= before);
    let s: [u8; 32] = compute_syndromes(&copy, 0);
    let mut syn_error: bool = false;
    let mut i: usize = 0;
    while i < PARITY_LEN
        invariant
            i <= 32,
            !syn_error <==> forall|j: int| 0 <= j < i ==> s@[j] == 0,
        decreases 32 - i,
    {
        if s[i] != 0 {
            syn_error = true;
        }
        i = i + 1;
    }
    if !syn_error {
        proof {
            assert forall|j: nat| j < 32 implies syndrome(before, j) == 0 by {
                assert(s@[j as int] == 0);
            }
            lemma_same_distance(before);
        }
        return Ok(0);
    }
    proof {
        let j = choose|j: int| 0 <= j < 32 && s@[j] != 0;
        assert(syndrome(before, j as nat) != 0);
        lemma_bounded_distance(before);
    }
    let none: Vec<usize> = Vec::new();
    let ghost no_list = Seq::<int>::empty();
    assert(none@.map_values(|e: usize| e as int) =~= no_list);
    let gamma: [u8; 33] = erasure_poly(none.as_slice());
    let (lambda, el) = berlekamp_massey(&s, &gamma, none.as_slice());
    let d: usize = degree_of(&lambda);
    if d == 0 || d > PARITY_LEN / 2 || d != el {
        return Err(RsError::Uncorrectable);
    }
    let found: Vec<usize> = chien_search(&lambda);
    let ghost roots = root_positions(lambda@, 255);
    assert(found@.len() == roots.len());
    if found.len() != d {
        return Err(RsError::Uncorrectable);
    }
    assert(locates(before));
    let om: Vec<u8> = evaluator_poly(&lambda, &s, d);
    proof {
        lemma_root_positions(lambda@, 255);
        lemma_degree_zero_above(lambda@, 33);
        assert(positions(no_list));
        lemma_bm_inv(s@, no_list, 32);
        assert forall|k: int| 0 <= k < roots.len() implies derivative(
            lambda@,
            root_at(#[trigger] roots[k]),
        ) != 0 by {
            lemma_derivative(lambda@, root_at(roots[k]));
            lemma_slope_nonzero(lambda@, roots, k);
        }
        assert forall|k: int| 0 <= k < found@.len() implies found@[k] as int == roots[k] by {}
    }
    let mut j: usize = 0;
    while j < found.len()
        invariant
            j <= found@.len(),
            found@.len() == roots.len(),
            found@.len() == d,
            d <= 32,
            before.len() == 255,
            block@.len() == 255,
            forall|k: int| 0 <= k < found@.len() ==> found@[k] as int == #[trigger] roots[k],
            forall|k: int| 0 <= k < roots.len() ==> 0 <= #[trigger] roots[k] < 255,
            forall|a: int, b: int| 0 <= a < b < roots.len() ==> roots[a] < roots[b],
            forall|y: u8| pev(om@, y) == evaluator(lambda@, s@, d as nat, y),
            forall|k: int|
                0 <= k < roots.len() ==> derivative(lambda@, root_at(#[trigger] roots[k])) != 0,
            forall|k: int|
                0 <= k < j ==> block@[#[trigger] roots[k]] == before[roots[k]] ^ forney(
                    lambda@,
                    s@,
                    d as nat,
                    root_at(roots[k]),
                ),
            forall|q: int|
                0 <= q < 255 && (forall|k: int| 0 <= k < j ==> #[trigger] roots[k] != q)
                    ==> block@[q] == before[q],
        decreases found@.len() - j,
    {
        let at: usize = found[j];
        assert(at as int == roots[j as int]);
        let e: u8 = error_value(&lambda, &s, &om, d, at);
        assert(block@[at as int] == before[at as int]) by {
            assert forall|k: int| 0 <= k < j implies #[trigger] roots[k] != at by {}
        }
        block[at] = block[at] ^ e;
        j = j + 1;
        proof {
            assert forall|q: int|
                0 <= q < 255 && (forall|k: int| 0 <= k < j ==> #[trigger] roots[k] != q) implies block@[q]
                == before[q] by {
                assert(roots[j - 1] != q);
            }
        }
    }
    proof {
        let fixed = corrected(before, lambda@, s@, d as nat);
        assert forall|q: int| 0 <= q < 255 implies block@[q] == fixed[q] by {
            if pev(lambda@, root_at(q)) == 0 {
                assert(roots.contains(q));
                let k = choose|k: int| 0 <= k < roots.len() && roots[k] == q;
                assert(block@[roots[k]] == before[roots[k]] ^ forney(
                    lambda@,
                    s@,
                    d as nat,
                    root_at(roots[k]),
                ));
            } else {
                assert(!roots.contains(q));
                assert forall|k: int| 0 <= k < j implies #[trigger] roots[k] != q by {}
            }
        }
        assert(block@ =~= fixed);
    }
    Ok(d)
}

proof fn lemma_same_distance(a: Seq<u8>)
    ensures
        distance(a, a) == 0,
{
    lemma_no_mismatches(a, 255);
}

proof fn lemma_no_mismatches(a: Seq<u8>, n: nat)
    ensures
        mismatches(a, a, Seq::empty(), n).len() == 0,
    decreases n,
{
    if n > 0 {
        lemma_no_mismatches(a, (n - 1) as nat);
    }
}

/// The data bytes determine the codeword: two codewords that agree on the first
/// 223 bytes are equal.
pub proof fn law_encoding_is_unique(a: Seq<u8>, b: Seq<u8>)
    requires
        is_codeword(a),
        is_codeword(b),
        a.take(223) == b.take(223),
    ensures
        a == b,
{
    let e = Seq::new(255, |p: int| a[p] ^ b[p]);
    let pos = Seq::new(32, |k: int| 223 + k);
    assert forall|p: int| 0 <= p < 255 && !pos.contains(p) implies #[trigger] e[p] == 0 by {
        if p >= 223 {
            assert(pos[p - 223] == p);
        }
        assert(a[p] == a.take(223)[p]);
        assert(b[p] == b.take(223)[p]);
        lemma_xor(a[p], b[p], 0, 0);
    }
    assert forall|i: nat| i < 32 implies syndrome(e, i) == 0 by {
        lemma_syndrome_add(a, b, e, i);
        lemma_xor(0, 0, 0, 0);
    }
    lemma_light_codeword(e, pos);
    assert forall|p: int| 0 <= p < 255 implies a[p] == b[p] by {
        assert(e[p] == 0);
        lemma_xor(a[p], b[p], 0, 0);
    }
    assert(a =~= b);
}

/// Up to 16 damaged bytes are repaired: when `damaged` differs from a codeword
/// at no more than 16 places, any codeword within 16 bytes of it is that one.
pub proof fn law_sixteen_errors_are_repaired(sent: Seq<u8>, damaged: Seq<u8>, repaired: Seq<u8>)
    requires
        is_codeword(sent),
        damaged.len() == 255,
        distance(damaged, sent) <= 16,
        is_codeword(repaired),
        distance(damaged, repaired) <= 16,
    ensures
        repaired == sent,
{
    law_codewords_far_apart(damaged, sent, repaired);
}

/// The codeword lies within 16 bytes of the block.
pub open spec fn near(block: Seq<u8>, c: Seq<u8>) -> bool {
    is_codeword(c) && distance(block, c) <= 16
}

/// The codeword within 16 bytes of the block, if there is one.
pub open spec fn nearest(block: Seq<u8>) -> Option<Seq<u8>> {
    if exists|c: Seq<u8>| near(block, c) {
        Some(choose|c: Seq<u8>| near(block, c))
    } else {
        None
    }
}

/// There is no other codeword as near.
pub proof fn lemma_nearest(block: Seq<u8>, c: Seq<u8>)
    requires
        block.len() == 255,
        near(block, c),
    ensures
        nearest(block) == Some(c),
{
    law_codewords_far_apart(block, nearest(block).unwrap(), c);
}

} // verus!
