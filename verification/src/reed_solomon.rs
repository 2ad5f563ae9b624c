//! Shortened, interleaved Reed-Solomon blocks: RS(255, 223) over GF(256) with
//! first consecutive root 112 and primitive element exponent 11.
use vstd::prelude::*;
use crate::gf256::{
    gf_mul, gf_pow, gf_product, lemma_mul_add, lemma_mul_assoc, lemma_mul_comm, lemma_mul_const,
    lemma_pow_add, lemma_xor,
};
use crate::gf_tables::NN;
use crate::model::{invalid_encoding, DecodeError};
use crate::poly::pev;
use crate::rs_code::{
    corrected, decode_block_spec, erasure_locator, forney, is_codeword, root_at, root_positions,
    syndrome, PARITY_LEN,
};
use crate::rs_engine::{
    berlekamp_massey, chien_search, compute_syndromes, degree_of, erasure_poly, error_value,
    evaluator_poly, generator_root, horner, lemma_horner_syndrome, lemma_horner_zeros,
};
use crate::rs_laws::{lemma_degree_zero_above, lemma_root_positions};
use crate::rs_lemmas::{
    lemma_bm_inv, lemma_derivative, lemma_erasure_locator, lemma_slope_nonzero, positions,
};

verus! {

/// Result of decoding a Reed-Solomon codeword.
#[derive(Debug)]
pub struct RsDecoded {
    pub message: Vec<u8>,
    pub corrected_errors: usize,
}

/// Positions as mathematical integers.
pub open spec fn as_positions(eras: Seq<usize>) -> Seq<int> {
    eras.map_values(|e: usize| e as int)
}

/// What `decode_block` makes of a block: nothing when there are more erasures
/// than parity symbols or the decoder finds no fitting error pattern.
pub open spec fn block_outcome(data: Seq<u8>, pad: int, eras: Seq<usize>) -> Option<
    (Seq<u8>, nat),
> {
    if eras.len() > 32 {
        None
    } else {
        decode_block_spec(data, pad, as_positions(eras))
    }
}

/// Correct one block in place, given the erased positions. The first `pad` symbols of
/// a shortened block are zero and were never sent.
fn decode_block(data: &mut [u8; 255], pad: usize, eras_pos: &[usize]) -> (res: Result<
    usize,
    DecodeError,
>)
    requires
        pad <= 255,
        forall|p: int| 0 <= p < pad ==> old(data)@[p] == 0,
    ensures
        ({
            let in_range = forall|k: int|
                0 <= k < eras_pos@.len() ==> pad <= #[trigger] eras_pos@[k] < 255;
            match res {
                Ok(n) => {
                    &&& eras_pos@.len() <= 32
                    &&& in_range
                    &&& block_outcome(old(data)@, pad as int, eras_pos@) == Some(
                        (final(data)@, n as nat),
                    )
                },
                Err(DecodeError::CrcMismatch) => {
                    &&& eras_pos@.len() > 32 || (in_range && block_outcome(
                        old(data)@,
                        pad as int,
                        eras_pos@,
                    ) is None)
                    &&& final(data)@ == old(data)@
                },
                Err(err) => {
                    &&& eras_pos@.len() <= 32
                    &&& !in_range
                    &&& invalid_encoding(err, "Reed-Solomon erasure position out of range"@)
                    &&& final(data)@ == old(data)@
                },
            }
        }),
{
    let no_eras: usize = eras_pos.len();
    if no_eras > PARITY_LEN {
        return Err(DecodeError::CrcMismatch);
    }
    let mut k: usize = 0;
    while k < no_eras
        invariant
            k <= no_eras,
            no_eras == eras_pos@.len(),
            no_eras <= 32,
            data@ == old(data)@,
            forall|j: int| 0 <= j < k ==> pad <= #[trigger] eras_pos@[j] < 255,
        decreases no_eras - k,
    {
        if eras_pos[k] < pad || eras_pos[k] >= NN {
            return Err(
                DecodeError::InvalidEncoding(
                    "Reed-Solomon erasure position out of range".to_string(),
                ),
            );
        }
        k = k + 1;
    }
    let ghost list = as_positions(eras_pos@);
    let s: [u8; 32] = compute_syndromes(data, pad);
    let mut clean: bool = true;
    let mut i: usize = 0;
    while i < PARITY_LEN
        invariant
            i <= 32,
            clean <==> forall|j: int| 0 <= j < i ==> s@[j] == 0,
        decreases 32 - i,
    {
        if s[i] != 0 {
            clean = false;
        }
        i = i + 1;
    }
    proof {
        if clean {
            assert forall|j: nat| j < 32 implies syndrome(data@, j) == 0 by {
                assert(s@[j as int] == 0);
            }
        } else {
            let j = choose|j: int| 0 <= j < 32 && s@[j] != 0;
            assert(syndrome(data@, j as nat) != 0);
        }
    }
    if clean {
        return Ok(0);
    }
    let gamma: [u8; 33] = erasure_poly(eras_pos);
    let (lambda, _el) = berlekamp_massey(&s, &gamma, eras_pos);
    let d: usize = degree_of(&lambda);
    if d == 0 || 2 * d > PARITY_LEN + no_eras {
        return Err(DecodeError::CrcMismatch);
    }
    let found: Vec<usize> = chien_search(&lambda);
    let ghost roots = root_positions(lambda@, 255);
    assert(found@.len() == roots.len());
    if found.len() != d {
        return Err(DecodeError::CrcMismatch);
    }
    assert(roots[0] == found@[0] as int);
    if found[0] < pad {
        return Err(DecodeError::CrcMismatch);
    }
    let om: Vec<u8> = evaluator_poly(&lambda, &s, d);
    let ghost before = data@;
    let mut j: usize = 0;
    proof {
        lemma_root_positions(lambda@, 255);
        lemma_degree_zero_above(lambda@, 33);
        assert(positions(list));
        lemma_bm_inv(s@, list, 32);
        assert forall|k: int| 0 <= k < roots.len() implies crate::rs_code::derivative(
            lambda@,
            root_at(#[trigger] roots[k]),
        ) != 0 by {
            lemma_derivative(lambda@, root_at(roots[k]));
            lemma_slope_nonzero(lambda@, roots, k);
        }
        assert forall|k: int| 0 <= k < found@.len() implies found@[k] as int == roots[k] by {}
    }
    while j < found.len()
        invariant
            j <= found@.len(),
            found@.len() == roots.len(),
            found@.len() == d,
            d <= 32,
            before.len() == 255,
            forall|k: int| 0 <= k < found@.len() ==> found@[k] as int == #[trigger] roots[k],
            forall|k: int| 0 <= k < roots.len() ==> 0 <= #[trigger] roots[k] < 255,
            forall|a: int, b: int| 0 <= a < b < roots.len() ==> roots[a] < roots[b],
            forall|y: u8|
                pev(om@, y) == crate::rs_code::evaluator(lambda@, s@, d as nat, y),
            forall|k: int|
                0 <= k < roots.len() ==> crate::rs_code::derivative(
                    lambda@,
                    root_at(#[trigger] roots[k]),
                ) != 0,
            forall|k: int|
                0 <= k < j ==> data@[#[trigger] roots[k]] == before[roots[k]] ^ forney(
                    lambda@,
                    s@,
                    d as nat,
                    root_at(roots[k]),
                ),
            forall|p: int|
                0 <= p < 255 && (forall|k: int| 0 <= k < j ==> #[trigger] roots[k] != p)
                    ==> data@[p] == before[p],
        decreases found@.len() - j,
    {
        let p: usize = found[j];
        assert(p as int == roots[j as int]);
        let e: u8 = error_value(&lambda, &s, &om, d, p);
        let ghost prev = data@;
        assert(prev[p as int] == before[p as int]) by {
            assert forall|k: int| 0 <= k < j implies #[trigger] roots[k] != p by {}
        }
        data[p] = data[p] ^ e;
        j = j + 1;
        proof {
            assert forall|q: int|
                0 <= q < 255 && (forall|k: int| 0 <= k < j ==> #[trigger] roots[k] != q) implies data@[q]
                == before[q] by {
                assert(roots[j - 1] != q);
            }
        }
    }
    proof {
        let fixed = corrected(before, lambda@, s@, d as nat);
        assert forall|p: int| 0 <= p < 255 implies data@[p] == fixed[p] by {
            if pev(lambda@, root_at(p)) == 0 {
                assert(roots.contains(p));
                let k = choose|k: int| 0 <= k < roots.len() && roots[k] == p;
                assert(data@[roots[k]] == before[roots[k]] ^ forney(
                    lambda@,
                    s@,
                    d as nat,
                    root_at(roots[k]),
                ));
            } else {
                assert(!roots.contains(p));
                assert forall|k: int| 0 <= k < j implies #[trigger] roots[k] != p by {}
            }
        }
        assert(data@ =~= fixed);
    }
    Ok(d)
}

/// The block of one interleave path: `pad` zeros, then every `interleave`-th symbol.
pub open spec fn path_block(codeword: Seq<u8>, interleave: int, path: int, pad: int) -> Seq<u8> {
    Seq::new(
        255,
        |p: int|
            if p < pad {
                0u8
            } else {
                codeword[path + (p - pad) * interleave]
            },
    )
}

/// The erasures that fall on one path, as positions of its block.
pub open spec fn path_erasures(
    erasures: Seq<usize>,
    interleave: int,
    path: int,
    pad: int,
) -> Seq<usize>
    decreases erasures.len(),
{
    if erasures.len() == 0 {
        Seq::empty()
    } else {
        let before = path_erasures(erasures.drop_last(), interleave, path, pad);
        let e = erasures.last() as int;
        if e % interleave == path {
            before.push((pad + e / interleave) as usize)
        } else {
            before
        }
    }
}

/// What decoding one path of an interleaved codeword gives.
pub open spec fn path_outcome(
    codeword: Seq<u8>,
    interleave: int,
    erasures: Seq<usize>,
    path: int,
) -> Option<(Seq<u8>, nat)> {
    let pad = 255 - codeword.len() / interleave as nat;
    block_outcome(
        path_block(codeword, interleave, path, pad),
        pad,
        path_erasures(erasures, interleave, path, pad),
    )
}

/// The corrections reported by the paths below `n`.
pub open spec fn paths_corrected(
    codeword: Seq<u8>,
    interleave: int,
    erasures: Seq<usize>,
    n: nat,
) -> nat
    decreases n,
{
    if n == 0 {
        0
    } else {
        paths_corrected(codeword, interleave, erasures, (n - 1) as nat) + path_outcome(
            codeword,
            interleave,
            erasures,
            n - 1,
        ).unwrap().1
    }
}

/// The interleave factor divides the length.
pub open spec fn interleave_fits(len: nat, interleave: nat) -> bool {
    interleave > 0 && len % interleave == 0
}

/// A path has room for data besides its parity and fits a block.
pub open spec fn path_length_fits(len: nat, interleave: nat) -> bool {
    32 < len / interleave <= 255
}

/// Every path of the codeword decodes.
pub open spec fn decodes(codeword: Seq<u8>, interleave: nat, erasures: Seq<usize>) -> bool {
    &&& interleave_fits(codeword.len(), interleave)
    &&& path_length_fits(codeword.len(), interleave)
    &&& !exists|k: int| 0 <= k < erasures.len() && #[trigger] erasures[k] >= codeword.len()
    &&& !exists|path: int|
        0 <= path < interleave && #[trigger] path_outcome(
            codeword,
            interleave as int,
            erasures,
            path,
        ) is None
}

/// The data symbols of the corrected paths, interleaved again.
pub open spec fn decoded_message(
    codeword: Seq<u8>,
    interleave: nat,
    erasures: Seq<usize>,
) -> Seq<u8> {
    let i = interleave as int;
    let pad = 255 - codeword.len() / interleave;
    Seq::new(
        (codeword.len() - 32 * interleave) as nat,
        |j: int| path_outcome(codeword, i, erasures, j % i).unwrap().0[pad + j / i],
    )
}

/// What decoding a shortened, interleaved codeword with erasures returns.
pub open spec fn shortened_result(
    codeword: Seq<u8>,
    interleave: nat,
    erasures: Seq<usize>,
    res: Result<RsDecoded, DecodeError>,
) -> bool {
    let len = codeword.len();
    let i = interleave as int;
    if !interleave_fits(len, interleave) {
        res matches Err(err) && invalid_encoding(err, "invalid Reed-Solomon interleave"@)
    } else if !path_length_fits(len, interleave) {
        res matches Err(DecodeError::TooShort(n)) && n == len
    } else if exists|k: int| 0 <= k < erasures.len() && #[trigger] erasures[k] >= len {
        res matches Err(err) && invalid_encoding(err, "Reed-Solomon erasure index out of range"@)
    } else if exists|path: int|
        0 <= path < i && #[trigger] path_outcome(codeword, i, erasures, path) is None {
        res matches Err(DecodeError::CrcMismatch)
    } else {
        &&& res is Ok
        &&& res->Ok_0.message@ == decoded_message(codeword, interleave, erasures)
        &&& res->Ok_0.corrected_errors == paths_corrected(codeword, i, erasures, interleave)
    }
}

proof fn lemma_interleaved_index(path: int, k: int, n: int, interleave: int)
    requires
        0 <= path < interleave,
        0 <= k < n,
    ensures
        0 <= path + k * interleave < n * interleave,
        (path + k * interleave) % interleave == path,
        (path + k * interleave) / interleave == k,
{
    vstd::arithmetic::div_mod::lemma_fundamental_div_mod_converse(
        path + k * interleave,
        interleave,
        k,
        path,
    );
    assert(path + k * interleave < n * interleave) by (nonlinear_arith)
        requires
            0 <= path < interleave,
            0 <= k < n,
    ;
    assert(0 <= k * interleave) by (nonlinear_arith)
        requires
            0 <= k,
            0 < interleave,
    ;
}

/// The erasures of one path, in block coordinates.
fn route_erasures(
    erasures: &[usize],
    interleave: usize,
    path: usize,
    pad: usize,
    len: usize,
) -> (out: Vec<usize>)
    requires
        0 < interleave,
        path < interleave,
        pad + len / interleave == 255,
        len % interleave == 0,
        forall|k: int| 0 <= k < erasures@.len() ==> #[trigger] erasures@[k] < len,
    ensures
        out@ == path_erasures(erasures@, interleave as int, path as int, pad as int),
        forall|k: int| 0 <= k < out@.len() ==> pad <= #[trigger] out@[k] < 255,
{
    let mut out: Vec<usize> = Vec::new();
    let mut n: usize = 0;
    assert(erasures@.take(0) =~= Seq::<usize>::empty());
    while n < erasures.len()
        invariant
            n <= erasures@.len(),
            0 < interleave,
            pad + len / interleave == 255,
            len % interleave == 0,
            forall|k: int| 0 <= k < erasures@.len() ==> #[trigger] erasures@[k] < len,
            out@ == path_erasures(
                erasures@.take(n as int),
                interleave as int,
                path as int,
                pad as int,
            ),
            forall|k: int| 0 <= k < out@.len() ==> pad <= #[trigger] out@[k] < 255,
        decreases erasures@.len() - n,
    {
        let e: usize = erasures[n];
        proof {
            let q = e as int / interleave as int;
            vstd::arithmetic::div_mod::lemma_fundamental_div_mod(e as int, interleave as int);
            vstd::arithmetic::div_mod::lemma_fundamental_div_mod(len as int, interleave as int);
            assert(0 <= q < len as int / interleave as int) by (nonlinear_arith)
                requires
                    interleave > 0,
                    e < len,
                    q == e as int / interleave as int,
                    e == interleave as int * q + e as int % interleave as int,
                    0 <= e as int % interleave as int,
                    len == interleave as int * (len as int / interleave as int),
            ;
            assert(erasures@.take(n + 1).drop_last() =~= erasures@.take(n as int));
            assert(erasures@.take(n + 1).last() == e);
        }
        if e % interleave == path {
            out.push(pad + e / interleave);
        }
        n = n + 1;
    }
    assert(erasures@.take(n as int) =~= erasures@);
    out
}

/// Decode a shortened, interleaved codeword.
pub fn decode_shortened(codeword: &[u8], interleave: usize) -> (res: Result<RsDecoded, DecodeError>)
    ensures
        shortened_result(codeword@, interleave as nat, Seq::empty(), res),
{
    let none: Vec<usize> = Vec::new();
    assert(none@ =~= Seq::<usize>::empty());
    decode_shortened_with_erasures(codeword, interleave, none.as_slice())
}

/// Decode a shortened, interleaved codeword with optional erasure positions.
///
/// `erasures` are byte indices in the codeword (range `0..codeword.len()`);
/// they identify symbols whose value is treated as unknown by the decoder.
pub fn decode_shortened_with_erasures(
    codeword: &[u8],
    interleave: usize,
    erasures: &[usize],
) -> (res: Result<RsDecoded, DecodeError>)
    ensures
        shortened_result(codeword@, interleave as nat, erasures@, res),
{
    let len: usize = codeword.len();
    if interleave == 0 || len % interleave != 0 {
        return Err(DecodeError::InvalidEncoding("invalid Reed-Solomon interleave".to_string()));
    }
    let rs_nn: usize = len / interleave;
    if rs_nn <= PARITY_LEN || rs_nn > NN {
        return Err(DecodeError::TooShort(len));
    }
    let mut n: usize = 0;
    while n < erasures.len()
        invariant
            n <= erasures@.len(),
            len == codeword@.len(),
            interleave_fits(len as nat, interleave as nat),
            path_length_fits(len as nat, interleave as nat),
            forall|k: int| 0 <= k < n ==> #[trigger] erasures@[k] < len,
        decreases erasures@.len() - n,
    {
        if erasures[n] >= len {
            assert(erasures@[n as int] >= codeword@.len());
            return Err(
                DecodeError::InvalidEncoding(
                    "Reed-Solomon erasure index out of range".to_string(),
                ),
            );
        }
        n = n + 1;
    }
    let pad: usize = NN - rs_nn;
    let ghost i = interleave as int;
    proof {
        vstd::arithmetic::div_mod::lemma_fundamental_div_mod(len as int, i);
        assert(len == rs_nn * i) by (nonlinear_arith)
            requires
                len == i * rs_nn,
        ;
        assert(32 * i < len) by (nonlinear_arith)
            requires
                len == rs_nn * i,
                rs_nn > 32,
                i > 0,
        ;
        assert(len - 32 * i == (rs_nn - 32) * i) by (nonlinear_arith)
            requires
                len == rs_nn * i,
        ;
    }
    let out_len: usize = len - interleave * PARITY_LEN;
    let mut out: Vec<u8> = vec![0u8; out_len];
    let mut corrected_errors: usize = 0;
    let mut path: usize = 0;
    while path < interleave
        invariant
            path <= interleave,
            i == interleave,
            0 < interleave,
            len == codeword@.len(),
            interleave_fits(len as nat, interleave as nat),
            path_length_fits(len as nat, interleave as nat),
            rs_nn == len / interleave,
            32 < rs_nn <= 255,
            pad == 255 - rs_nn,
            len == rs_nn * i,
            out@.len() == out_len,
            out_len == (rs_nn - 32) * i,
            forall|k: int| 0 <= k < erasures@.len() ==> #[trigger] erasures@[k] < len,
            forall|q: int|
                0 <= q < path ==> #[trigger] path_outcome(codeword@, i, erasures@, q) is Some,
            forall|j: int|
                0 <= j < out_len && j % i < path ==> #[trigger] out@[j] == path_outcome(
                    codeword@,
                    i,
                    erasures@,
                    j % i,
                ).unwrap().0[pad + j / i],
            corrected_errors == paths_corrected(codeword@, i, erasures@, path as nat),
            corrected_errors <= 32 * path,
            32 * i < len,
        decreases interleave - path,
    {
        let mut block: [u8; 255] = [0u8; 255];
        let mut k: usize = 0;
        while k < rs_nn
            invariant
                k <= rs_nn,
                i == interleave,
                path < interleave,
                len == codeword@.len(),
                32 < rs_nn <= 255,
                pad == 255 - rs_nn,
                len == rs_nn * i,
                forall|p: int| 0 <= p < pad ==> block@[p] == 0,
                forall|p: int|
                    pad <= p < pad + k ==> block@[p] == codeword@[path + (p - pad) * i],
            decreases rs_nn - k,
        {
            proof {
                lemma_interleaved_index(path as int, k as int, rs_nn as int, i);
            }
            block[pad + k] = codeword[path + k * interleave];
            k = k + 1;
        }
        let ghost raw = block@;
        assert(raw =~= path_block(codeword@, i, path as int, pad as int));
        let eras: Vec<usize> = route_erasures(erasures, interleave, path, pad, len);
        let ghost outcome = path_outcome(codeword@, i, erasures@, path as int);
        assert(outcome == block_outcome(raw, pad as int, eras@));
        let fixed: usize = match decode_block(&mut block, pad, eras.as_slice()) {
            Ok(fixed) => fixed,
            Err(_) => {
                assert(path_outcome(codeword@, i, erasures@, path as int) is None);
                return Err(DecodeError::CrcMismatch);
            },
        };
        assert(outcome == Some((block@, fixed as nat)));
        assert(fixed <= 32);
        corrected_errors = corrected_errors + fixed;
        let ghost before = out@;
        let mut m: usize = 0;
        while m < rs_nn - PARITY_LEN
            invariant
                m <= rs_nn - 32,
                i == interleave,
                path < interleave,
                32 < rs_nn <= 255,
                pad == 255 - rs_nn,
                out@.len() == out_len,
                before.len() == out_len,
                out_len == (rs_nn - 32) * i,
                forall|j: int|
                    0 <= j < out_len && j % i != path ==> #[trigger] out@[j] == before[j],
                forall|j: int|
                    0 <= j < out_len && j % i == path && j / i < m ==> #[trigger] out@[j]
                        == block@[pad + j / i],
            decreases rs_nn - 32 - m,
        {
            proof {
                lemma_interleaved_index(path as int, m as int, rs_nn - 32, i);
            }
            let at: usize = path + m * interleave;
            let ghost prev = out@;
            out[at] = block[pad + m];
            proof {
                assert forall|j: int|
                    0 <= j < out_len && j % i == path && j / i < m + 1 implies #[trigger] out@[j]
                    == block@[pad + j / i] by {
                    if j / i == m {
                        vstd::arithmetic::div_mod::lemma_fundamental_div_mod(j, i);
                        assert(j == at) by (nonlinear_arith)
                            requires
                                j == i * (j / i) + j % i,
                                j / i == m as int,
                                j % i == path as int,
                                at == path + m * i,
                        ;
                    } else {
                        assert(j != at);
                        assert(out@[j] == prev[j]);
                    }
                }
            }
            m = m + 1;
        }
        proof {
            assert forall|j: int| 0 <= j < out_len && j % i < path + 1 implies #[trigger] out@[j]
                == path_outcome(codeword@, i, erasures@, j % i).unwrap().0[pad + j / i] by {
                if j % i == path {
                    vstd::arithmetic::div_mod::lemma_fundamental_div_mod(j, i);
                    assert(j / i < rs_nn - 32) by (nonlinear_arith)
                        requires
                            j == i * (j / i) + j % i,
                            0 <= j % i,
                            j < (rs_nn - 32) * i,
                            i > 0,
                    ;
                } else {
                    assert(out@[j] == before[j]);
                }
            }
        }
        path = path + 1;
    }
    proof {
        assert(out@ =~= decoded_message(codeword@, interleave as nat, erasures@)) by {
            assert forall|j: int| 0 <= j < out_len implies #[trigger] out@[j] == path_outcome(
                codeword@,
                i,
                erasures@,
                j % i,
            ).unwrap().0[pad + j / i] by {
                assert(0 <= j % i < i);
            }
        }
        assert(!exists|path: int|
            0 <= path < i && #[trigger] path_outcome(codeword@, i, erasures@, path) is None);
    }
    Ok(RsDecoded { message: out, corrected_errors })
}

/// The symbols followed by the parity vanish at every root of the generator.
pub open spec fn is_parity(message: Seq<u8>, parity: Seq<u8>) -> bool {
    parity.len() == 32 && forall|i: nat|
        i < 32 ==> #[trigger] horner(message + parity, generator_root(i), message.len() + 32) == 0
}

proof fn lemma_horner_ext(a: Seq<u8>, c: Seq<u8>, b: u8, n: nat)
    requires
        n <= a.len(),
        n <= c.len(),
        forall|i: int| 0 <= i < n ==> a[i] == c[i],
    ensures
        horner(a, b, n) == horner(c, b, n),
    decreases n,
{
    if n > 0 {
        lemma_horner_ext(a, c, b, (n - 1) as nat);
    }
}

proof fn lemma_horner_concat(a: Seq<u8>, c: Seq<u8>, b: u8, n: nat)
    requires
        n <= c.len(),
    ensures
        horner(a + c, b, a.len() + n) == gf_mul(gf_pow(b, n), horner(a, b, a.len())) ^ horner(
            c,
            b,
            n,
        ),
    decreases n,
{
    let h = horner(a, b, a.len());
    if n == 0 {
        lemma_horner_ext(a + c, a, b, a.len());
        lemma_mul_const(h);
        lemma_xor(h, 0, 0, 0);
    } else {
        let m = (n - 1) as nat;
        lemma_horner_concat(a, c, b, m);
        let w = gf_pow(b, m);
        let t = horner(c, b, m);
        assert((a + c)[(a.len() + m) as int] == c[m as int]);
        assert(horner(a + c, b, a.len() + n) == gf_mul(b, horner(a + c, b, a.len() + m)) ^ c[m as int]);
        lemma_mul_add(b, gf_mul(w, h), t);
        lemma_mul_assoc(b, w, h);
        lemma_xor(gf_mul(b, gf_mul(w, h)), gf_mul(b, t), c[m as int], 0);
    }
}

proof fn lemma_horner_combine(p: Seq<u8>, f: u8, q: Seq<u8>, r: Seq<u8>, b: u8, n: nat)
    requires
        forall|i: int| 0 <= i < n ==> r[i] == p[i] ^ gf_mul(f, q[i]),
    ensures
        horner(r, b, n) == horner(p, b, n) ^ gf_mul(f, horner(q, b, n)),
    decreases n,
{
    if n == 0 {
        lemma_mul_const(f);
        lemma_xor(0, 0, 0, 0);
    } else {
        let m = (n - 1) as nat;
        lemma_horner_combine(p, f, q, r, b, m);
        let hp = horner(p, b, m);
        let hq = horner(q, b, m);
        lemma_mul_add(b, hp, gf_mul(f, hq));
        lemma_mul_assoc(b, f, hq);
        lemma_mul_comm(b, f);
        lemma_mul_assoc(f, b, hq);
        lemma_mul_add(f, gf_mul(b, hq), q[m as int]);
        lemma_xor(gf_mul(b, hp), gf_mul(f, gf_mul(b, hq)), p[m as int], gf_mul(f, q[m as int]));
    }
}

/// Positions whose locators are the roots of the generator.
pub open spec fn generator_positions() -> Seq<int> {
    Seq::new(32, |i: int| 111 + i)
}

/// At every generator root the generator without its leading term has the value
/// of that term.
proof fn lemma_generator(g: Seq<u8>, i: nat)
    requires
        g == erasure_locator(generator_positions()),
        i < 32,
    ensures
        g.len() == 33,
        horner(g.skip(1), generator_root(i), 32) == gf_pow(generator_root(i), 32),
{
    let b = generator_root(i);
    let pos = generator_positions();
    assert(positions(pos));
    lemma_erasure_locator(pos);
    let p = 142 - i;
    assert(pos[31 - i] == p);
    crate::rs_lemmas::lemma_locator(p);
    assert(b == crate::rs_code::locator(p));
    let y = root_at(p);
    assert(pev(g, y) == 0);
    // horner(g) = b^32 g(1 / b) = 0
    crate::rs_engine::lemma_horner_sum(g, b, 33);
    let f = |q: int| gf_mul(g[q], gf_pow(b, (33 - 1 - q) as nat));
    let h = |q: int| gf_mul(g[q], gf_pow(y, q as nat));
    let b32 = gf_pow(b, 32);
    assert forall|q: int| 0 <= q < 33 implies #[trigger] f(q) == gf_mul(b32, h(q)) by {
        let bd = gf_pow(b, (32 - q) as nat);
        let bq = gf_pow(b, q as nat);
        let yq = gf_pow(y, q as nat);
        lemma_pow_add(b, (32 - q) as nat, q as nat);
        crate::gf256::lemma_pow_cancel(b, y, q as nat);
        lemma_mul_assoc(bd, bq, yq);
        lemma_mul_const(bd);
        assert(gf_mul(b32, yq) == bd);
        lemma_mul_comm(g[q], bd);
        lemma_mul_assoc(b32, yq, g[q]);
        lemma_mul_comm(yq, g[q]);
    }
    crate::poly::lemma_gsum_ext(f, |q: int| gf_mul(b32, h(q)), 33);
    crate::poly::lemma_gsum_scale(b32, h, 33);
    lemma_mul_const(b32);
    assert(horner(g, b, 33) == 0);
    let one = seq![g[0]];
    assert(one + g.skip(1) =~= g);
    lemma_horner_concat(one, g.skip(1), b, 32);
    assert(horner(one, b, 1) == 1) by {
        assert(horner(one, b, 0) == 0);
        lemma_mul_const(b);
        lemma_xor(1, 0, 0, 0);
    }
    lemma_xor(b32, horner(g.skip(1), b, 32), 0, 0);
}

proof fn lemma_parity_step(
    parity: Seq<u8>,
    next: Seq<u8>,
    g: Seq<u8>,
    symbol: u8,
    h: u8,
    b: u8,
)
    requires
        parity.len() == 32,
        next.len() == 32,
        g.len() == 33,
        horner(g.skip(1), b, 32) == gf_pow(b, 32),
        forall|j: int|
            0 <= j < 32 ==> next[j] == (if j < 31 {
                parity[j + 1]
            } else {
                0u8
            }) ^ gf_mul(symbol ^ parity[0], g[j + 1]),
        horner(parity, b, 32) == gf_mul(gf_pow(b, 32), h),
    ensures
        horner(next, b, 32) == gf_mul(gf_pow(b, 32), gf_mul(b, h) ^ symbol),
{
    let f = symbol ^ parity[0];
    let sh = parity.skip(1).push(0u8);
    let b32 = gf_pow(b, 32);
    lemma_horner_combine(sh, f, g.skip(1), next, b, 32);
    let rest = horner(parity.skip(1), b, 31);
    lemma_horner_ext(sh, parity.skip(1), b, 31);
    let hs = horner(sh, b, 32);
    assert(hs == gf_mul(b, rest)) by {
        assert(horner(sh, b, 31) == rest);
        lemma_xor(gf_mul(b, rest), 0, 0, 0);
    }
    let one = seq![parity[0]];
    assert(one + parity.skip(1) =~= parity);
    lemma_horner_concat(one, parity.skip(1), b, 31);
    assert(horner(one, b, 1) == parity[0]) by {
        assert(horner(one, b, 0) == 0);
        lemma_mul_const(b);
        lemma_xor(parity[0], 0, 0, 0);
    }
    let top = gf_mul(gf_pow(b, 31), parity[0]);
    let hp = horner(parity, b, 32);
    lemma_xor(top, rest, 0, 0);
    assert(rest == hp ^ top) by {
        lemma_xor(rest, top, 0, 0);
    }
    lemma_mul_add(b, hp, top);
    lemma_mul_assoc(b, gf_pow(b, 31), parity[0]);
    assert(b32 == gf_mul(b, gf_pow(b, 31)));
    // hs = b hp + b32 p0
    lemma_mul_assoc(b, b32, h);
    lemma_mul_comm(b, b32);
    lemma_mul_assoc(b32, b, h);
    assert(gf_mul(b, hp) == gf_mul(b32, gf_mul(b, h)));
    lemma_mul_comm(f, b32);
    lemma_mul_add(b32, symbol, parity[0]);
    lemma_mul_add(b32, gf_mul(b, h), symbol);
    let u = gf_mul(b32, gf_mul(b, h));
    let v = gf_mul(b32, parity[0]);
    let w = gf_mul(b32, symbol);
    lemma_xor_cancel(u, v, w);
}

proof fn lemma_xor_cancel(u: u8, v: u8, w: u8)
    by (bit_vector)
    ensures
        (u ^ v) ^ (w ^ v) == u ^ w,
{
}

/// The 32 parity symbols of a message.
pub fn encode_parity(message: &[u8]) -> (parity: [u8; 32])
    ensures
        is_parity(message@, parity@),
{
    let mut pos: Vec<usize> = Vec::new();
    let mut i: usize = 0;
    while i < PARITY_LEN
        invariant
            i <= 32,
            pos@.len() == i,
            forall|k: int| 0 <= k < i ==> #[trigger] pos@[k] == 111 + k,
        decreases 32 - i,
    {
        pos.push(111 + i);
        i = i + 1;
    }
    let g: [u8; 33] = erasure_poly(pos.as_slice());
    assert(pos@.map_values(|e: usize| e as int) =~= generator_positions());
    let mut parity: [u8; 32] = [
        0, 0, 0, 0, 0, 0, 0, 0, 0, 0, 0, 0, 0, 0, 0, 0,
        0, 0, 0, 0, 0, 0, 0, 0, 0, 0, 0, 0, 0, 0, 0, 0,
    ];
    let mut n: usize = 0;
    proof {
        assert forall|r: nat| r < 32 implies #[trigger] horner(parity@, generator_root(r), 32)
            == gf_mul(
            gf_pow(generator_root(r), 32),
            horner(message@, generator_root(r), 0),
        ) by {
            lemma_horner_zeros(parity@, generator_root(r), 32);
            lemma_mul_const(gf_pow(generator_root(r), 32));
        }
    }
    while n < message.len()
        invariant
            n <= message@.len(),
            g@ == erasure_locator(generator_positions()),
            forall|r: nat|
                r < 32 ==> #[trigger] horner(parity@, generator_root(r), 32) == gf_mul(
                    gf_pow(generator_root(r), 32),
                    horner(message@, generator_root(r), n as nat),
                ),
        decreases message@.len() - n,
    {
        let feedback: u8 = message[n] ^ parity[0];
        let ghost before = parity@;
        let mut j: usize = 0;
        while j < PARITY_LEN
            invariant
                j <= 32,
                before.len() == 32,
                feedback == message@[n as int] ^ before[0],
                forall|k: int| j <= k < 32 ==> parity@[k] == before[k],
                forall|k: int|
                    0 <= k < j ==> #[trigger] parity@[k] == (if k < 31 {
                        before[k + 1]
                    } else {
                        0u8
                    }) ^ gf_mul(feedback, g@[k + 1]),
            decreases 32 - j,
        {
            let carried: u8 = if j < 31 {
                parity[j + 1]
            } else {
                0
            };
            parity[j] = carried ^ gf_product(feedback, g[j + 1]);
            j = j + 1;
        }
        proof {
            assert forall|r: nat| r < 32 implies #[trigger] horner(parity@, generator_root(r), 32)
                == gf_mul(
                gf_pow(generator_root(r), 32),
                horner(message@, generator_root(r), (n + 1) as nat),
            ) by {
                let b = generator_root(r);
                lemma_generator(g@, r);
                assert(horner(before, b, 32) == gf_mul(
                    gf_pow(b, 32),
                    horner(message@, b, n as nat),
                ));
                lemma_parity_step(
                    before,
                    parity@,
                    g@,
                    message@[n as int],
                    horner(message@, b, n as nat),
                    b,
                );
            }
        }
        n = n + 1;
    }
    proof {
        assert forall|r: nat| r < 32 implies #[trigger] horner(
            message@ + parity@,
            generator_root(r),
            message@.len() + 32,
        ) == 0 by {
            let b = generator_root(r);
            lemma_horner_concat(message@, parity@, b, 32);
            assert(horner(parity@, b, 32) == gf_mul(
                gf_pow(b, 32),
                horner(message@, b, message@.len()),
            ));
            lemma_xor(horner(parity@, b, 32), 0, 0, 0);
        }
    }
    parity
}

/// The symbols of one interleave path of a message.
pub open spec fn path_symbols(data: Seq<u8>, interleave: int, path: int) -> Seq<u8> {
    Seq::new(
        (data.len() / interleave as nat),
        |k: int| data[path + k * interleave],
    )
}

/// Each path of the output is the same path of the message followed by its parity.
pub open spec fn is_shortened_encoding(message: Seq<u8>, interleave: int, out: Seq<u8>) -> bool {
    let k = (message.len() / interleave as nat) as int;
    &&& out.len() == message.len() + 32 * interleave
    &&& forall|path: int|
        0 <= path < interleave ==> {
            let symbols = #[trigger] path_symbols(out, interleave, path);
            &&& symbols.take(k) == path_symbols(message, interleave, path)
            &&& is_parity(symbols.take(k), symbols.skip(k))
        }
}

/// Encode an interleaved shortened message and append parity.
pub fn encode_shortened(message: &[u8], interleave: usize) -> (out: Vec<u8>)
    requires
        interleave > 0,
        message@.len() % interleave as nat == 0,
        message@.len() + 32 * interleave <= usize::MAX,
    ensures
        is_shortened_encoding(message@, interleave as int, out@),
{
    let ghost i = interleave as int;
    let len: usize = message.len();
    let data_len: usize = len / interleave;
    proof {
        vstd::arithmetic::div_mod::lemma_fundamental_div_mod(len as int, i);
        assert(len == data_len * i) by (nonlinear_arith)
            requires
                len == i * data_len,
        ;
        assert(len + 32 * i == (data_len + 32) * i) by (nonlinear_arith)
            requires
                len == data_len * i,
        ;
        assert(data_len <= len) by (nonlinear_arith)
            requires
                len == data_len * i,
                i >= 1,
        ;
    }
    let rs_nn: usize = data_len + PARITY_LEN;
    let total: usize = rs_nn * interleave;
    let mut out: Vec<u8> = vec![0u8; total];
    let ghost mut words: Seq<Seq<u8>> = Seq::empty();
    let mut path: usize = 0;
    while path < interleave
        invariant
            path <= interleave,
            i == interleave,
            0 < i,
            len == message@.len(),
            len == data_len * i,
            data_len == len / interleave,
            rs_nn == data_len + 32,
            total == rs_nn * i,
            out@.len() == total,
            words.len() == path,
            forall|q: int|
                0 <= q < path ==> {
                    let w = #[trigger] words[q];
                    &&& w.len() == rs_nn
                    &&& w.take(data_len as int) == path_symbols(message@, i, q)
                    &&& is_parity(w.take(data_len as int), w.skip(data_len as int))
                },
            forall|j: int|
                0 <= j < total && j % i < path ==> #[trigger] out@[j] == words[j % i][j / i],
        decreases interleave - path,
    {
        let mut data: Vec<u8> = Vec::new();
        let mut k: usize = 0;
        while k < data_len
            invariant
                k <= data_len,
                i == interleave,
                path < interleave,
                len == message@.len(),
                len == data_len * i,
                data@.len() == k,
                forall|m: int| 0 <= m < k ==> data@[m] == message@[path + m * i],
            decreases data_len - k,
        {
            proof {
                lemma_interleaved_index(path as int, k as int, data_len as int, i);
            }
            data.push(message[path + k * interleave]);
            k = k + 1;
        }
        assert(data@ =~= path_symbols(message@, i, path as int));
        let parity: [u8; 32] = encode_parity(data.as_slice());
        let ghost word = data@ + parity@;
        assert(word.take(data_len as int) =~= data@);
        assert(word.skip(data_len as int) =~= parity@);
        let ghost before = out@;
        let mut m: usize = 0;
        while m < rs_nn
            invariant
                m <= rs_nn,
                i == interleave,
                path < interleave,
                rs_nn == data_len + 32,
                total == rs_nn * i,
                out@.len() == total,
                before.len() == total,
                data@.len() == data_len,
                word == data@ + parity@,
                forall|j: int|
                    0 <= j < total && j % i != path ==> #[trigger] out@[j] == before[j],
                forall|j: int|
                    0 <= j < total && j % i == path && j / i < m ==> #[trigger] out@[j]
                        == word[j / i],
            decreases rs_nn - m,
        {
            proof {
                lemma_interleaved_index(path as int, m as int, rs_nn as int, i);
            }
            let at: usize = path + m * interleave;
            let ghost prev = out@;
            let symbol: u8 = if m < data_len {
                data[m]
            } else {
                parity[m - data_len]
            };
            out[at] = symbol;
            proof {
                assert forall|j: int|
                    0 <= j < total && j % i == path && j / i < m + 1 implies #[trigger] out@[j]
                    == word[j / i] by {
                    if j / i == m {
                        vstd::arithmetic::div_mod::lemma_fundamental_div_mod(j, i);
                        assert(j == at) by (nonlinear_arith)
                            requires
                                j == i * (j / i) + j % i,
                                j / i == m as int,
                                j % i == path as int,
                                at == path + m * i,
                        ;
                    } else {
                        assert(j != at);
                        assert(out@[j] == prev[j]);
                    }
                }
            }
            m = m + 1;
        }
        proof {
            let old_words = words;
            words = words.push(word);
            assert forall|j: int| 0 <= j < total && j % i < path + 1 implies #[trigger] out@[j]
                == words[j % i][j / i] by {
                if j % i == path {
                    vstd::arithmetic::div_mod::lemma_fundamental_div_mod(j, i);
                    assert(j / i < rs_nn) by (nonlinear_arith)
                        requires
                            j == i * (j / i) + j % i,
                            0 <= j % i,
                            j < rs_nn * i,
                            i > 0,
                    ;
                } else {
                    assert(out@[j] == before[j]);
                    assert(words[j % i] == old_words[j % i]);
                }
            }
        }
        path = path + 1;
    }
    proof {
        vstd::arithmetic::div_mod::lemma_fundamental_div_mod_converse(
            total as int,
            i,
            rs_nn as int,
            0,
        );
        assert forall|q: int| 0 <= q < i implies {
            let symbols = #[trigger] path_symbols(out@, i, q);
            &&& symbols.take(data_len as int) == path_symbols(message@, i, q)
            &&& is_parity(symbols.take(data_len as int), symbols.skip(data_len as int))
        } by {
            let symbols = path_symbols(out@, i, q);
            assert(symbols.len() == rs_nn);
            assert forall|k: int| 0 <= k < rs_nn implies symbols[k] == words[q][k] by {
                lemma_interleaved_index(q, k, rs_nn as int, i);
                assert(out@[q + k * i] == words[(q + k * i) % i][(q + k * i) / i]);
            }
            assert(symbols =~= words[q]);
        }
    }
    out
}

/// Position `x` of the block comes from an erasure of the interleaved word.
spec fn erased_from(erasures: Seq<usize>, x: int, interleave: int, path: int) -> bool {
    exists|m: int| 0 <= m < erasures.len() && #[trigger] erasures[m] == x * interleave + path
}

proof fn lemma_path_erasures(erasures: Seq<usize>, interleave: int, path: int, pad: int, len: int)
    requires
        0 < interleave,
        0 <= path < interleave,
        0 <= pad,
        len % interleave == 0,
        pad + len / interleave == 255,
        forall|k: int| 0 <= k < erasures.len() ==> #[trigger] erasures[k] < len,
        erasures.no_duplicates(),
    ensures
        ({
            let out = path_erasures(erasures, interleave, path, pad);
            &&& out.no_duplicates()
            &&& forall|k: int| 0 <= k < out.len() ==> pad <= #[trigger] out[k] < 255
            &&& forall|k: int|
                0 <= k < out.len() ==> erased_from(
                    erasures,
                    #[trigger] out[k] - pad,
                    interleave,
                    path,
                )
        }),
    decreases erasures.len(),
{
    let out = path_erasures(erasures, interleave, path, pad);
    if erasures.len() > 0 {
        let front = erasures.drop_last();
        assert forall|k: int| 0 <= k < front.len() implies #[trigger] front[k] < len by {
            assert(front[k] == erasures[k]);
        }
        lemma_path_erasures(front, interleave, path, pad, len);
        let before = path_erasures(front, interleave, path, pad);
        let e = erasures.last() as int;
        assert(e == erasures[erasures.len() - 1]);
        let q = e / interleave;
        vstd::arithmetic::div_mod::lemma_fundamental_div_mod(e, interleave);
        vstd::arithmetic::div_mod::lemma_fundamental_div_mod(len, interleave);
        assert(0 <= q < len / interleave) by (nonlinear_arith)
            requires
                interleave > 0,
                0 <= e < len,
                q == e / interleave,
                e == interleave * q + e % interleave,
                0 <= e % interleave,
                len == interleave * (len / interleave),
        ;
        if e % interleave == path {
            let x = (pad + q) as usize;
            assert(e == q * interleave + path) by (nonlinear_arith)
                requires
                    e == interleave * q + path,
            ;
            assert forall|k: int| 0 <= k < before.len() implies before[k] != x by {
                assert(erased_from(front, before[k] - pad, interleave, path));
                let m = choose|m: int|
                    0 <= m < front.len() && #[trigger] front[m] == (before[k] - pad) * interleave
                        + path;
                if before[k] == x {
                    assert(front[m] == erasures[m]);
                    assert(erasures[m] != erasures[erasures.len() - 1]);
                }
            }
            assert forall|k: int| 0 <= k < out.len() implies erased_from(
                erasures,
                #[trigger] out[k] - pad,
                interleave,
                path,
            ) by {
                if k < before.len() {
                    assert(out[k] == before[k]);
                    assert(erased_from(front, before[k] - pad, interleave, path));
                    let m = choose|m: int|
                        0 <= m < front.len() && #[trigger] front[m] == (before[k] - pad)
                            * interleave + path;
                    assert(erasures[m] == (out[k] - pad) * interleave + path);
                } else {
                    assert(erasures[erasures.len() - 1] == (out[k] - pad) * interleave + path);
                }
            }
        } else {
            assert forall|k: int| 0 <= k < out.len() implies erased_from(
                erasures,
                #[trigger] out[k] - pad,
                interleave,
                path,
            ) by {
                assert(erased_from(front, before[k] - pad, interleave, path));
                let m = choose|m: int|
                    0 <= m < front.len() && #[trigger] front[m] == (before[k] - pad) * interleave
                        + path;
                assert(erasures[m] == (out[k] - pad) * interleave + path);
            }
        }
    }
}

/// Every path of an encoding is a codeword.
pub proof fn lemma_path_is_codeword(message: Seq<u8>, interleave: int, sent: Seq<u8>, path: int)
    requires
        0 < interleave,
        message.len() % interleave as nat == 0,
        message.len() / interleave as nat <= 223,
        is_shortened_encoding(message, interleave, sent),
        0 <= path < interleave,
    ensures
        sent.len() % interleave as nat == 0,
        sent.len() / interleave as nat == message.len() / interleave as nat + 32,
        is_codeword(
            path_block(
                sent,
                interleave,
                path,
                255 - (sent.len() / interleave as nat),
            ),
        ),
{
    let k = (message.len() / interleave as nat) as int;
    vstd::arithmetic::div_mod::lemma_fundamental_div_mod(message.len() as int, interleave);
    assert(sent.len() == interleave * (k + 32)) by (nonlinear_arith)
        requires
            sent.len() == message.len() + 32 * interleave,
            message.len() == interleave * k,
    ;
    assert(sent.len() == (k + 32) * interleave) by (nonlinear_arith)
        requires
            sent.len() == interleave * (k + 32),
    ;
    vstd::arithmetic::div_mod::lemma_fundamental_div_mod_converse(
        sent.len() as int,
        interleave,
        k + 32,
        0,
    );
    let pad = 255 - (sent.len() / interleave as nat);
    let symbols = path_symbols(sent, interleave, path);
    let zeros = Seq::new(pad as nat, |i: int| 0u8);
    let block = path_block(sent, interleave, path, pad);
    assert(block =~= zeros + symbols);
    assert(symbols.take(k) + symbols.skip(k) =~= symbols);
    assert forall|i: nat| i < 32 implies syndrome(block, i) == 0 by {
        let b = generator_root(i);
        lemma_horner_syndrome(block, i);
        lemma_horner_zeros(zeros, b, pad as nat);
        lemma_horner_concat(zeros, symbols, b, symbols.len());
        lemma_mul_const(gf_pow(b, symbols.len()));
        lemma_xor(horner(symbols, b, symbols.len()), 0, 0, 0);
        assert(horner(symbols.take(k) + symbols.skip(k), b, symbols.take(k).len() + 32) == 0);
    }
}

/// On this path twice the unerased errors plus the erasures are at most 32.
pub open spec fn damage_fits(
    received: Seq<u8>,
    sent: Seq<u8>,
    erasures: Seq<usize>,
    interleave: nat,
    path: int,
) -> bool {
    let pad = 255 - sent.len() / interleave;
    let eras = path_erasures(erasures, interleave as int, path, pad);
    2 * crate::rs_laws::mismatches(
        path_block(received, interleave as int, path, pad),
        path_block(sent, interleave as int, path, pad),
        as_positions(eras),
        255,
    ).len() + eras.len() <= 32
}

/// What the decoder reports for one path of a repaired word: nothing where the path came
/// as a codeword, else its unerased errors and all its erasures.
pub open spec fn path_corrections(
    received: Seq<u8>,
    sent: Seq<u8>,
    erasures: Seq<usize>,
    interleave: nat,
    path: int,
) -> nat {
    let pad = 255 - sent.len() / interleave;
    let eras = path_erasures(erasures, interleave as int, path, pad);
    let block = path_block(received, interleave as int, path, pad);
    if is_codeword(block) {
        0
    } else {
        crate::rs_laws::mismatches(
            block,
            path_block(sent, interleave as int, path, pad),
            as_positions(eras),
            255,
        ).len() + eras.len()
    }
}

/// What the decoder reports for the paths below `n` of a repaired word.
pub open spec fn corrections(
    received: Seq<u8>,
    sent: Seq<u8>,
    erasures: Seq<usize>,
    interleave: nat,
    n: nat,
) -> nat
    decreases n,
{
    if n == 0 {
        0
    } else {
        corrections(received, sent, erasures, interleave, (n - 1) as nat) + path_corrections(
            received,
            sent,
            erasures,
            interleave,
            n - 1,
        )
    }
}

/// The number of positions below `n` at which two words differ.
pub open spec fn damaged_bytes(a: Seq<u8>, b: Seq<u8>, n: nat) -> nat
    decreases n,
{
    if n == 0 {
        0
    } else {
        damaged_bytes(a, b, (n - 1) as nat) + if a[n - 1] != b[n - 1] {
            1nat
        } else {
            0
        }
    }
}

/// The mismatches of the paths below `n`, each block up to its sent symbol `t`.
spec fn paths_damaged(a: Seq<u8>, b: Seq<u8>, interleave: int, pad: int, n: nat, t: nat) -> nat
    decreases n,
{
    if n == 0 {
        0
    } else {
        paths_damaged(a, b, interleave, pad, (n - 1) as nat, t) + crate::rs_laws::mismatches(
            path_block(a, interleave, n - 1, pad),
            path_block(b, interleave, n - 1, pad),
            Seq::empty(),
            (pad + t) as nat,
        ).len()
    }
}

proof fn lemma_no_mismatch_in_pad(
    a: Seq<u8>,
    b: Seq<u8>,
    interleave: int,
    path: int,
    pad: int,
    n: nat,
)
    requires
        n <= pad <= 255,
    ensures
        crate::rs_laws::mismatches(
            path_block(a, interleave, path, pad),
            path_block(b, interleave, path, pad),
            Seq::empty(),
            n,
        ).len() == 0,
    decreases n,
{
    if n > 0 {
        lemma_no_mismatch_in_pad(a, b, interleave, path, pad, (n - 1) as nat);
    }
}

proof fn lemma_paths_undamaged(a: Seq<u8>, b: Seq<u8>, interleave: int, pad: int, n: nat)
    requires
        0 <= pad <= 255,
    ensures
        paths_damaged(a, b, interleave, pad, n, 0) == 0,
    decreases n,
{
    if n > 0 {
        lemma_paths_undamaged(a, b, interleave, pad, (n - 1) as nat);
        lemma_no_mismatch_in_pad(a, b, interleave, n - 1, pad, pad as nat);
    }
}

/// One more symbol of each path below `n` is one more stretch of the word.
proof fn lemma_next_symbols(
    a: Seq<u8>,
    b: Seq<u8>,
    interleave: int,
    pad: int,
    n: nat,
    t: nat,
)
    requires
        0 <= pad,
        pad + t < 255,
        n <= interleave,
    ensures
        paths_damaged(a, b, interleave, pad, n, t + 1) + damaged_bytes(
            a,
            b,
            (t * interleave) as nat,
        ) == paths_damaged(a, b, interleave, pad, n, t) + damaged_bytes(
            a,
            b,
            (t * interleave + n) as nat,
        ),
    decreases n,
{
    assert(t * interleave >= 0) by (nonlinear_arith)
        requires
            interleave >= 0,
            t >= 0,
    ;
    if n > 0 {
        lemma_next_symbols(a, b, interleave, pad, (n - 1) as nat, t);
        let x = path_block(a, interleave, n - 1, pad);
        let y = path_block(b, interleave, n - 1, pad);
        assert(x[pad + t] == a[(n - 1) + t * interleave]);
        assert(y[pad + t] == b[(n - 1) + t * interleave]);
        assert((pad + (t + 1)) as nat - 1 == pad + t);
        assert((t * interleave + n) as nat - 1 == (n - 1) + t * interleave);
    }
}

proof fn lemma_paths_damaged(a: Seq<u8>, b: Seq<u8>, interleave: int, pad: int, t: nat)
    requires
        interleave > 0,
        0 <= pad,
        pad + t <= 255,
    ensures
        paths_damaged(a, b, interleave, pad, interleave as nat, t) == damaged_bytes(
            a,
            b,
            (t * interleave) as nat,
        ),
    decreases t,
{
    if t == 0 {
        lemma_paths_undamaged(a, b, interleave, pad, interleave as nat);
    } else {
        let u = (t - 1) as nat;
        lemma_paths_damaged(a, b, interleave, pad, u);
        lemma_next_symbols(a, b, interleave, pad, interleave as nat, u);
        assert(u * interleave + interleave == t * interleave) by (nonlinear_arith)
            requires
                u == t - 1,
        ;
    }
}

/// Where nothing is erased and every path is within reach, the corrections of the paths
/// below `n` are their damaged bytes: a path that came as a codeword is undamaged.
proof fn lemma_corrections_are_damage(
    message: Seq<u8>,
    interleave: nat,
    sent: Seq<u8>,
    received: Seq<u8>,
    n: nat,
)
    requires
        interleave > 0,
        message.len() % interleave == 0,
        0 < message.len() / interleave <= 223,
        is_shortened_encoding(message, interleave as int, sent),
        received.len() == sent.len(),
        n <= interleave,
        forall|path: int|
            0 <= path < interleave ==> #[trigger] damage_fits(
                received,
                sent,
                Seq::empty(),
                interleave,
                path,
            ),
    ensures
        corrections(received, sent, Seq::empty(), interleave, n) == paths_damaged(
            received,
            sent,
            interleave as int,
            255 - sent.len() / interleave,
            n,
            sent.len() / interleave,
        ),
    decreases n,
{
    if n > 0 {
        lemma_corrections_are_damage(message, interleave, sent, received, (n - 1) as nat);
        let i = interleave as int;
        let path = n - 1;
        lemma_path_is_codeword(message, i, sent, path);
        let pad = 255 - sent.len() / interleave;
        let eras = path_erasures(Seq::empty(), i, path, pad);
        assert(as_positions(eras) =~= Seq::<int>::empty());
        assert(damage_fits(received, sent, Seq::empty(), interleave, path));
        let block = path_block(received, i, path, pad);
        if is_codeword(block) {
            lemma_no_mismatch(block, 255);
            crate::rs_laws::law_codewords_far_apart(block, block, path_block(sent, i, path, pad));
        }
        assert((pad + sent.len() / interleave) as nat == 255);
    }
}

proof fn lemma_no_mismatch(block: Seq<u8>, n: nat)
    ensures
        crate::rs_laws::mismatches(block, block, Seq::empty(), n).len() == 0,
    decreases n,
{
    if n > 0 {
        lemma_no_mismatch(block, (n - 1) as nat);
    }
}

proof fn lemma_corrections(
    received: Seq<u8>,
    sent: Seq<u8>,
    erasures: Seq<usize>,
    interleave: nat,
    n: nat,
)
    requires
        forall|path: int|
            0 <= path < n ==> (#[trigger] path_outcome(
                received,
                interleave as int,
                erasures,
                path,
            )).unwrap().1 == path_corrections(received, sent, erasures, interleave, path),
    ensures
        paths_corrected(received, interleave as int, erasures, n) == corrections(
            received,
            sent,
            erasures,
            interleave,
            n,
        ),
    decreases n,
{
    if n > 0 {
        lemma_corrections(received, sent, erasures, interleave, (n - 1) as nat);
        assert(path_outcome(received, interleave as int, erasures, n - 1).unwrap().1
            == path_corrections(received, sent, erasures, interleave, n - 1));
    }
}

/// Damage within reach is repaired: when on every path twice the number of unerased
/// errors plus the number of erasures is at most 32, the received word decodes to the
/// encoded message. Without erasures the corrections are the damaged bytes; an
/// undamaged word needs none.
pub proof fn law_damaged_codeword_is_repaired(
    message: Seq<u8>,
    interleave: nat,
    sent: Seq<u8>,
    received: Seq<u8>,
    erasures: Seq<usize>,
)
    requires
        interleave > 0,
        message.len() % interleave == 0,
        0 < message.len() / interleave <= 223,
        is_shortened_encoding(message, interleave as int, sent),
        received.len() == sent.len(),
        erasures.no_duplicates(),
        forall|k: int| 0 <= k < erasures.len() ==> #[trigger] erasures[k] < sent.len(),
        forall|path: int|
            0 <= path < interleave ==> #[trigger] damage_fits(
                received,
                sent,
                erasures,
                interleave,
                path,
            ),
    ensures
        decodes(received, interleave, erasures),
        decoded_message(received, interleave, erasures) == message,
        paths_corrected(received, interleave as int, erasures, interleave) == corrections(
            received,
            sent,
            erasures,
            interleave,
            interleave,
        ),
        erasures.len() == 0 ==> paths_corrected(
            received,
            interleave as int,
            erasures,
            interleave,
        ) == damaged_bytes(received, sent, sent.len()),
        received == sent ==> paths_corrected(received, interleave as int, erasures, interleave)
            == 0,
{
    let i = interleave as int;
    let k = (message.len() / interleave) as int;
    lemma_path_is_codeword(message, i, sent, 0);
    let pad = 255 - sent.len() / interleave;
    assert forall|path: int| 0 <= path < i implies #[trigger] path_outcome(
        received,
        i,
        erasures,
        path,
    ) matches Some(o) && o.0 == path_block(sent, i, path, pad) && o.1 == path_corrections(
        received,
        sent,
        erasures,
        interleave,
        path,
    ) && (received == sent ==> o.1 == 0) by {
        let eras = path_erasures(erasures, i, path, pad);
        let list = as_positions(eras);
        assert(damage_fits(received, sent, erasures, interleave, path));
        lemma_path_is_codeword(message, i, sent, path);
        lemma_path_erasures(erasures, i, path, pad, sent.len() as int);
        assert(positions(list)) by {
            assert forall|m: int| 0 <= m < list.len() implies 0 <= #[trigger] list[m] < 255 by {
                assert(list[m] == eras[m] as int);
            }
        }
        assert forall|m: int| 0 <= m < list.len() implies pad <= #[trigger] list[m] by {
            assert(list[m] == eras[m] as int);
        }
        assert(list.no_duplicates()) by {
            assert forall|a: int, b: int|
                0 <= a < list.len() && 0 <= b < list.len() && a != b implies list[a] != list[b] by {
                assert(eras[a] != eras[b]);
            }
        }
        crate::rs_laws::law_corrects_errors_and_erasures(
            path_block(received, i, path, pad),
            path_block(sent, i, path, pad),
            pad,
            list,
        );
    }
    assert(path_outcome(received, i, erasures, 0) is Some);
    lemma_no_corrections(received, i, erasures, interleave);
    lemma_corrections(received, sent, erasures, interleave, interleave);
    if erasures.len() == 0 {
        assert(erasures =~= Seq::empty());
        lemma_corrections_are_damage(message, interleave, sent, received, interleave);
        lemma_paths_damaged(received, sent, i, pad, sent.len() / interleave);
        vstd::arithmetic::div_mod::lemma_fundamental_div_mod(sent.len() as int, i);
        assert((sent.len() / interleave) * i == i * (sent.len() / interleave)) by (nonlinear_arith);
    }
    assert(!exists|path: int|
        0 <= path < i && #[trigger] path_outcome(received, i, erasures, path) is None);
    let out = decoded_message(received, interleave, erasures);
    vstd::arithmetic::div_mod::lemma_fundamental_div_mod(message.len() as int, i);
    assert forall|j: int| 0 <= j < message.len() implies out[j] == message[j] by {
        assert(path_outcome(received, i, erasures, j % i) is Some);
        lemma_message_symbol(message, i, sent, j, k);
    }
    assert(out =~= message);
}

/// Whatever was damaged within reach is recovered: when on every path twice the
/// number of unerased errors plus the number of erasures is at most 32, decoding
/// gives back the encoded message. Without erasures it reports the number of damaged
/// bytes; an undamaged word needs no correction.
pub proof fn law_shortened_recovers(
    message: Seq<u8>,
    interleave: nat,
    sent: Seq<u8>,
    received: Seq<u8>,
    erasures: Seq<usize>,
    res: Result<RsDecoded, DecodeError>,
)
    requires
        interleave > 0,
        message.len() % interleave == 0,
        0 < message.len() / interleave <= 223,
        is_shortened_encoding(message, interleave as int, sent),
        received.len() == sent.len(),
        erasures.no_duplicates(),
        forall|k: int| 0 <= k < erasures.len() ==> #[trigger] erasures[k] < sent.len(),
        forall|path: int|
            0 <= path < interleave ==> #[trigger] damage_fits(
                received,
                sent,
                erasures,
                interleave,
                path,
            ),
        shortened_result(received, interleave, erasures, res),
    ensures
        res is Ok,
        res->Ok_0.message@ == message,
        res->Ok_0.corrected_errors == corrections(
            received,
            sent,
            erasures,
            interleave,
            interleave,
        ),
        erasures.len() == 0 ==> res->Ok_0.corrected_errors == damaged_bytes(
            received,
            sent,
            sent.len(),
        ),
        received == sent ==> res->Ok_0.corrected_errors == 0,
{
    law_damaged_codeword_is_repaired(message, interleave, sent, received, erasures);
}

proof fn lemma_no_corrections(codeword: Seq<u8>, interleave: int, erasures: Seq<usize>, n: nat)
    requires
        forall|path: int|
            0 <= path < n ==> #[trigger] path_outcome(
                codeword,
                interleave,
                erasures,
                path,
            ) is Some,
    ensures
        (forall|path: int|
            0 <= path < n ==> (#[trigger] path_outcome(
                codeword,
                interleave,
                erasures,
                path,
            )).unwrap().1 == 0) ==> paths_corrected(codeword, interleave, erasures, n) == 0,
    decreases n,
{
    if n > 0 {
        lemma_no_corrections(codeword, interleave, erasures, (n - 1) as nat);
    }
}

/// An undamaged codeword decodes to its message without corrections, whatever
/// up to 32 symbols per path are marked as erased.
pub proof fn law_clean_codeword(
    message: Seq<u8>,
    interleave: nat,
    sent: Seq<u8>,
    erasures: Seq<usize>,
)
    requires
        interleave > 0,
        message.len() % interleave == 0,
        0 < message.len() / interleave <= 223,
        is_shortened_encoding(message, interleave as int, sent),
        forall|k: int| 0 <= k < erasures.len() ==> #[trigger] erasures[k] < sent.len(),
        forall|path: int|
            0 <= path < interleave ==> (#[trigger] path_erasures(
                erasures,
                interleave as int,
                path,
                255 - sent.len() / interleave,
            )).len() <= 32,
    ensures
        decodes(sent, interleave, erasures),
        decoded_message(sent, interleave, erasures) == message,
        paths_corrected(sent, interleave as int, erasures, interleave) == 0,
{
    let i = interleave as int;
    let k = (message.len() / interleave) as int;
    lemma_path_is_codeword(message, i, sent, 0);
    let pad = 255 - sent.len() / interleave;
    assert forall|path: int| 0 <= path < i implies #[trigger] path_outcome(
        sent,
        i,
        erasures,
        path,
    ) == Some((path_block(sent, i, path, pad), 0nat)) by {
        lemma_path_is_codeword(message, i, sent, path);
        assert(path_erasures(erasures, i, path, pad).len() <= 32);
    }
    lemma_no_corrections(sent, i, erasures, interleave);
    let out = decoded_message(sent, interleave, erasures);
    vstd::arithmetic::div_mod::lemma_fundamental_div_mod(message.len() as int, i);
    assert forall|j: int| 0 <= j < message.len() implies out[j] == message[j] by {
        lemma_message_symbol(message, i, sent, j, k);
    }
    assert(out =~= message);
}

/// A message symbol stands at its place in the block of its path.
/// A message symbol stands on its path of the encoding.
pub proof fn lemma_message_symbol(message: Seq<u8>, i: int, sent: Seq<u8>, j: int, k: int)
    requires
        i > 0,
        message.len() % i as nat == 0,
        k == message.len() / i as nat,
        k <= 223,
        is_shortened_encoding(message, i, sent),
        0 <= j < message.len(),
    ensures
        path_block(sent, i, j % i, 255 - sent.len() / i as nat)[255 - sent.len() / i as nat + j / i]
            == message[j],
{
    let path = j % i;
    let m = j / i;
    vstd::arithmetic::div_mod::lemma_fundamental_div_mod(message.len() as int, i);
    vstd::arithmetic::div_mod::lemma_fundamental_div_mod(j, i);
    lemma_path_is_codeword(message, i, sent, path);
    assert(j == path + m * i) by (nonlinear_arith)
        requires
            j == i * m + path,
    ;
    assert(0 <= m < k) by (nonlinear_arith)
        requires
            j == i * m + path,
            0 <= path < i,
            0 <= j < i * k,
    ;
    let symbols = path_symbols(sent, i, path);
    assert(symbols.take(k) == path_symbols(message, i, path));
    assert(symbols.take(k)[m] == symbols[m]);
    assert(path_symbols(message, i, path)[m] == message[path + m * i]);
}

} // verus!
