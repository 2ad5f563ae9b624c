//! The CCSDS 131.0-B pseudo-randomizer: a right-shift Fibonacci register with
//! `h(x) = x^8 + x^7 + x^5 + x^3 + 1`, started at all ones. The low bit is the
//! output; the first output bit lands in the high bit of the first byte.
use vstd::prelude::*;
use crate::gf256::lemma_xor;
use crate::viterbi::bit_parity;

verus! {

/// Feedback taps.
pub const POLY_MASK: u8 = 0xa9;

/// The next state of the register.
pub open spec fn next_state(state: u8) -> u8 {
    (state >> 1u8) | (bit_parity(state & POLY_MASK) << 7u8)
}

/// The register after `n` output bits.
pub open spec fn state_after(n: nat) -> u8
    decreases n,
{
    if n == 0 {
        0xff
    } else {
        next_state(state_after((n - 1) as nat))
    }
}

/// The first `j` bits of mask byte `k`, from the high bit down.
pub open spec fn mask_bits(k: nat, j: nat) -> u8
    decreases j,
{
    if j == 0 {
        0
    } else {
        mask_bits(k, (j - 1) as nat) | ((state_after((8 * k + j - 1) as nat) & 1u8) << (8 - j) as u8)
    }
}

/// The byte that data byte `k` is combined with.
pub open spec fn mask_byte(k: nat) -> u8 {
    mask_bits(k, 8)
}

/// The data combined with the sequence.
pub open spec fn randomized(data: Seq<u8>) -> Seq<u8> {
    Seq::new(data.len(), |k: int| data[k] ^ mask_byte(k as nat))
}

/// Combine `bytes` with the pseudo-random sequence, in place.
pub fn xor_sequence(bytes: &mut [u8])
    ensures
        final(bytes)@ == randomized(old(bytes)@),
{
    let mut state: u8 = 0xff;
    let mut k: usize = 0;
    let len: usize = bytes.len();
    while k < len
        invariant
            k <= len,
            len == bytes@.len(),
            len == old(bytes)@.len(),
            state == state_after((8 * k) as nat),
            forall|i: int| 0 <= i < k ==> bytes@[i] == old(bytes)@[i] ^ mask_byte(i as nat),
            forall|i: int| k <= i < len ==> bytes@[i] == old(bytes)@[i],
        decreases len - k,
    {
        let mut mask: u8 = 0;
        let mut j: u8 = 0;
        while j < 8
            invariant
                j <= 8,
                state == state_after((8 * k + j) as nat),
                mask == mask_bits(k as nat, j as nat),
            decreases 8 - j,
        {
            mask = mask | ((state & 1u8) << (7 - j));
            state = (state >> 1u8) | (crate::viterbi::parity(state & POLY_MASK) << 7u8);
            j = j + 1;
        }
        bytes[k] = bytes[k] ^ mask;
        k = k + 1;
    }
    assert(bytes@ =~= randomized(old(bytes)@));
}

/// The randomizer undoes itself.
pub proof fn law_self_inverse(data: Seq<u8>)
    ensures
        randomized(randomized(data)) == data,
{
    assert forall|k: int| 0 <= k < data.len() implies randomized(randomized(data))[k]
        == data[k] by {
        lemma_xor(data[k], mask_byte(k as nat), 0, 0);
    }
    assert(randomized(randomized(data)) =~= data);
}

/// Bit `m` of what was applied to `before` to give `after`, counted from the high bit of
/// the first byte.
pub open spec fn applied_bit(before: Seq<u8>, after: Seq<u8>, m: int) -> u8 {
    ((before[m / 8] ^ after[m / 8]) >> ((7 - m % 8) as u8)) & 1u8
}

/// The register holds the next eight output bits, the next one lowest.
proof fn lemma_register(s: u8, b: u8, mask: u8, i: u8, j: u8)
    by (bit_vector)
    ensures
        i < 8 && i == j + 1 ==> (s >> i) & 1u8 == (next_state(s) >> j) & 1u8,
        (next_state(s) >> 7u8) & 1u8 == ((s >> 7u8) & 1u8) ^ ((s >> 5u8) & 1u8) ^ ((s >> 3u8) & 1u8)
            ^ (s & 1u8),
        (0xffu8 >> i) & 1u8 == if i < 8 {
            1u8
        } else {
            0u8
        },
        s >> 0u8 == s,
        b ^ (b ^ mask) == mask,
{
}

proof fn lemma_mask(s0: u8, s1: u8, s2: u8, s3: u8, s4: u8, s5: u8, s6: u8, s7: u8)
    by (bit_vector)
    ensures
        ({
            let m = 0u8 | ((s0 & 1u8) << 7u8) | ((s1 & 1u8) << 6u8) | ((s2 & 1u8) << 5u8) | ((s3
                & 1u8) << 4u8) | ((s4 & 1u8) << 3u8) | ((s5 & 1u8) << 2u8) | ((s6 & 1u8) << 1u8) | (
            (s7 & 1u8) << 0u8);
            &&& (m >> 7u8) & 1u8 == s0 & 1u8
            &&& (m >> 6u8) & 1u8 == s1 & 1u8
            &&& (m >> 5u8) & 1u8 == s2 & 1u8
            &&& (m >> 4u8) & 1u8 == s3 & 1u8
            &&& (m >> 3u8) & 1u8 == s4 & 1u8
            &&& (m >> 2u8) & 1u8 == s5 & 1u8
            &&& (m >> 1u8) & 1u8 == s6 & 1u8
            &&& (m >> 0u8) & 1u8 == s7 & 1u8
        }),
{
}

/// Bit `i` of the register is the output bit `i` steps later.
proof fn lemma_outputs(n: nat, i: nat)
    requires
        i < 8,
    ensures
        (state_after(n) >> (i as u8)) & 1u8 == state_after(n + i) & 1u8,
    decreases i,
{
    let s = state_after(n);
    lemma_register(s, 0, 0, 0, 0);
    if i > 0 {
        lemma_outputs(n + 1, (i - 1) as nat);
        lemma_register(s, 0, 0, i as u8, (i - 1) as u8);
        assert(state_after(n + 1) == next_state(s));
    }
}

proof fn lemma_mask_bit(k: nat, j: nat)
    requires
        j < 8,
    ensures
        (mask_byte(k) >> ((7 - j) as u8)) & 1u8 == state_after(8 * k + j) & 1u8,
{
    reveal_with_fuel(mask_bits, 9);
    let n = 8 * k;
    lemma_mask(
        state_after(n),
        state_after(n + 1),
        state_after(n + 2),
        state_after(n + 3),
        state_after(n + 4),
        state_after(n + 5),
        state_after(n + 6),
        state_after(n + 7),
    );
}

proof fn lemma_applied(data: Seq<u8>, m: nat)
    requires
        m < 8 * data.len(),
    ensures
        applied_bit(data, randomized(data), m as int) == state_after(m) & 1u8,
{
    let k = m / 8;
    lemma_mask_bit(k, m % 8);
    lemma_register(0, data[k as int], mask_byte(k), 0, 0);
    assert(m == 8 * k + m % 8);
}

/// The bits that are applied to data, of whatever length, are those of the polynomial
/// `x^8 + x^7 + x^5 + x^3 + 1` started at all ones: the first eight are ones, and every
/// later one is the sum of those one, three, five and eight places before it.
pub proof fn law_sequence_recurs(data: Seq<u8>, m: int)
    requires
        0 <= m < 8 * data.len(),
    ensures
        randomized(data).len() == data.len(),
        m < 8 ==> applied_bit(data, randomized(data), m) == 1,
        m >= 8 ==> applied_bit(data, randomized(data), m) == applied_bit(
            data,
            randomized(data),
            m - 1,
        ) ^ applied_bit(data, randomized(data), m - 3) ^ applied_bit(
            data,
            randomized(data),
            m - 5,
        ) ^ applied_bit(data, randomized(data), m - 8),
{
    lemma_applied(data, m as nat);
    if m < 8 {
        lemma_outputs(0, m as nat);
        lemma_register(0, 0, 0, m as u8, 0);
    } else {
        let n = (m - 8) as nat;
        let s = state_after(n);
        lemma_applied(data, (m - 1) as nat);
        lemma_applied(data, (m - 3) as nat);
        lemma_applied(data, (m - 5) as nat);
        lemma_applied(data, (m - 8) as nat);
        lemma_register(s, 0, 0, 0, 0);
        lemma_outputs(n, 3);
        lemma_outputs(n, 5);
        lemma_outputs(n, 7);
        lemma_outputs(n + 1, 7);
        assert(state_after(n + 1) == next_state(s));
    }
}

} // verus!
