//! CC11xx-style PN9 byte-level whitener.
//!
//! Used by Geoscan-family satellites whose TI CC1125 transceiver applies
//! hardware data whitening before transmission. The randomiser is a 9-bit
//! register with polynomial `x^9 + x^5 + 1` and initial state `0x1FF`. The
//! same routine descrambles received frames because XOR is symmetric.
//!
//! The first output bit XORs with bit 0 (LSB) of data byte 0, the eighth with
//! bit 7, and the next eight bits cover data byte 1 the same way. The first
//! eight whitening bytes are `FF E1 1D 9A ED 85 33 24`.
use vstd::prelude::*;
use crate::gf256::lemma_xor;

verus! {

/// The next state of the register.
pub open spec fn pn9_next(state: u16) -> u16 {
    (state >> 1u16) | (((state & 1u16) ^ ((state >> 5u16) & 1u16)) << 8u16)
}

/// The register `n` bits after `state`.
pub open spec fn pn9_state(state: u16, n: nat) -> u16
    decreases n,
{
    if n == 0 {
        state
    } else {
        pn9_next(pn9_state(state, (n - 1) as nat))
    }
}

/// The first `j` bits of the whitening byte that starts at `state`, low bit first.
pub open spec fn pn9_bits(state: u16, j: nat) -> u8
    decreases j,
{
    if j == 0 {
        0
    } else {
        pn9_bits(state, (j - 1) as nat) | (((pn9_state(state, (j - 1) as nat) & 1u16) as u8) << (j
            - 1) as u8)
    }
}

/// Whitening byte `k` of the stream that starts at `state`.
pub open spec fn pn9_byte(state: u16, k: nat) -> u8 {
    pn9_bits(pn9_state(state, 8 * k), 8)
}

/// `data` whitened by the stream that starts at `state`.
pub open spec fn whitened(state: u16, data: Seq<u8>) -> Seq<u8> {
    Seq::new(data.len(), |k: int| data[k] ^ pn9_byte(state, k as nat))
}

/// Stateful CC11xx PN9 whitener / descrambler.
///
/// [`Pn9Whitener::descramble`] advances the register, so consecutive calls
/// treat their inputs as one continuous stream. To restart the sequence
/// between frames, create a new instance.
pub struct Pn9Whitener {
    state: u16,
}

impl Pn9Whitener {
    /// The register state.
    pub closed spec fn register(&self) -> u16 {
        self.state
    }

    /// Create a new whitener with the register initialised to `0x1FF`, the
    /// CC11xx hardware default.
    pub fn new() -> (w: Self)
        ensures
            w.register() == 0x1FF,
    {
        Self { state: 0x1FF }
    }

    /// XOR each byte of `data` with the next eight whitening bits. Operates in
    /// place.
    pub fn descramble(&mut self, data: &mut [u8])
        ensures
            final(data)@ == whitened(old(self).register(), old(data)@),
            final(self).register() == pn9_state(old(self).register(), 8 * old(data)@.len()),
    {
        let ghost start = self.state;
        let mut k: usize = 0;
        let len: usize = data.len();
        let mut state: u16 = self.state;
        while k < len
            invariant
                k <= len,
                len == data@.len(),
                len == old(data)@.len(),
                start == old(self).register(),
                state == pn9_state(start, (8 * k) as nat),
                forall|i: int| 0 <= i < k ==> data@[i] == old(data)@[i] ^ pn9_byte(start, i as nat),
                forall|i: int| k <= i < len ==> data@[i] == old(data)@[i],
            decreases len - k,
        {
            let ghost base = state;
            let mut whitening: u8 = 0;
            let mut bit: u8 = 0;
            while bit < 8
                invariant
                    bit <= 8,
                    state == pn9_state(base, bit as nat),
                    whitening == pn9_bits(base, bit as nat),
                decreases 8 - bit,
            {
                whitening = whitening | (((state & 1u16) as u8) << bit);
                let feedback: u16 = (state & 1u16) ^ ((state >> 5u16) & 1u16);
                state = (state >> 1u16) | (feedback << 8u16);
                bit = bit + 1;
            }
            proof {
                lemma_state_add(start, (8 * k) as nat, 8);
            }
            data[k] = data[k] ^ whitening;
            k = k + 1;
        }
        self.state = state;
        assert(data@ =~= whitened(start, old(data)@));
    }
}

impl Default for Pn9Whitener {
    fn default() -> (w: Self)
        ensures
            w.register() == 0x1FF,
    {
        Self::new()
    }
}

proof fn lemma_state_add(state: u16, m: nat, n: nat)
    ensures
        pn9_state(pn9_state(state, m), n) == pn9_state(state, m + n),
    decreases n,
{
    if n > 0 {
        lemma_state_add(state, m, (n - 1) as nat);
    }
}

/// Whitening twice from the same state gives back the data.
pub proof fn law_involution(state: u16, data: Seq<u8>)
    ensures
        whitened(state, whitened(state, data)) == data,
{
    assert forall|k: int| 0 <= k < data.len() implies whitened(state, whitened(state, data))[k]
        == data[k] by {
        lemma_xor(data[k], pn9_byte(state, k as nat), 0, 0);
    }
    assert(whitened(state, whitened(state, data)) =~= data);
}

/// Two consecutive calls do what one call on the joined data does.
pub proof fn law_streaming(state: u16, head: Seq<u8>, tail: Seq<u8>)
    ensures
        whitened(state, head + tail) == whitened(state, head) + whitened(
            pn9_state(state, 8 * head.len()),
            tail,
        ),
        pn9_state(pn9_state(state, 8 * head.len()), 8 * tail.len()) == pn9_state(
            state,
            8 * (head + tail).len(),
        ),
{
    lemma_state_add(state, 8 * head.len(), 8 * tail.len());
    let one = whitened(state, head + tail);
    let two = whitened(state, head) + whitened(pn9_state(state, 8 * head.len()), tail);
    assert forall|k: int| 0 <= k < one.len() implies one[k] == two[k] by {
        if k >= head.len() {
            lemma_state_add(state, 8 * head.len(), (8 * (k - head.len())) as nat);
        }
    }
    assert(one =~= two);
}

/// Bit `m` of what was applied to `before` to give `after`, counted from the low bit of
/// the first byte.
pub open spec fn applied_bit(before: Seq<u8>, after: Seq<u8>, m: int) -> u8 {
    ((before[m / 8] ^ after[m / 8]) >> ((m % 8) as u8)) & 1u8
}

/// The register holds the next nine output bits, the next one lowest.
proof fn lemma_register(s: u16, b: u8, mask: u8, i: u16, j: u16)
    by (bit_vector)
    requires
        s < 512,
    ensures
        pn9_next(s) < 512,
        i < 9 && i == j + 1 ==> (s >> i) & 1u16 == (pn9_next(s) >> j) & 1u16,
        (pn9_next(s) >> 8u16) & 1u16 == ((s >> 5u16) & 1u16) ^ (s & 1u16),
        s >> 0u16 == s,
        b ^ (b ^ mask) == mask,
        s & 1u16 <= 1,
        (s >> i) & 1u16 <= 1,
        i < 9 ==> (0x1FFu16 >> i) & 1u16 == 1,
{
}

proof fn lemma_whitening(s0: u16, s1: u16, s2: u16, s3: u16, s4: u16, s5: u16, s6: u16, s7: u16)
    by (bit_vector)
    ensures
        ({
            let m = 0u8 | (((s0 & 1u16) as u8) << 0u8) | (((s1 & 1u16) as u8) << 1u8) | (((s2
                & 1u16) as u8) << 2u8) | (((s3 & 1u16) as u8) << 3u8) | (((s4 & 1u16) as u8) << 4u8)
                | (((s5 & 1u16) as u8) << 5u8) | (((s6 & 1u16) as u8) << 6u8) | (((s7
                & 1u16) as u8) << 7u8);
            &&& (m >> 0u8) & 1u8 == s0 & 1u16
            &&& (m >> 1u8) & 1u8 == s1 & 1u16
            &&& (m >> 2u8) & 1u8 == s2 & 1u16
            &&& (m >> 3u8) & 1u8 == s3 & 1u16
            &&& (m >> 4u8) & 1u8 == s4 & 1u16
            &&& (m >> 5u8) & 1u8 == s5 & 1u16
            &&& (m >> 6u8) & 1u8 == s6 & 1u16
            &&& (m >> 7u8) & 1u8 == s7 & 1u16
        }),
{
}

proof fn lemma_state_range(state: u16, n: nat)
    requires
        state < 512,
    ensures
        pn9_state(state, n) < 512,
    decreases n,
{
    if n > 0 {
        lemma_state_range(state, (n - 1) as nat);
        lemma_register(pn9_state(state, (n - 1) as nat), 0, 0, 0, 0);
    }
}

/// Bit `i` of the register is the output bit `i` steps later.
proof fn lemma_outputs(state: u16, n: nat, i: nat)
    requires
        state < 512,
        i < 9,
    ensures
        (pn9_state(state, n) >> (i as u16)) & 1u16 == pn9_state(state, n + i) & 1u16,
    decreases i,
{
    let s = pn9_state(state, n);
    lemma_state_range(state, n);
    lemma_register(s, 0, 0, 0, 0);
    if i > 0 {
        lemma_outputs(state, n + 1, (i - 1) as nat);
        lemma_register(s, 0, 0, i as u16, (i - 1) as u16);
        assert(pn9_state(state, n + 1) == pn9_next(s));
    }
}

proof fn lemma_applied(state: u16, data: Seq<u8>, m: nat)
    requires
        state < 512,
        m < 8 * data.len(),
    ensures
        applied_bit(data, whitened(state, data), m as int) == pn9_state(state, m) & 1u16,
{
    let k = m / 8;
    let base = pn9_state(state, 8 * k);
    reveal_with_fuel(pn9_bits, 9);
    lemma_whitening(
        pn9_state(base, 0),
        pn9_state(base, 1),
        pn9_state(base, 2),
        pn9_state(base, 3),
        pn9_state(base, 4),
        pn9_state(base, 5),
        pn9_state(base, 6),
        pn9_state(base, 7),
    );
    lemma_state_add(state, 8 * k, m % 8);
    lemma_register(0, data[k as int], pn9_byte(state, k), 0, 0);
    assert(m == 8 * k + m % 8);
}

/// The bits that are applied to data, of whatever length, are those of the polynomial
/// `x^9 + x^5 + 1`: the first nine are those of the start value, the low bit first, and
/// every later one is the sum of those four and nine places before it. From the start
/// value of a new whitener the first nine are ones.
pub proof fn law_sequence_recurs(state: u16, data: Seq<u8>, m: int)
    requires
        state < 512,
        0 <= m < 8 * data.len(),
    ensures
        whitened(state, data).len() == data.len(),
        m < 9 ==> applied_bit(data, whitened(state, data), m) == (state >> (m as u16)) & 1u16,
        m < 9 && state == 0x1FF ==> applied_bit(data, whitened(state, data), m) == 1,
        m >= 9 ==> applied_bit(data, whitened(state, data), m) == applied_bit(
            data,
            whitened(state, data),
            m - 4,
        ) ^ applied_bit(data, whitened(state, data), m - 9),
{
    lemma_applied(state, data, m as nat);
    if m < 9 {
        lemma_outputs(state, 0, m as nat);
        if state == 0x1FF {
            lemma_register(0x1FF, 0, 0, m as u16, 0);
        }
    } else {
        let n = (m - 9) as nat;
        let s = pn9_state(state, n);
        lemma_state_range(state, n);
        lemma_applied(state, data, (m - 4) as nat);
        lemma_applied(state, data, (m - 9) as nat);
        lemma_register(s, 0, 0, 5, 0);
        lemma_outputs(state, n, 5);
        lemma_outputs(state, n + 1, 8);
        assert(pn9_state(state, n + 1) == pn9_next(s));
    }
}

} // verus!
