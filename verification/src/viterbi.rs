//! Viterbi decoding of the CCSDS / AO-40 convolutional code: constraint length
//! 7, rate 1/2, generators 0x4f and 0x6d, second symbol inverted.
//!
//! The decoder keeps, for each of the 64 encoder states, the cheapest path into
//! it. [`metric`] and [`predecessor`] state that recursion; the laws show that
//! the path it returns costs no more than any other.
use vstd::prelude::*;
use crate::model::{invalid_encoding, DecodeError};

verus! {

/// Encoder states.
pub const STATES: usize = 64;

/// First generator polynomial.
pub const G1: u8 = 0x4f;

/// Second generator polynomial.
pub const G2: u8 = 0x6d;

/// Path metric of a state that no path reaches.
pub const INF: u32 = 0x3fff_ffff;

/// The sum of the bits of `v` modulo two.
pub open spec fn bit_parity(v: u8) -> u8 {
    (v ^ (v >> 1u8) ^ (v >> 2u8) ^ (v >> 3u8) ^ (v >> 4u8) ^ (v >> 5u8) ^ (v >> 6u8) ^ (v >> 7u8))
        & 1u8
}

/// The first channel bit for a 7-bit shift register.
pub open spec fn first_symbol(register: u8) -> u8 {
    bit_parity(register & G1)
}

/// The second channel bit for a 7-bit shift register.
pub open spec fn second_symbol(register: u8) -> u8 {
    bit_parity(register & G2) ^ 1u8
}

/// The shift register when `bit` enters in `state`.
pub open spec fn register_of(state: int, bit: int) -> u8 {
    (2 * state + bit) as u8
}

/// The state after `bit` has entered.
pub open spec fn next_state(state: int, bit: int) -> int {
    (2 * state + bit) % 64
}

/// The two channel bits of a branch as a number below four.
pub open spec fn branch(state: int, bit: int) -> int {
    2 * first_symbol(register_of(state, bit)) + second_symbol(register_of(state, bit))
}

/// The encoder state after the first `n` bits.
pub open spec fn state_after(bits: Seq<u8>, n: nat) -> int
    decreases n,
{
    if n == 0 {
        0
    } else {
        next_state(state_after(bits, (n - 1) as nat), (bits[n - 1] & 1u8) as int)
    }
}

/// The register at step `k`.
pub open spec fn register_at(bits: Seq<u8>, k: int) -> u8 {
    register_of(state_after(bits, k as nat), (bits[k] & 1u8) as int)
}

/// The channel bits of a bit sequence.
pub open spec fn encoded(bits: Seq<u8>) -> Seq<u8> {
    Seq::new(
        2 * bits.len(),
        |i: int|
            if i % 2 == 0 {
                first_symbol(register_at(bits, i / 2))
            } else {
                second_symbol(register_at(bits, i / 2))
            },
    )
}

/// Cost of reaching a state from `p` at step `k`, capped at [`INF`].
pub open spec fn candidate(cost: spec_fn(int, int) -> nat, k: nat, p: int, bit: int) -> nat
    decreases k, 1nat,
{
    let m = metric(cost, k, p);
    let c = m + cost(k as int, branch(p, bit));
    if m >= INF || c >= INF {
        INF as nat
    } else {
        c
    }
}

/// The least cost of a path of `k` steps from state zero to `state`; `cost(k, o)`
/// is the cost of the channel bits `o` at step `k`.
pub open spec fn metric(cost: spec_fn(int, int) -> nat, k: nat, state: int) -> nat
    decreases k, 0nat,
{
    if k == 0 {
        if state == 0 {
            0
        } else {
            INF as nat
        }
    } else {
        let c0 = candidate(cost, (k - 1) as nat, state / 2, state % 2);
        let c1 = candidate(cost, (k - 1) as nat, state / 2 + 32, state % 2);
        if c0 <= c1 {
            c0
        } else {
            c1
        }
    }
}

/// The state before `state` on its cheapest path of `k` steps. The lower of two
/// equally cheap states wins.
pub open spec fn predecessor(cost: spec_fn(int, int) -> nat, k: nat, state: int) -> Option<int> {
    let c0 = candidate(cost, (k - 1) as nat, state / 2, state % 2);
    let c1 = candidate(cost, (k - 1) as nat, state / 2 + 32, state % 2);
    if c0 >= INF && c1 >= INF {
        None
    } else if c0 <= c1 {
        Some(state / 2)
    } else {
        Some(state / 2 + 32)
    }
}

/// The bits along the cheapest path of `k` steps to `state`.
pub open spec fn survivor(cost: spec_fn(int, int) -> nat, k: nat, state: int) -> Seq<u8>
    decreases k,
{
    if k == 0 {
        Seq::empty()
    } else {
        match predecessor(cost, k, state) {
            Some(p) => survivor(cost, (k - 1) as nat, p).push((state % 2) as u8),
            None => survivor(cost, (k - 1) as nat, 0).push(0u8),
        }
    }
}

/// The first of the cheapest among the first `n` states after `k` steps.
pub open spec fn cheapest_state(cost: spec_fn(int, int) -> nat, k: nat, n: nat) -> int
    decreases n,
{
    if n <= 1 {
        0
    } else {
        let best = cheapest_state(cost, k, (n - 1) as nat);
        if metric(cost, k, n - 1) < metric(cost, k, best) {
            n - 1
        } else {
            best
        }
    }
}

/// The decoded bits of `k` steps.
pub open spec fn decoded(cost: spec_fn(int, int) -> nat, k: nat) -> Seq<u8> {
    survivor(cost, k, cheapest_state(cost, k, 64))
}

/// Number of differing bits.
pub open spec fn bit_difference(a: u8, b: u8) -> nat {
    if a != b {
        1
    } else {
        0
    }
}

/// Cost of a branch under hard decisions: the number of differing bits.
pub open spec fn hard_cost(symbols: Seq<u8>) -> spec_fn(int, int) -> nat {
    |k: int, o: int|
        bit_difference(symbols[2 * k] & 1u8, (o / 2) as u8) + bit_difference(
            symbols[2 * k + 1] & 1u8,
            (o % 2) as u8,
        )
}

/// The squared distance of a soft symbol from the point of a channel bit: +64
/// for a zero, -64 for a one.
pub open spec fn square_distance(symbol: int, bit: int) -> nat {
    let d = symbol - if bit == 0 {
        64int
    } else {
        -64int
    };
    (d * d) as nat
}

/// Cost of a branch under soft decisions: the squared Euclidean distance.
pub open spec fn soft_cost(symbols: Seq<i8>) -> spec_fn(int, int) -> nat {
    |k: int, o: int|
        square_distance(symbols[2 * k] as int, o / 2) + square_distance(
            symbols[2 * k + 1] as int,
            o % 2,
        )
}

/// The parity of a byte.
pub fn parity(value: u8) -> (r: u8)
    ensures
        r == bit_parity(value),
        r <= 1,
{
    let a: u8 = value ^ (value >> 4u8);
    let b: u8 = a ^ (a >> 2u8);
    let c: u8 = b ^ (b >> 1u8);
    assert((c & 1u8) == bit_parity(value) && (c & 1u8) <= 1u8) by (bit_vector)
        requires
            a == value ^ (value >> 4u8),
            b == a ^ (a >> 2u8),
            c == b ^ (b >> 1u8),
    ;
    c & 1u8
}

/// The two channel bits for a bit that enters in `state`.
fn encode_branch(state: u8, bit: u8) -> (r: (u8, u8))
    requires
        state < 64,
        bit <= 1,
    ensures
        r.0 == first_symbol(register_of(state as int, bit as int)),
        r.1 == second_symbol(register_of(state as int, bit as int)),
        r.0 <= 1,
        r.1 <= 1,
{
    let register: u8 = 2 * state + bit;
    let second: u8 = parity(register & G2);
    proof {
        lemma_flipped_bit(second);
    }
    (parity(register & G1), second ^ 1u8)
}

pub proof fn lemma_flipped_bit(bit: u8)
    by (bit_vector)
    ensures
        bit <= 1u8 ==> (bit ^ 1u8) <= 1u8,
        bit | 0u8 == bit,
{
}

pub proof fn lemma_low_bit(bit: u8)
    by (bit_vector)
    ensures
        bit & 1u8 <= 1u8,
        bit <= 1u8 ==> bit & 1u8 == bit,
        (bit & 1u8) & 1u8 == bit & 1u8,
{
}

proof fn lemma_state_range(bits: Seq<u8>, n: nat)
    ensures
        0 <= state_after(bits, n) < 64,
    decreases n,
{
    if n > 0 {
        lemma_state_range(bits, (n - 1) as nat);
        lemma_low_bit(bits[n - 1]);
    }
}

/// Convolutionally encode one-bit-per-byte input into hard channel bits.
pub fn encode_bits(bits: &[u8]) -> (out: Vec<u8>)
    ensures
        out@ == encoded(bits@),
{
    let mut state: u8 = 0;
    let mut out: Vec<u8> = Vec::new();
    let mut n: usize = 0;
    while n < bits.len()
        invariant
            n <= bits@.len(),
            state < 64,
            state as int == state_after(bits@, n as nat),
            out@.len() == 2 * n,
            forall|i: int|
                0 <= i < 2 * n ==> out@[i] == (if i % 2 == 0 {
                    first_symbol(register_at(bits@, i / 2))
                } else {
                    second_symbol(register_at(bits@, i / 2))
                }),
        decreases bits@.len() - n,
    {
        let bit: u8 = bits[n] & 1u8;
        proof {
            lemma_low_bit(bits@[n as int]);
        }
        let (first, second) = encode_branch(state, bit);
        out.push(first);
        out.push(second);
        state = (2 * state + bit) % 64;
        n = n + 1;
    }
    assert(out@ =~= encoded(bits@));
    out
}

/// Run the recursion over the branch costs of every step and trace back the
/// cheapest path. `costs[k][o]` is the cost of the channel bits `o` at step `k`.
#[verifier::spinoff_prover]
#[verifier::rlimit(60)]
fn run_trellis(costs: &Vec<[u32; 4]>, Ghost(cost): Ghost<spec_fn(int, int) -> nat>) -> (out: Vec<u8>)
    requires
        forall|k: int, o: int|
            0 <= k < costs@.len() && 0 <= o < 4 ==> #[trigger] cost(k, o) == costs@[k]@[o],
        forall|k: int, o: int|
            0 <= k < costs@.len() && 0 <= o < 4 ==> #[trigger] costs@[k]@[o] <= 0x3fff_ffff,
    ensures
        out@ == decoded(cost, costs@.len()),
{
    let steps: usize = costs.len();
    let mut metrics: [u32; 64] = [INF; 64];
    metrics[0] = 0;
    let mut decisions: Vec<[u8; 64]> = Vec::new();
    let mut step: usize = 0;
    while step < steps
        invariant
            steps == costs@.len(),
            step <= steps,
            decisions@.len() == step,
            forall|k: int, o: int|
                0 <= k < costs@.len() && 0 <= o < 4 ==> #[trigger] cost(k, o) == costs@[k]@[o],
            forall|k: int, o: int|
                0 <= k < costs@.len() && 0 <= o < 4 ==> #[trigger] costs@[k]@[o] <= 0x3fff_ffff,
            forall|s: int| 0 <= s < 64 ==> #[trigger] metrics@[s] == metric(cost, step as nat, s),
            forall|s: int| 0 <= s < 64 ==> #[trigger] metrics@[s] <= INF,
            forall|k: int, s: int|
                0 <= k < step && 0 <= s < 64 ==> decision_is(
                    #[trigger] decisions@[k]@[s],
                    cost,
                    (k + 1) as nat,
                    s,
                ),
        decreases steps - step,
    {
        let row: &[u32; 4] = &costs[step];
        let mut next: [u32; 64] = [INF; 64];
        let mut decision: [u8; 64] = [0u8; 64];
        let mut s: usize = 0;
        while s < STATES
            invariant
                s <= 64,
                step < costs@.len(),
                *row == costs@[step as int],
                forall|k: int, o: int|
                    0 <= k < costs@.len() && 0 <= o < 4 ==> #[trigger] cost(k, o) == costs@[k]@[o],
                forall|k: int, o: int|
                    0 <= k < costs@.len() && 0 <= o < 4 ==> #[trigger] costs@[k]@[o]
                        <= 0x3fff_ffff,
                forall|t: int|
                    0 <= t < 64 ==> #[trigger] metrics@[t] == metric(cost, step as nat, t),
                forall|t: int| 0 <= t < 64 ==> #[trigger] metrics@[t] <= INF,
                forall|t: int|
                    0 <= t < s ==> #[trigger] next@[t] == metric(cost, (step + 1) as nat, t),
                forall|t: int| 0 <= t < 64 ==> #[trigger] next@[t] <= INF,
                forall|t: int|
                    0 <= t < s ==> decision_is(
                        #[trigger] decision@[t],
                        cost,
                        (step + 1) as nat,
                        t,
                    ),
            decreases 64 - s,
        {
            let bit: u8 = (s % 2) as u8;
            let p0: usize = s / 2;
            let p1: usize = s / 2 + 32;
            let c0: u32 = branch_candidate(metrics[p0], row, p0, bit);
            let c1: u32 = branch_candidate(metrics[p1], row, p1, bit);
            assert(c0 == candidate(cost, step as nat, p0 as int, bit as int));
            assert(c1 == candidate(cost, step as nat, p1 as int, bit as int));
            if c0 <= c1 {
                next[s] = c0;
                if c0 < INF {
                    decision[s] = p0 as u8 + 64 * bit;
                } else {
                    decision[s] = 0;
                }
            } else {
                next[s] = c1;
                decision[s] = p1 as u8 + 64 * bit;
            }
            s = s + 1;
        }
        metrics = next;
        decisions.push(decision);
        step = step + 1;
    }
    let mut best: usize = 0;
    let mut n: usize = 1;
    while n < STATES
        invariant
            1 <= n <= 64,
            best < 64,
            best as int == cheapest_state(cost, steps as nat, n as nat),
            forall|s: int| 0 <= s < 64 ==> #[trigger] metrics@[s] == metric(cost, steps as nat, s),
        decreases 64 - n,
    {
        if metrics[n] < metrics[best] {
            best = n;
        }
        n = n + 1;
    }
    let mut out: Vec<u8> = vec![0u8; steps];
    let mut state: usize = best;
    let mut left: usize = steps;
    while left > 0
        invariant
            left <= steps,
            steps == costs@.len(),
            out@.len() == steps,
            state < 64,
            decisions@.len() == steps,
            forall|k: int, s: int|
                0 <= k < steps && 0 <= s < 64 ==> decision_is(
                    #[trigger] decisions@[k]@[s],
                    cost,
                    (k + 1) as nat,
                    s,
                ),
            survivor(cost, left as nat, state as int) + out@.skip(left as int) == decoded(
                cost,
                steps as nat,
            ),
        decreases left,
    {
        let row: &[u8; 64] = &decisions[left - 1];
        let d: u8 = row[state];
        assert(decision_is(d, cost, left as nat, state as int));
        let ghost tail = out@.skip(left as int);
        let ghost full = survivor(cost, left as nat, state as int);
        out[left - 1] = d / 64;
        proof {
            let p = (d % 64) as int;
            assert(full =~= survivor(cost, (left - 1) as nat, p).push(d / 64));
            assert(out@.skip(left - 1) =~= seq![d / 64] + tail);
            assert(survivor(cost, (left - 1) as nat, p) + out@.skip(left - 1) =~= full + tail);
        }
        state = (d % 64) as usize;
        left = left - 1;
    }
    proof {
        assert(out@.skip(0) =~= out@);
        assert(survivor(cost, 0, state as int) + out@ =~= out@);
    }
    out
}

/// A stored decision holds the predecessor in its low six bits and the bit above.
spec fn decision_is(d: u8, cost: spec_fn(int, int) -> nat, k: nat, state: int) -> bool {
    match predecessor(cost, k, state) {
        Some(p) => 0 <= p < 64 && d as int == p + 64 * (state % 2),
        None => d == 0,
    }
}

fn branch_candidate(m: u32, row: &[u32; 4], p: usize, bit: u8) -> (c: u32)
    requires
        p < 64,
        bit <= 1,
        m <= INF,
        forall|o: int| 0 <= o < 4 ==> #[trigger] row@[o] <= 0x3fff_ffff,
    ensures
        ({
            let total = m + row@[branch(p as int, bit as int)];
            c == if m >= INF || total >= INF {
                INF as int
            } else {
                total as int
            }
        }),
        0 <= branch(p as int, bit as int) < 4,
{
    let (first, second) = encode_branch(p as u8, bit);
    let o: usize = 2 * first as usize + second as usize;
    assert(o == branch(p as int, bit as int));
    if m >= INF {
        return INF;
    }
    let total: u32 = m + row[o];
    if total >= INF {
        INF
    } else {
        total
    }
}

/// The error for a symbol count that is not a positive even number.
fn pair_error() -> (err: DecodeError)
    ensures
        invalid_encoding(err, "Viterbi input must contain pairs of symbols"@),
{
    DecodeError::InvalidEncoding("Viterbi input must contain pairs of symbols".to_string())
}

/// The number of symbols is positive and even.
pub open spec fn has_pairs(len: nat) -> bool {
    len >= 2 && len % 2 == 0
}

/// Decode one-bit-per-byte hard symbols into one-bit-per-byte payload bits.
pub fn decode_bits(symbols: &[u8]) -> (res: Result<Vec<u8>, DecodeError>)
    ensures
        match res {
            Ok(bits) => has_pairs(symbols@.len()) && bits@ == decoded(
                hard_cost(symbols@),
                symbols@.len() / 2,
            ),
            Err(err) => !has_pairs(symbols@.len()) && invalid_encoding(
                err,
                "Viterbi input must contain pairs of symbols"@,
            ),
        },
{
    if symbols.len() < 2 || symbols.len() % 2 != 0 {
        return Err(pair_error());
    }
    let len: usize = symbols.len();
    let steps: usize = len / 2;
    let mut costs: Vec<[u32; 4]> = Vec::new();
    let mut k: usize = 0;
    let ghost cost = hard_cost(symbols@);
    while k < steps
        invariant
            k <= steps,
            len == symbols@.len(),
            steps == len / 2,
            cost == hard_cost(symbols@),
            costs@.len() == k,
            forall|j: int, o: int|
                0 <= j < k && 0 <= o < 4 ==> #[trigger] cost(j, o) == costs@[j]@[o],
            forall|j: int, o: int|
                0 <= j < k && 0 <= o < 4 ==> #[trigger] costs@[j]@[o] <= 0x3fff_ffff,
        decreases steps - k,
    {
        let a: u8 = symbols[2 * k] & 1u8;
        let b: u8 = symbols[2 * k + 1] & 1u8;
        proof {
            lemma_low_bit(symbols@[2 * k as int]);
            lemma_low_bit(symbols@[2 * k + 1]);
        }
        let a0: u32 = a as u32;
        let a1: u32 = 1 - a as u32;
        let b0: u32 = b as u32;
        let b1: u32 = 1 - b as u32;
        let row: [u32; 4] = [a0 + b0, a0 + b1, a1 + b0, a1 + b1];
        costs.push(row);
        k = k + 1;
    }
    Ok(run_trellis(&costs, Ghost(cost)))
}

/// The squared distance of a soft symbol from the point of a channel bit.
fn soft_square(symbol: i8, bit: u8) -> (r: u32)
    requires
        bit <= 1,
    ensures
        r == square_distance(symbol as int, bit as int),
        r <= 36864,
{
    let center: i32 = if bit == 0 {
        64
    } else {
        -64
    };
    let diff: i32 = symbol as i32 - center;
    assert(0 <= diff * diff <= 36864) by (nonlinear_arith)
        requires
            -192 <= diff <= 192,
    ;
    (diff * diff) as u32
}

/// Decode signed soft symbols into one-bit-per-byte payload bits.
///
/// A positive symbol is closer to a transmitted `0`, a negative one to a `1`.
pub fn decode_soft_bits(symbols: &[i8]) -> (res: Result<Vec<u8>, DecodeError>)
    ensures
        match res {
            Ok(bits) => has_pairs(symbols@.len()) && bits@ == decoded(
                soft_cost(symbols@),
                symbols@.len() / 2,
            ),
            Err(err) => !has_pairs(symbols@.len()) && invalid_encoding(
                err,
                "Viterbi input must contain pairs of symbols"@,
            ),
        },
{
    if symbols.len() < 2 || symbols.len() % 2 != 0 {
        return Err(pair_error());
    }
    let len: usize = symbols.len();
    let steps: usize = len / 2;
    let mut costs: Vec<[u32; 4]> = Vec::new();
    let mut k: usize = 0;
    let ghost cost = soft_cost(symbols@);
    while k < steps
        invariant
            k <= steps,
            len == symbols@.len(),
            steps == len / 2,
            cost == soft_cost(symbols@),
            costs@.len() == k,
            forall|j: int, o: int|
                0 <= j < k && 0 <= o < 4 ==> #[trigger] cost(j, o) == costs@[j]@[o],
            forall|j: int, o: int|
                0 <= j < k && 0 <= o < 4 ==> #[trigger] costs@[j]@[o] <= 0x3fff_ffff,
        decreases steps - k,
    {
        let a0: u32 = soft_square(symbols[2 * k], 0);
        let a1: u32 = soft_square(symbols[2 * k], 1);
        let b0: u32 = soft_square(symbols[2 * k + 1], 0);
        let b1: u32 = soft_square(symbols[2 * k + 1], 1);
        let row: [u32; 4] = [a0 + b0, a0 + b1, a1 + b0, a1 + b1];
        costs.push(row);
        k = k + 1;
    }
    Ok(run_trellis(&costs, Ghost(cost)))
}

/// The cost of sending a bit sequence: the sum of its branch costs.
pub open spec fn path_cost(cost: spec_fn(int, int) -> nat, bits: Seq<u8>, n: nat) -> nat
    decreases n,
{
    if n == 0 {
        0
    } else {
        path_cost(cost, bits, (n - 1) as nat) + cost(
            n - 1,
            branch(state_after(bits, (n - 1) as nat), (bits[n - 1] & 1u8) as int),
        )
    }
}

/// No path is cheaper than the metric of the state that it ends in.
#[verifier::spinoff_prover]
#[verifier::rlimit(60)]
proof fn lemma_metric_bound(cost: spec_fn(int, int) -> nat, bits: Seq<u8>, n: nat)
    ensures
        metric(cost, n, state_after(bits, n)) <= path_cost(cost, bits, n) || path_cost(
            cost,
            bits,
            n,
        ) >= INF && metric(cost, n, state_after(bits, n)) <= INF,
    decreases n,
{
    if n > 0 {
        let m = (n - 1) as nat;
        lemma_metric_bound(cost, bits, m);
        lemma_state_range(bits, m);
        lemma_low_bit(bits[n - 1]);
        let p = state_after(bits, m);
        let bit = (bits[n - 1] & 1u8) as int;
        let s = next_state(p, bit);
        assert(s % 2 == bit);
        assert(s / 2 == p || s / 2 + 32 == p);
    }
}

/// The survivor of a reachable state ends there and costs its metric.
#[verifier::spinoff_prover]
#[verifier::rlimit(60)]
proof fn lemma_survivor(cost: spec_fn(int, int) -> nat, k: nat, state: int)
    requires
        0 <= state < 64,
    ensures
        survivor(cost, k, state).len() == k,
        forall|i: int| 0 <= i < k ==> survivor(cost, k, state)[i] <= 1,
        metric(cost, k, state) <= INF,
        metric(cost, k, state) < INF ==> {
            &&& state_after(survivor(cost, k, state), k) == state
            &&& path_cost(cost, survivor(cost, k, state), k) == metric(cost, k, state)
        },
    decreases k,
{
    if k > 0 {
        let m = (k - 1) as nat;
        let full = survivor(cost, k, state);
        let p = match predecessor(cost, k, state) {
            Some(p) => p,
            None => 0,
        };
        lemma_survivor(cost, m, p);
        let front = survivor(cost, m, p);
        assert(full.take(m as int) =~= front);
        lemma_prefix(cost, full, front, m);
        lemma_low_bit(full[m as int]);
        if metric(cost, k, state) < INF {
            let bit = state % 2;
            assert(full[m as int] as int == bit);
            assert(next_state(p, bit) == state);
        }
    }
}

proof fn lemma_prefix(cost: spec_fn(int, int) -> nat, a: Seq<u8>, b: Seq<u8>, n: nat)
    requires
        n <= a.len(),
        n <= b.len(),
        forall|i: int| 0 <= i < n ==> a[i] == b[i],
    ensures
        state_after(a, n) == state_after(b, n),
        path_cost(cost, a, n) == path_cost(cost, b, n),
    decreases n,
{
    if n > 0 {
        lemma_prefix(cost, a, b, (n - 1) as nat);
    }
}

proof fn lemma_cheapest(cost: spec_fn(int, int) -> nat, k: nat, n: nat)
    requires
        1 <= n <= 64,
    ensures
        0 <= cheapest_state(cost, k, n) < n,
        forall|s: int|
            0 <= s < n ==> metric(cost, k, cheapest_state(cost, k, n)) <= #[trigger] metric(
                cost,
                k,
                s,
            ),
    decreases n,
{
    if n > 1 {
        lemma_cheapest(cost, k, (n - 1) as nat);
    }
}

/// One bit comes out for every step, a zero or a one.
pub proof fn lemma_decoded_len(cost: spec_fn(int, int) -> nat, n: nat)
    ensures
        decoded(cost, n).len() == n,
        forall|i: int| 0 <= i < n ==> decoded(cost, n)[i] <= 1,
{
    lemma_cheapest(cost, n, 64);
    lemma_survivor(cost, n, cheapest_state(cost, n, 64));
}

/// Maximum likelihood: as long as some path stays below the metric ceiling, the
/// decoded bits cost no more than any other bits of that length.
pub proof fn law_decoding_is_optimal(cost: spec_fn(int, int) -> nat, n: nat, bits: Seq<u8>)
    requires
        bits.len() == n,
        path_cost(cost, bits, n) < INF,
    ensures
        decoded(cost, n).len() == n,
        forall|i: int| 0 <= i < n ==> decoded(cost, n)[i] <= 1,
        path_cost(cost, decoded(cost, n), n) <= path_cost(cost, bits, n),
{
    let best = cheapest_state(cost, n, 64);
    lemma_cheapest(cost, n, 64);
    lemma_metric_bound(cost, bits, n);
    lemma_state_range(bits, n);
    assert(metric(cost, n, best) <= metric(cost, n, state_after(bits, n)));
    lemma_survivor(cost, n, best);
}

/// The first channel bit tells the two inputs of a state apart.
proof fn lemma_first_symbol_differs(state: u8)
    requires
        state < 64,
    ensures
        first_symbol(register_of(state as int, 0)) != first_symbol(register_of(state as int, 1)),
        first_symbol(register_of(state as int, 0)) <= 1,
        first_symbol(register_of(state as int, 1)) <= 1,
        second_symbol(register_of(state as int, 0)) <= 1,
        second_symbol(register_of(state as int, 1)) <= 1,
{
    let r0 = register_of(state as int, 0);
    let r1 = register_of(state as int, 1);
    assert(r0 == 2 * state && r1 == 2 * state + 1);
    assert(first_symbol(r0) != first_symbol(r1) && first_symbol(r0) <= 1 && first_symbol(r1) <= 1
        && second_symbol(r0) <= 1 && second_symbol(r1) <= 1) by (bit_vector)
        requires
            r0 == 2 * state,
            r1 == 2 * state + 1,
    ;
}

/// The encoded bits cost nothing against themselves.
proof fn lemma_own_cost(bits: Seq<u8>, n: nat)
    requires
        n <= bits.len(),
    ensures
        path_cost(hard_cost(encoded(bits)), bits, n) == 0,
    decreases n,
{
    if n > 0 {
        let m = n - 1;
        lemma_own_cost(bits, m as nat);
        lemma_state_range(bits, m as nat);
        lemma_low_bit(bits[m]);
        let st = state_after(bits, m as nat);
        lemma_first_symbol_differs(st as u8);
        let a = first_symbol(register_at(bits, m));
        let b = second_symbol(register_at(bits, m));
        let sym = encoded(bits);
        assert(2 * m / 2 == m);
        assert((2 * m + 1) / 2 == m);
        assert(sym[2 * m] == a);
        assert(sym[2 * m + 1] == b);
        lemma_low_bit(a);
        lemma_low_bit(b);
    }
}

/// A zero-cost sequence is the one that was encoded.
proof fn lemma_zero_cost(bits: Seq<u8>, other: Seq<u8>, n: nat)
    requires
        n <= bits.len(),
        n <= other.len(),
        path_cost(hard_cost(encoded(bits)), other, n) == 0,
    ensures
        forall|i: int| 0 <= i < n ==> other[i] & 1u8 == bits[i] & 1u8,
        state_after(other, n) == state_after(bits, n),
    decreases n,
{
    if n > 0 {
        let m = n - 1;
        lemma_zero_cost(bits, other, m as nat);
        lemma_state_range(bits, m as nat);
        lemma_low_bit(bits[m]);
        lemma_low_bit(other[m]);
        let st = state_after(bits, m as nat);
        lemma_first_symbol_differs(st as u8);
        let sym = encoded(bits);
        assert(2 * m / 2 == m);
        assert(sym[2 * m] == first_symbol(register_at(bits, m)));
        lemma_low_bit(sym[2 * m]);
        let o = branch(st, (other[m] & 1u8) as int);
        assert(o / 2 == first_symbol(register_of(st, (other[m] & 1u8) as int)));
    }
}

/// What the encoder sends undamaged, the hard-decision decoder returns.
pub proof fn law_decodes_clean_symbols(bits: Seq<u8>)
    requires
        forall|i: int| 0 <= i < bits.len() ==> bits[i] <= 1,
    ensures
        decoded(hard_cost(encoded(bits)), bits.len()) == bits,
{
    let cost = hard_cost(encoded(bits));
    let n = bits.len();
    lemma_own_cost(bits, n);
    law_decoding_is_optimal(cost, n, bits);
    let out = decoded(cost, n);
    lemma_zero_cost(bits, out, n);
    assert forall|i: int| 0 <= i < n implies out[i] == bits[i] by {
        lemma_low_bit(out[i]);
        lemma_low_bit(bits[i]);
    }
    assert(out =~= bits);
}

/// Clean soft symbols of full strength: +64 for a zero, -64 for a one.
pub open spec fn full_strength(symbols: Seq<u8>) -> Seq<i8> {
    Seq::new(symbols.len(), |i: int| if symbols[i] == 0 { 64i8 } else { -64i8 })
}

proof fn lemma_square_points()
    ensures
        square_distance(64, 0) == 0,
        square_distance(-64, 1) == 0,
        square_distance(64, 1) == 16384,
        square_distance(-64, 0) == 16384,
{
    assert(0int * 0int == 0 && 128int * 128int == 16384 && (-128int) * (-128int) == 16384)
        by (nonlinear_arith);
}

proof fn lemma_soft_own_cost(bits: Seq<u8>, n: nat)
    requires
        n <= bits.len(),
    ensures
        path_cost(soft_cost(full_strength(encoded(bits))), bits, n) == 0,
    decreases n,
{
    if n > 0 {
        let m = n - 1;
        lemma_soft_own_cost(bits, m as nat);
        lemma_square_points();
        lemma_state_range(bits, m as nat);
        lemma_low_bit(bits[m]);
        let st = state_after(bits, m as nat);
        lemma_first_symbol_differs(st as u8);
        let sym = encoded(bits);
        assert(2 * m / 2 == m);
        assert((2 * m + 1) / 2 == m);
        assert(sym[2 * m] == first_symbol(register_at(bits, m)));
        assert(sym[2 * m + 1] == second_symbol(register_at(bits, m)));
        let soft = full_strength(sym);
        let o = branch(st, (bits[m] & 1u8) as int);
        assert(o / 2 == sym[2 * m] && o % 2 == sym[2 * m + 1]);
        assert(soft[2 * m] as int == if sym[2 * m] == 0 { 64int } else { -64int });
        assert(soft[2 * m + 1] as int == if sym[2 * m + 1] == 0 { 64int } else { -64int });
        assert(soft_cost(soft)(m, o) == 0);
    }
}

proof fn lemma_soft_zero_cost(bits: Seq<u8>, other: Seq<u8>, n: nat)
    requires
        n <= bits.len(),
        n <= other.len(),
        path_cost(soft_cost(full_strength(encoded(bits))), other, n) == 0,
    ensures
        forall|i: int| 0 <= i < n ==> other[i] & 1u8 == bits[i] & 1u8,
        state_after(other, n) == state_after(bits, n),
    decreases n,
{
    if n > 0 {
        let m = n - 1;
        lemma_soft_zero_cost(bits, other, m as nat);
        lemma_square_points();
        lemma_state_range(bits, m as nat);
        lemma_low_bit(bits[m]);
        lemma_low_bit(other[m]);
        let st = state_after(bits, m as nat);
        lemma_first_symbol_differs(st as u8);
        let sym = encoded(bits);
        assert(2 * m / 2 == m);
        assert(sym[2 * m] == first_symbol(register_at(bits, m)));
        let o = branch(st, (other[m] & 1u8) as int);
        assert(o / 2 == first_symbol(register_of(st, (other[m] & 1u8) as int)));
        let soft = full_strength(sym);
        assert(soft[2 * m] as int == if sym[2 * m] == 0 { 64int } else { -64int });
        assert(soft_cost(soft)(m, o) == 0);
        assert(square_distance(soft[2 * m] as int, o / 2) == 0);
    }
}

/// Clean soft symbols of full strength decode to the bits that were encoded.
pub proof fn law_decodes_clean_soft_symbols(bits: Seq<u8>)
    requires
        forall|i: int| 0 <= i < bits.len() ==> bits[i] <= 1,
    ensures
        decoded(soft_cost(full_strength(encoded(bits))), bits.len()) == bits,
{
    let cost = soft_cost(full_strength(encoded(bits)));
    let n = bits.len();
    lemma_soft_own_cost(bits, n);
    law_decoding_is_optimal(cost, n, bits);
    let out = decoded(cost, n);
    lemma_soft_zero_cost(bits, out, n);
    assert forall|i: int| 0 <= i < n implies out[i] == bits[i] by {
        lemma_low_bit(out[i]);
        lemma_low_bit(bits[i]);
    }
    assert(out =~= bits);
}

/// Bit `k` of the input, and zero before the first.
pub open spec fn input_bit(bits: Seq<u8>, k: int) -> u8 {
    if k < 0 {
        0
    } else {
        bits[k] & 1u8
    }
}

/// The last seven inputs up to bit `k`, the latest lowest.
spec fn window(bits: Seq<u8>, k: int) -> int {
    input_bit(bits, k) + 2 * input_bit(bits, k - 1) + 4 * input_bit(bits, k - 2) + 8 * input_bit(
        bits,
        k - 3,
    ) + 16 * input_bit(bits, k - 4) + 32 * input_bit(bits, k - 5) + 64 * input_bit(bits, k - 6)
}

proof fn lemma_window(bits: Seq<u8>, n: nat)
    ensures
        2 * state_after(bits, n) == window(bits, n as int) - input_bit(bits, n as int),
    decreases n,
{
    lemma_low_bit(bits[n - 1]);
    lemma_low_bit(bits[n - 2]);
    lemma_low_bit(bits[n - 3]);
    lemma_low_bit(bits[n - 4]);
    lemma_low_bit(bits[n - 5]);
    lemma_low_bit(bits[n - 6]);
    lemma_low_bit(bits[n - 7]);
    if n > 0 {
        lemma_window(bits, (n - 1) as nat);
        assert(window(bits, n - 1) == input_bit(bits, n - 1) + 2 * state_after(
            bits,
            (n - 1) as nat,
        ));
    }
}

/// The taps of the two generators.
proof fn lemma_taps(r: u8, a: u8, b: u8, c: u8, d: u8, e: u8, f: u8, g: u8)
    by (bit_vector)
    requires
        a <= 1,
        b <= 1,
        c <= 1,
        d <= 1,
        e <= 1,
        f <= 1,
        g <= 1,
        r == a + 2 * b + 4 * c + 8 * d + 16 * e + 32 * f + 64 * g,
    ensures
        first_symbol(r) == a ^ b ^ c ^ d ^ g,
        second_symbol(r) == a ^ c ^ d ^ f ^ g ^ 1u8,
{
}

/// The channel bits are sums of input bits: the first of a pair of those zero, one, two,
/// three and six places back, the second of those zero, two, three, five and six places
/// back, and inverted. Nothing but zeros comes before the first bit.
pub proof fn law_channel_bits_are_sums(bits: Seq<u8>, k: int)
    requires
        0 <= k < bits.len(),
    ensures
        encoded(bits).len() == 2 * bits.len(),
        encoded(bits)[2 * k] == input_bit(bits, k) ^ input_bit(bits, k - 1) ^ input_bit(
            bits,
            k - 2,
        ) ^ input_bit(bits, k - 3) ^ input_bit(bits, k - 6),
        encoded(bits)[2 * k + 1] == input_bit(bits, k) ^ input_bit(bits, k - 2) ^ input_bit(
            bits,
            k - 3,
        ) ^ input_bit(bits, k - 5) ^ input_bit(bits, k - 6) ^ 1u8,
{
    lemma_window(bits, k as nat);
    lemma_state_range(bits, k as nat);
    lemma_low_bit(bits[k]);
    lemma_low_bit(bits[k - 1]);
    lemma_low_bit(bits[k - 2]);
    lemma_low_bit(bits[k - 3]);
    lemma_low_bit(bits[k - 4]);
    lemma_low_bit(bits[k - 5]);
    lemma_low_bit(bits[k - 6]);
    let r = register_at(bits, k);
    assert(r == window(bits, k));
    lemma_taps(
        r,
        input_bit(bits, k),
        input_bit(bits, k - 1),
        input_bit(bits, k - 2),
        input_bit(bits, k - 3),
        input_bit(bits, k - 4),
        input_bit(bits, k - 5),
        input_bit(bits, k - 6),
    );
    assert(2 * k / 2 == k && (2 * k) % 2 == 0);
    assert((2 * k + 1) / 2 == k && (2 * k + 1) % 2 == 1);
}

/// The number of positions below `n` at which the low bits of two sequences differ.
pub open spec fn bits_apart(a: Seq<u8>, b: Seq<u8>, n: nat) -> nat
    decreases n,
{
    if n == 0 {
        0
    } else {
        bits_apart(a, b, (n - 1) as nat) + if a[n - 1] & 1u8 != b[n - 1] & 1u8 {
            1nat
        } else {
            0
        }
    }
}

/// The sum of the squared distances below `n` of soft symbols from the points of channel
/// bits, +64 for a zero and -64 for a one.
pub open spec fn strength_apart(soft: Seq<i8>, b: Seq<u8>, n: nat) -> nat
    decreases n,
{
    if n == 0 {
        0
    } else {
        strength_apart(soft, b, (n - 1) as nat) + if b[n - 1] & 1u8 == 0 {
            ((soft[n - 1] - 64) * (soft[n - 1] - 64)) as nat
        } else {
            ((soft[n - 1] + 64) * (soft[n - 1] + 64)) as nat
        }
    }
}

proof fn lemma_costs(symbols: Seq<u8>, soft: Seq<i8>, bits: Seq<u8>, n: nat)
    requires
        n <= bits.len(),
    ensures
        path_cost(hard_cost(symbols), bits, n) == bits_apart(symbols, encoded(bits), 2 * n),
        path_cost(soft_cost(soft), bits, n) == strength_apart(soft, encoded(bits), 2 * n),
    decreases n,
{
    if n > 0 {
        let m = n - 1;
        lemma_costs(symbols, soft, bits, m as nat);
        lemma_state_range(bits, m as nat);
        lemma_low_bit(bits[m]);
        let st = state_after(bits, m as nat);
        lemma_first_symbol_differs(st as u8);
        let sent = encoded(bits);
        assert(2 * m / 2 == m && (2 * m) % 2 == 0);
        assert((2 * m + 1) / 2 == m && (2 * m + 1) % 2 == 1);
        let a = sent[2 * m];
        let b = sent[2 * m + 1];
        assert(a == first_symbol(register_at(bits, m)) && b == second_symbol(register_at(bits, m)));
        lemma_low_bit(a);
        lemma_low_bit(b);
        let o = branch(st, (bits[m] & 1u8) as int);
        assert(o / 2 == a && o % 2 == b);
        assert(bits_apart(symbols, sent, 2 * n) == bits_apart(symbols, sent, (2 * n - 1) as nat)
            + if symbols[2 * m + 1] & 1u8 != b & 1u8 {
            1nat
        } else {
            0
        });
        assert(bits_apart(symbols, sent, (2 * n - 1) as nat) == bits_apart(
            symbols,
            sent,
            2 * (m as nat),
        ) + if symbols[2 * m] & 1u8 != a & 1u8 {
            1nat
        } else {
            0
        });
        assert(strength_apart(soft, sent, 2 * n) == strength_apart(
            soft,
            sent,
            (2 * n - 1) as nat,
        ) + square_distance(soft[2 * m + 1] as int, b as int));
        assert(strength_apart(soft, sent, (2 * n - 1) as nat) == strength_apart(
            soft,
            sent,
            2 * (m as nat),
        ) + square_distance(soft[2 * m] as int, a as int));
    }
}

/// The decoded bits are those whose encoding is nearest to what came: no other bits are
/// sent as fewer differing channel bits, or, for soft symbols, at a smaller squared
/// distance. The metric ceiling bounds what is compared.
pub proof fn law_nearest_bits_are_decoded(symbols: Seq<u8>, soft: Seq<i8>, bits: Seq<u8>)
    ensures
        bits_apart(symbols, encoded(bits), 2 * bits.len()) < INF ==> bits_apart(
            symbols,
            encoded(decoded(hard_cost(symbols), bits.len())),
            2 * bits.len(),
        ) <= bits_apart(symbols, encoded(bits), 2 * bits.len()),
        strength_apart(soft, encoded(bits), 2 * bits.len()) < INF ==> strength_apart(
            soft,
            encoded(decoded(soft_cost(soft), bits.len())),
            2 * bits.len(),
        ) <= strength_apart(soft, encoded(bits), 2 * bits.len()),
{
    let n = bits.len();
    lemma_costs(symbols, soft, bits, n);
    lemma_decoded_len(hard_cost(symbols), n);
    lemma_decoded_len(soft_cost(soft), n);
    lemma_costs(symbols, soft, decoded(hard_cost(symbols), n), n);
    lemma_costs(symbols, soft, decoded(soft_cost(soft), n), n);
    if bits_apart(symbols, encoded(bits), 2 * n) < INF {
        law_decoding_is_optimal(hard_cost(symbols), n, bits);
    }
    if strength_apart(soft, encoded(bits), 2 * n) < INF {
        law_decoding_is_optimal(soft_cost(soft), n, bits);
    }
}

} // verus!
