//! Receipt bitmaps: one bit per slot, low bit first in words of 64.
use vstd::prelude::*;
use vstd::set_lib::{lemma_int_range, lemma_len_subset, set_int_range};

verus! {

/// The bit of a slot; slots beyond the words are clear.
pub open spec fn bit_at(words: Seq<u64>, idx: int) -> bool {
    0 <= idx < 64 * words.len() && (words[idx / 64] >> ((idx % 64) as u64)) & 1u64 == 1u64
}

/// The words mark exactly these slots.
pub open spec fn marks(words: Seq<u64>, slots: Set<int>) -> bool {
    forall|idx: int| slots.contains(idx) <==> #[trigger] bit_at(words, idx)
}

/// The number of words for `n` slots.
pub open spec fn words_for(n: int) -> int {
    (n + 63) / 64
}

proof fn lemma_set_bit(w: u64, b: u64, c: u64)
    requires
        b < 64,
        c < 64,
    ensures
        ((w | (1u64 << b)) >> c) & 1u64 == if b == c {
            1u64
        } else {
            (w >> c) & 1u64
        },
        (0u64 >> c) & 1u64 == 0,
{
    assert(((w | (1u64 << b)) >> c) & 1u64 == if b == c {
        1u64
    } else {
        (w >> c) & 1u64
    } && (0u64 >> c) & 1u64 == 0) by (bit_vector)
        requires
            b < 64,
            c < 64,
    ;
}

/// As many slots as are below `n` at most.
pub proof fn lemma_slot_count(slots: Set<int>, n: int)
    requires
        0 <= n,
        forall|i: int| #[trigger] slots.contains(i) ==> 0 <= i < n,
    ensures
        slots.finite(),
        slots.len() <= n,
{
    lemma_int_range(0, n);
    assert(slots.subset_of(set_int_range(0, n)));
    lemma_len_subset(slots, set_int_range(0, n));
}

/// Whether the slot is marked.
pub fn get_bit(words: &Vec<u64>, idx: u32) -> (r: bool)
    ensures
        r == bit_at(words@, idx as int),
{
    let word: usize = (idx / 64) as usize;
    if word < words.len() {
        (words[word] >> ((idx % 64) as u64)) & 1u64 == 1u64
    } else {
        false
    }
}

/// Add clear words, up to `n` words.
pub(crate) fn grow(words: &mut Vec<u64>, n: usize, Ghost(slots): Ghost<Set<int>>)
    requires
        marks(old(words)@, slots),
    ensures
        final(words)@.len() == if n > old(words)@.len() {
            n as nat
        } else {
            old(words)@.len()
        },
        marks(final(words)@, slots),
{
    while words.len() < n
        invariant
            marks(words@, slots),
            words@.len() >= old(words)@.len(),
            words@.len() <= n || words@.len() == old(words)@.len(),
        decreases n - words.len(),
    {
        let ghost before = words@;
        words.push(0);
        assert forall|idx: int| slots.contains(idx) <==> #[trigger] bit_at(words@, idx) by {
            assert(slots.contains(idx) <==> bit_at(before, idx));
            if 0 <= idx < 64 * words@.len() {
                lemma_set_bit(0, 0, (idx % 64) as u64);
                if idx < 64 * before.len() {
                    assert(words@[idx / 64] == before[idx / 64]);
                }
            }
        }
    }
}

/// Mark a slot; whether it was clear.
pub(crate) fn mark(words: &mut Vec<u64>, idx: u32, Ghost(slots): Ghost<Set<int>>) -> (fresh: bool)
    requires
        marks(old(words)@, slots),
        idx < 64 * old(words)@.len(),
    ensures
        fresh == !slots.contains(idx as int),
        final(words)@.len() == old(words)@.len(),
        marks(final(words)@, slots.insert(idx as int)),
{
    let word: usize = (idx / 64) as usize;
    let bit: u64 = (idx % 64) as u64;
    let w: u64 = words[word];
    assert(slots.contains(idx as int) <==> bit_at(words@, idx as int));
    if (w >> bit) & 1u64 == 1u64 {
        assert(slots.insert(idx as int) =~= slots);
        false
    } else {
        let ghost before = words@;
        words.set(word, w | (1u64 << bit));
        assert forall|k: int|
            slots.insert(idx as int).contains(k) <==> #[trigger] bit_at(words@, k) by {
            assert(slots.contains(k) <==> bit_at(before, k));
            if 0 <= k < 64 * words@.len() {
                lemma_set_bit(w, bit, (k % 64) as u64);
            }
        }
        true
    }
}

/// Slot 0 is the last binary digit of the first word, and there are 64 slots in a word.
pub proof fn law_slots_are_digits(words: Seq<u64>, i: int, k: nat)
    requires
        0 <= i < words.len(),
        k < 64,
    ensures
        bit_at(words, 64 * i + k) <==> (words[i] as nat / vstd::arithmetic::power2::pow2(k)) % 2
            == 1,
{
    let w = words[i];
    let y: u64 = w >> (k as u64);
    vstd::bits::lemma_u64_shr_is_div(w, k as u64);
    assert(y & 1u64 == y % 2) by (bit_vector);
    assert((64 * i + k) / 64 == i && (64 * i + k) % 64 == k);
}

/// There are words enough for the slots, and not one too many.
pub proof fn law_words_are_enough(n: int)
    requires
        n >= 0,
    ensures
        64 * words_for(n) >= n,
        64 * (words_for(n) - 1) < n,
{
}

} // verus!
