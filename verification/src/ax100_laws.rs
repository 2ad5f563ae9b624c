//! Which bytes of a soft AX100 packet are marked as erased.
use vstd::prelude::*;
use crate::ax100::{confidence, confidences, least_confident, least_unused, marked_count};

verus! {

/// Index `i` comes before index `j`: it is less confident, or as confident and lower.
pub open spec fn less_sure(keys: Seq<u32>, i: int, j: int) -> bool {
    keys[i] < keys[j] || (keys[i] == keys[j] && i < j)
}

proof fn lemma_least_unused(keys: Seq<u32>, used: Seq<usize>, n: nat)
    requires
        n <= keys.len() <= usize::MAX,
    ensures
        match least_unused(keys, used, n) {
            Some(b) => b < n && !used.contains(b) && forall|j: int|
                0 <= j < n && j != b && !#[trigger] used.contains(j as usize) ==> less_sure(
                    keys,
                    b as int,
                    j,
                ),
            None => forall|j: int| 0 <= j < n ==> #[trigger] used.contains(j as usize),
        },
    decreases n,
{
    if n > 0 {
        lemma_least_unused(keys, used, (n - 1) as nat);
        let i = (n - 1) as usize;
        match least_unused(keys, used, n) {
            Some(b) => {
                assert forall|j: int|
                    0 <= j < n && j != b && !#[trigger] used.contains(j as usize) implies less_sure(
                    keys,
                    b as int,
                    j,
                ) by {
                    match least_unused(keys, used, (n - 1) as nat) {
                        Some(c) => {
                            if j < n - 1 && j != c {
                                assert(less_sure(keys, c as int, j));
                            }
                        },
                        None => {
                            if j < n - 1 {
                                assert(used.contains(j as usize));
                            }
                        },
                    }
                }
            },
            None => {},
        }
    }
}

/// The marked indices are the least confident ones, as many as asked for, none twice:
/// each comes before every index that is not marked.
pub proof fn law_least_confident_are_marked(keys: Seq<u32>, k: nat)
    requires
        keys.len() <= usize::MAX,
        k <= keys.len(),
    ensures
        least_confident(keys, k).len() == k,
        least_confident(keys, k).no_duplicates(),
        forall|m: int| 0 <= m < k ==> #[trigger] least_confident(keys, k)[m] < keys.len(),
        forall|m: int, j: int|
            0 <= m < k && 0 <= j < keys.len() && !least_confident(keys, k).contains(j as usize)
                ==> #[trigger] less_sure(keys, least_confident(keys, k)[m] as int, j),
    decreases k,
{
    crate::ax100::lemma_least_confident(keys, k);
    if k > 0 {
        let before = least_confident(keys, (k - 1) as nat);
        let now = least_confident(keys, k);
        law_least_confident_are_marked(keys, (k - 1) as nat);
        lemma_least_unused(keys, before, keys.len());
        assert forall|m: int, j: int|
            0 <= m < k && 0 <= j < keys.len() && !now.contains(j as usize) implies #[trigger] less_sure(
            keys,
            now[m] as int,
            j,
        ) by {
            if before.contains(j as usize) {
                let q = choose|q: int| 0 <= q < before.len() && before[q] == j as usize;
                assert(now[q] == j as usize);
            }
            if m < k - 1 {
                assert(now[m] == before[m]);
                assert(less_sure(keys, before[m] as int, j));
            } else {
                let b = least_unused(keys, before, keys.len()).unwrap();
                assert(now[m] == b);
                assert(j != b) by {
                    assert(now.contains(b));
                }
            }
        }
    }
}

proof fn lemma_confidence(soft: Seq<u32>, i: int, n: nat)
    ensures
        forall|j: int| 0 <= j < n ==> confidence(soft, i, n) <= #[trigger] soft[24 + 8 * i + j],
        n > 0 ==> exists|j: int|
            0 <= j < n && #[trigger] soft[24 + 8 * i + j] == confidence(soft, i, n),
    decreases n,
{
    if n > 0 {
        lemma_confidence(soft, i, (n - 1) as nat);
        let last = soft[24 + 8 * i + (n - 1)];
        assert(last == soft[24 + 8 * i + n - 1]);
        if confidence(soft, i, n) == last {
            assert(soft[24 + 8 * i + (n - 1)] == confidence(soft, i, n));
        } else {
            let j = choose|j: int|
                0 <= j < n - 1 && #[trigger] soft[24 + 8 * i + j] == confidence(
                    soft,
                    i,
                    (n - 1) as nat,
                );
            assert(soft[24 + 8 * i + j] == confidence(soft, i, n));
        }
    }
}

/// A byte is as sure as the least sure of its eight bits, which stand behind the 24 bits
/// of the header and those of the bytes before it.
pub proof fn law_weakest_bit_counts(soft: Seq<u32>, len: nat, i: int)
    requires
        0 <= i < len,
    ensures
        confidences(soft, len).len() == len,
        forall|j: int|
            0 <= j < 8 ==> confidences(soft, len)[i] <= #[trigger] soft[24 + 8 * i + j],
        exists|j: int|
            0 <= j < 8 && #[trigger] soft[24 + 8 * i + j] == confidences(soft, len)[i],
{
    lemma_confidence(soft, i, 8);
}

/// As many bytes are marked as were asked for, unless the field or the parity is smaller.
pub proof fn law_marked_count(erasure_count: nat, len: nat)
    ensures
        marked_count(erasure_count, len) <= erasure_count,
        marked_count(erasure_count, len) <= len,
        marked_count(erasure_count, len) <= 32,
        marked_count(erasure_count, len) == erasure_count || marked_count(erasure_count, len) == len
            || marked_count(erasure_count, len) == 32,
{
}

} // verus!
