//! Packing one-bit-per-byte streams into bytes, high bit first, and back.
use vstd::prelude::*;

verus! {

/// Bit `j` of a byte, counted from the high bit.
pub open spec fn bit_of(byte: u8, j: int) -> u8 {
    (byte >> (7 - j) as u8) & 1u8
}

/// The bits of a byte sequence, high bit first.
pub open spec fn unpacked(bytes: Seq<u8>) -> Seq<u8> {
    Seq::new(8 * bytes.len(), |i: int| bit_of(bytes[i / 8], i % 8))
}

/// The byte made of the first `n` of up to eight bits that start at `start`;
/// bits beyond the end count as zero.
pub open spec fn packed_bits(bits: Seq<u8>, start: int, n: nat) -> u8
    decreases n,
{
    if n == 0 {
        0
    } else {
        let at = start + n - 1;
        packed_bits(bits, start, (n - 1) as nat) | (if at < bits.len() {
            (bits[at] & 1u8) << (8 - n) as u8
        } else {
            0u8
        })
    }
}

/// The bytes of a bit sequence, high bit first; the last byte is filled with zeros.
pub open spec fn packed(bits: Seq<u8>) -> Seq<u8> {
    Seq::new((bits.len() + 7) / 8, |k: int| packed_bits(bits, 8 * k, 8))
}

/// Pack bits into bytes, high bit first.
pub fn pack_msb_bits(bits: &[u8]) -> (out: Vec<u8>)
    ensures
        out@ == packed(bits@),
{
    let mut out: Vec<u8> = Vec::new();
    let len: usize = bits.len();
    let mut at: usize = 0;
    while at < len
        invariant
            len == bits@.len(),
            at <= len,
            at % 8 == 0 || at == len,
            out@.len() == (at + 7) / 8,
            forall|k: int| 0 <= k < out@.len() ==> out@[k] == packed_bits(bits@, 8 * k, 8),
        decreases len - at,
    {
        let mut byte: u8 = 0;
        let mut j: usize = 0;
        while j < 8
            invariant
                j <= 8,
                len == bits@.len(),
                at < len,
                byte == packed_bits(bits@, at as int, j as nat),
            decreases 8 - j,
        {
            if j < len - at {
                byte = byte | ((bits[at + j] & 1u8) << (7 - j as u8));
            } else {
                proof {
                    crate::viterbi::lemma_flipped_bit(byte);
                }
            }
            j = j + 1;
        }
        out.push(byte);
        at = if len - at > 8 {
            at + 8
        } else {
            len
        };
    }
    assert(out@ =~= packed(bits@));
    out
}

/// Unpack bytes into bits, high bit first.
pub fn unpack_msb_bits(bytes: &[u8]) -> (out: Vec<u8>)
    ensures
        out@ == unpacked(bytes@),
{
    let mut out: Vec<u8> = Vec::new();
    let mut k: usize = 0;
    while k < bytes.len()
        invariant
            k <= bytes@.len(),
            out@.len() == 8 * k,
            forall|i: int| 0 <= i < 8 * k ==> out@[i] == bit_of(bytes@[i / 8], i % 8),
        decreases bytes@.len() - k,
    {
        let byte: u8 = bytes[k];
        let mut j: u8 = 0;
        while j < 8
            invariant
                j <= 8,
                k < bytes@.len(),
                byte == bytes@[k as int],
                out@.len() == 8 * k + j,
                forall|i: int| 0 <= i < 8 * k + j ==> out@[i] == bit_of(bytes@[i / 8], i % 8),
            decreases 8 - j,
        {
            out.push((byte >> (7 - j)) & 1u8);
            j = j + 1;
        }
        k = k + 1;
    }
    assert(out@ =~= unpacked(bytes@));
    out
}

proof fn lemma_byte_of_bits(b: u8, b0: u8, b1: u8, b2: u8, b3: u8, b4: u8, b5: u8, b6: u8, b7: u8)
    by (bit_vector)
    requires
        b0 == (b >> 7u8) & 1,
        b1 == (b >> 6u8) & 1,
        b2 == (b >> 5u8) & 1,
        b3 == (b >> 4u8) & 1,
        b4 == (b >> 3u8) & 1,
        b5 == (b >> 2u8) & 1,
        b6 == (b >> 1u8) & 1,
        b7 == (b >> 0u8) & 1,
    ensures
        0u8 | ((b0 & 1) << 7u8) | ((b1 & 1) << 6u8) | ((b2 & 1) << 5u8) | ((b3 & 1) << 4u8) | ((b4
            & 1) << 3u8) | ((b5 & 1) << 2u8) | ((b6 & 1) << 1u8) | ((b7 & 1) << 0u8) == b,
        b0 <= 1,
{
}

/// Packing undoes unpacking, also with up to seven further bits behind.
pub proof fn law_pack_undoes_unpack(bytes: Seq<u8>, tail: Seq<u8>)
    ensures
        packed(unpacked(bytes) + tail).take(bytes.len() as int) == bytes,
{
    let bits = unpacked(bytes) + tail;
    let out = packed(bits);
    assert(out.len() >= bytes.len());
    assert forall|k: int| 0 <= k < bytes.len() implies out[k] == bytes[k] by {
        let s = 8 * k;
        reveal_with_fuel(packed_bits, 9);
        assert forall|j: int| 0 <= j < 8 implies bits[s + j] == #[trigger] bit_of(bytes[k], j) by {
            assert((s + j) / 8 == k);
            assert((s + j) % 8 == j);
        }
        lemma_byte_of_bits(
            bytes[k],
            bit_of(bytes[k], 0),
            bit_of(bytes[k], 1),
            bit_of(bytes[k], 2),
            bit_of(bytes[k], 3),
            bit_of(bytes[k], 4),
            bit_of(bytes[k], 5),
            bit_of(bytes[k], 6),
            bit_of(bytes[k], 7),
        );
        assert(bits[s + 0] == bit_of(bytes[k], 0));
        assert(bits[s + 1] == bit_of(bytes[k], 1));
        assert(bits[s + 2] == bit_of(bytes[k], 2));
        assert(bits[s + 3] == bit_of(bytes[k], 3));
        assert(bits[s + 4] == bit_of(bytes[k], 4));
        assert(bits[s + 5] == bit_of(bytes[k], 5));
        assert(bits[s + 6] == bit_of(bytes[k], 6));
        assert(bits[s + 7] == bit_of(bytes[k], 7));
    }
    assert(out.take(bytes.len() as int) =~= bytes);
}

/// Unpacked bits are zeros and ones.
pub proof fn lemma_unpacked_bits(bytes: Seq<u8>)
    ensures
        forall|i: int| 0 <= i < 8 * bytes.len() ==> unpacked(bytes)[i] <= 1,
{
    assert forall|i: int| 0 <= i < 8 * bytes.len() implies unpacked(bytes)[i] <= 1 by {
        let v = bytes[i / 8] >> (7 - i % 8) as u8;
        crate::viterbi::lemma_low_bit(v);
    }
}

proof fn lemma_digits(b: u8)
    by (bit_vector)
    ensures
        b == 128 * ((b >> 7u8) & 1u8) + 64 * ((b >> 6u8) & 1u8) + 32 * ((b >> 5u8) & 1u8) + 16 * ((b
            >> 4u8) & 1u8) + 8 * ((b >> 3u8) & 1u8) + 4 * ((b >> 2u8) & 1u8) + 2 * ((b >> 1u8)
            & 1u8) + ((b >> 0u8) & 1u8),
{
}

/// A byte is the sum of its bits, of which the first counts 128 and the eighth one.
pub open spec fn weighs(byte: u8, bits: Seq<u8>, at: int) -> bool {
    byte == 128 * bits[at] + 64 * bits[at + 1] + 32 * bits[at + 2] + 16 * bits[at + 3] + 8 * bits[at
        + 4] + 4 * bits[at + 5] + 2 * bits[at + 6] + bits[at + 7]
}

/// Bytes are unpacked to their binary digits, the high one first.
pub proof fn law_digits_of_bytes(bytes: Seq<u8>, k: int)
    requires
        0 <= k < bytes.len(),
    ensures
        unpacked(bytes).len() == 8 * bytes.len(),
        weighs(bytes[k], unpacked(bytes), 8 * k),
        forall|i: int| 0 <= i < 8 * bytes.len() ==> #[trigger] unpacked(bytes)[i] <= 1,
{
    lemma_unpacked_bits(bytes);
    lemma_digits(bytes[k]);
    let bits = unpacked(bytes);
    assert forall|j: int| 0 <= j < 8 implies bits[8 * k + j] == #[trigger] bit_of(bytes[k], j) by {
        assert((8 * k + j) / 8 == k);
        assert((8 * k + j) % 8 == j);
    }
    assert(bits[8 * k + 0] == bit_of(bytes[k], 0));
    assert(bits[8 * k + 1] == bit_of(bytes[k], 1));
    assert(bits[8 * k + 2] == bit_of(bytes[k], 2));
    assert(bits[8 * k + 3] == bit_of(bytes[k], 3));
    assert(bits[8 * k + 4] == bit_of(bytes[k], 4));
    assert(bits[8 * k + 5] == bit_of(bytes[k], 5));
    assert(bits[8 * k + 6] == bit_of(bytes[k], 6));
    assert(bits[8 * k + 7] == bit_of(bytes[k], 7));
}

proof fn lemma_sum_of_bits(b0: u8, b1: u8, b2: u8, b3: u8, b4: u8, b5: u8, b6: u8, b7: u8)
    by (bit_vector)
    requires
        b0 <= 1,
        b1 <= 1,
        b2 <= 1,
        b3 <= 1,
        b4 <= 1,
        b5 <= 1,
        b6 <= 1,
        b7 <= 1,
    ensures
        0u8 | ((b0 & 1) << 7u8) | ((b1 & 1) << 6u8) | ((b2 & 1) << 5u8) | ((b3 & 1) << 4u8) | ((b4
            & 1) << 3u8) | ((b5 & 1) << 2u8) | ((b6 & 1) << 1u8) | ((b7 & 1) << 0u8) == 128 * b0
            + 64 * b1 + 32 * b2 + 16 * b3 + 8 * b4 + 4 * b5 + 2 * b6 + b7,
{
}

/// Eight bits are packed to the byte whose binary digits they are, the high one first;
/// missing ones at the end count as zeros.
pub proof fn law_bytes_of_digits(bits: Seq<u8>, k: int)
    requires
        forall|i: int| 0 <= i < bits.len() ==> bits[i] <= 1,
        0 <= 8 * k < bits.len(),
    ensures
        packed(bits).len() == (bits.len() + 7) / 8,
        ({
            let filled = bits + seq![0u8, 0u8, 0u8, 0u8, 0u8, 0u8, 0u8];
            weighs(packed(bits)[k], filled, 8 * k)
        }),
{
    let filled = bits + seq![0u8, 0u8, 0u8, 0u8, 0u8, 0u8, 0u8];
    reveal_with_fuel(packed_bits, 9);
    let s = 8 * k;
    assert forall|i: int| 0 <= i < filled.len() implies #[trigger] filled[i] <= 1 by {}
    lemma_sum_of_bits(
        filled[s],
        filled[s + 1],
        filled[s + 2],
        filled[s + 3],
        filled[s + 4],
        filled[s + 5],
        filled[s + 6],
        filled[s + 7],
    );
    crate::viterbi::lemma_low_bit(0);
    lemma_sum_of_bits(0, 0, 0, 0, 0, 0, 0, 0);
    assert forall|j: u8| j < 8 implies (0u8 & 1u8) << j == 0 by {
        lemma_zero_shift(j);
    }
}

proof fn lemma_zero_shift(j: u8)
    by (bit_vector)
    ensures
        (0u8 & 1u8) << j == 0,
{
}

} // verus!
