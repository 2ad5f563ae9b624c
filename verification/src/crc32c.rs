//! CRC-32C (Castagnoli), used by libcsp and GOMspace AX100 frames.
//!
//! Reflected input and output, initial value `0xFFFF_FFFF`, final XOR
//! `0xFFFF_FFFF`, reversed polynomial `0x82F6_3B78`.
use vstd::prelude::*;

verus! {

/// The reversed polynomial.
pub const POLY: u32 = 0x82F6_3B78;

/// Divide out one bit.
pub open spec fn crc_bit(crc: u32) -> u32 {
    if crc & 1 == 1 {
        (crc >> 1u32) ^ POLY
    } else {
        crc >> 1u32
    }
}

/// Divide out `n` bits.
pub open spec fn crc_bits(crc: u32, n: nat) -> u32
    decreases n,
{
    if n == 0 {
        crc
    } else {
        crc_bit(crc_bits(crc, (n - 1) as nat))
    }
}

/// The register after the first `n` bytes.
pub open spec fn crc_register(data: Seq<u8>, n: nat) -> u32
    decreases n,
{
    if n == 0 {
        0xFFFF_FFFF
    } else {
        crc_bits(crc_register(data, (n - 1) as nat) ^ (data[n - 1] as u32), 8)
    }
}

/// The CRC-32C of `data`.
pub open spec fn crc32c(data: Seq<u8>) -> u32 {
    crc_register(data, data.len()) ^ 0xFFFF_FFFF
}

/// Compute the CRC-32C of `data`.
pub fn checksum(data: &[u8]) -> (r: u32)
    ensures
        r == crc32c(data@),
{
    let mut crc: u32 = 0xFFFF_FFFF;
    let mut n: usize = 0;
    while n < data.len()
        invariant
            n <= data@.len(),
            crc == crc_register(data@, n as nat),
        decreases data@.len() - n,
    {
        crc = crc ^ (data[n] as u32);
        let ghost start = crc;
        let mut k: u8 = 0;
        while k < 8
            invariant
                k <= 8,
                crc == crc_bits(start, k as nat),
            decreases 8 - k,
        {
            if crc & 1 == 1 {
                crc = (crc >> 1u32) ^ POLY;
            } else {
                crc = crc >> 1u32;
            }
            k = k + 1;
        }
        n = n + 1;
    }
    crc ^ 0xFFFF_FFFF
}

/// The register forgets nothing: different registers stay different.
proof fn lemma_step(x: u32, y: u32, a: u8, b: u8)
    by (bit_vector)
    ensures
        crc_bit(x) == crc_bit(y) ==> x == y,
        x ^ (a as u32) == y ^ (a as u32) ==> x == y,
        x ^ (a as u32) == x ^ (b as u32) ==> a == b,
        x ^ 0xFFFF_FFFF == y ^ 0xFFFF_FFFF ==> x == y,
{
}

proof fn lemma_bits(x: u32, y: u32, n: nat)
    requires
        x != y,
    ensures
        crc_bits(x, n) != crc_bits(y, n),
    decreases n,
{
    if n > 0 {
        lemma_bits(x, y, (n - 1) as nat);
        lemma_step(crc_bits(x, (n - 1) as nat), crc_bits(y, (n - 1) as nat), 0, 0);
    }
}

proof fn lemma_register(data: Seq<u8>, k: int, x: u8, n: nat)
    requires
        0 <= k < data.len(),
        x != data[k],
        n <= data.len(),
    ensures
        crc_register(data.update(k, x), n) == crc_register(data, n) <==> n <= k,
    decreases n,
{
    if n > 0 {
        let other = data.update(k, x);
        let a = crc_register(data, (n - 1) as nat);
        let b = crc_register(other, (n - 1) as nat);
        lemma_register(data, k, x, (n - 1) as nat);
        lemma_step(a, b, data[n - 1], other[n - 1]);
        if n > k {
            lemma_bits(a ^ (data[n - 1] as u32), b ^ (other[n - 1] as u32), 8);
        }
    }
}

/// The checksum tells data from the same data with one byte changed.
pub proof fn law_sees_one_byte(data: Seq<u8>, k: int, x: u8)
    requires
        0 <= k < data.len(),
        x != data[k],
    ensures
        crc32c(data.update(k, x)) != crc32c(data),
{
    let other = data.update(k, x);
    lemma_register(data, k, x, data.len());
    lemma_step(crc_register(data, data.len()), crc_register(other, data.len()), 0, 0);
}

/// `g`, shifted up by `i`, where bit `i` of `q` is set.
pub open spec fn shifted_where(q: u8, g: u64, i: u64) -> u64 {
    if (q as u64 >> i) & 1u64 == 1u64 {
        g << i
    } else {
        0
    }
}

/// The product of `q` and `g`, as polynomials over two elements.
pub open spec fn carryless_product(q: u8, g: u64) -> u64 {
    shifted_where(q, g, 0) ^ shifted_where(q, g, 1) ^ shifted_where(q, g, 2) ^ shifted_where(
        q,
        g,
        3,
    ) ^ shifted_where(q, g, 4) ^ shifted_where(q, g, 5) ^ shifted_where(q, g, 6) ^ shifted_where(
        q,
        g,
        7,
    )
}

/// The bits that are divided out of the register in eight steps.
spec fn quotient(x: u32) -> u8 {
    let a = crc_bit(x);
    let b = crc_bit(a);
    let c = crc_bit(b);
    let d = crc_bit(c);
    let e = crc_bit(d);
    let f = crc_bit(e);
    let g = crc_bit(f);
    ((x & 1) | ((a & 1) << 1u32) | ((b & 1) << 2u32) | ((c & 1) << 3u32) | ((d & 1) << 4u32) | ((e
        & 1) << 5u32) | ((f & 1) << 6u32) | ((g & 1) << 7u32)) as u8
}

proof fn lemma_quotient(r: u32, b: u8)
    by (bit_vector)
    ensures
        (r ^ 0xFFFF_FFFF) ^ 0xFFFF_FFFF == r,
        r ^ r == 0,
        ({
            let x = r ^ (b as u32);
            let y = crc_bit(
                crc_bit(crc_bit(crc_bit(crc_bit(crc_bit(crc_bit(crc_bit(x))))))),
            );
            (x as u64) ^ ((y as u64) << 8u64) == carryless_product(quotient(x), 0x1_05EC_76F1u64)
        }),
{
}

proof fn lemma_prefix(data: Seq<u8>, b: u8, n: nat)
    requires
        n <= data.len(),
    ensures
        crc_register(data.push(b), n) == crc_register(data, n),
    decreases n,
{
    if n > 0 {
        lemma_prefix(data, b, (n - 1) as nat);
    }
}

/// The checksum is the remainder of a division, for data of any length, with all bits
/// reflected and inverted at the end. That of no data is zero. Taken without the final
/// inversion, one more byte is added to the low end, and eight places further up stands
/// what is left over: the two differ by a multiple of the generator polynomial, whose
/// lowest bit stands for `x^32`.
pub proof fn law_checksum_is_a_remainder(data: Seq<u8>, b: u8)
    ensures
        crc32c(Seq::empty()) == 0,
        exists|q: u8|
            ((crc32c(data) ^ 0xFFFF_FFFF ^ (b as u32)) as u64) ^ (((crc32c(data.push(b))
                ^ 0xFFFF_FFFF) as u64) << 8u64) == #[trigger] carryless_product(
                q,
                0x1_05EC_76F1u64,
            ),
{
    let r = crc_register(data, data.len());
    let t = crc_register(data.push(b), data.len() + 1);
    lemma_prefix(data, b, data.len());
    reveal_with_fuel(crc_bits, 9);
    lemma_quotient(r, b);
    lemma_quotient(t, b);
    lemma_quotient(0xFFFF_FFFF, 0);
    assert(((crc32c(data) ^ 0xFFFF_FFFF ^ (b as u32)) as u64) ^ (((crc32c(data.push(b))
        ^ 0xFFFF_FFFF) as u64) << 8u64) == carryless_product(
        quotient(r ^ (b as u32)),
        0x1_05EC_76F1u64,
    ));
}

} // verus!
