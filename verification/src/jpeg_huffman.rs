//! The JPEG Huffman tables and the coding of coefficients.
//!
//! A table is stored as in a DHT segment: a class/id byte, the number of codes
//! of each of the sixteen lengths, and the symbols in code order. The codes of a
//! length are consecutive; the first one of the next length is twice the number
//! that follows the last.
use vstd::prelude::*;
use vstd::arithmetic::power2::{lemma_pow2_adds, lemma_pow2_pos, lemma_pow2_unfold, lemma2_to64, pow2};
use vstd::arithmetic::div_mod::{
    lemma_div_denominator, lemma_div_is_ordered, lemma_fundamental_div_mod, lemma_small_mod,
};
use vstd::bits::{lemma_u64_pow2_no_overflow, lemma_u64_shl_is_mul};

verus! {

/// DC coefficients of the luma component.
pub const STD_DHT00: [u8; 29] = [
    0x00, 0x00, 0x01, 0x05, 0x01, 0x01, 0x01, 0x01, 0x01, 0x01, 0x00, 0x00, 0x00, 0x00, 0x00, 0x00,
    0x00, 0x00, 0x01, 0x02, 0x03, 0x04, 0x05, 0x06, 0x07, 0x08, 0x09, 0x0A, 0x0B,
];

/// DC coefficients of the chroma components.
pub const STD_DHT01: [u8; 29] = [
    0x01, 0x00, 0x03, 0x01, 0x01, 0x01, 0x01, 0x01, 0x01, 0x01, 0x01, 0x01, 0x00, 0x00, 0x00, 0x00,
    0x00, 0x00, 0x01, 0x02, 0x03, 0x04, 0x05, 0x06, 0x07, 0x08, 0x09, 0x0A, 0x0B,
];

/// AC coefficients of the luma component.
pub const STD_DHT10: [u8; 179] = [
    0x10, 0x00, 0x02, 0x01, 0x03, 0x03, 0x02, 0x04, 0x03, 0x05, 0x05, 0x04, 0x04, 0x00, 0x00, 0x01,
    0x7D, 0x01, 0x02, 0x03, 0x00, 0x04, 0x11, 0x05, 0x12, 0x21, 0x31, 0x41, 0x06, 0x13, 0x51, 0x61,
    0x07, 0x22, 0x71, 0x14, 0x32, 0x81, 0x91, 0xA1, 0x08, 0x23, 0x42, 0xB1, 0xC1, 0x15, 0x52, 0xD1,
    0xF0, 0x24, 0x33, 0x62, 0x72, 0x82, 0x09, 0x0A, 0x16, 0x17, 0x18, 0x19, 0x1A, 0x25, 0x26, 0x27,
    0x28, 0x29, 0x2A, 0x34, 0x35, 0x36, 0x37, 0x38, 0x39, 0x3A, 0x43, 0x44, 0x45, 0x46, 0x47, 0x48,
    0x49, 0x4A, 0x53, 0x54, 0x55, 0x56, 0x57, 0x58, 0x59, 0x5A, 0x63, 0x64, 0x65, 0x66, 0x67, 0x68,
    0x69, 0x6A, 0x73, 0x74, 0x75, 0x76, 0x77, 0x78, 0x79, 0x7A, 0x83, 0x84, 0x85, 0x86, 0x87, 0x88,
    0x89, 0x8A, 0x92, 0x93, 0x94, 0x95, 0x96, 0x97, 0x98, 0x99, 0x9A, 0xA2, 0xA3, 0xA4, 0xA5, 0xA6,
    0xA7, 0xA8, 0xA9, 0xAA, 0xB2, 0xB3, 0xB4, 0xB5, 0xB6, 0xB7, 0xB8, 0xB9, 0xBA, 0xC2, 0xC3, 0xC4,
    0xC5, 0xC6, 0xC7, 0xC8, 0xC9, 0xCA, 0xD2, 0xD3, 0xD4, 0xD5, 0xD6, 0xD7, 0xD8, 0xD9, 0xDA, 0xE1,
    0xE2, 0xE3, 0xE4, 0xE5, 0xE6, 0xE7, 0xE8, 0xE9, 0xEA, 0xF1, 0xF2, 0xF3, 0xF4, 0xF5, 0xF6, 0xF7,
    0xF8, 0xF9, 0xFA,
];

/// AC coefficients of the chroma components.
pub const STD_DHT11: [u8; 179] = [
    0x11, 0x00, 0x02, 0x01, 0x02, 0x04, 0x04, 0x03, 0x04, 0x07, 0x05, 0x04, 0x04, 0x00, 0x01, 0x02,
    0x77, 0x00, 0x01, 0x02, 0x03, 0x11, 0x04, 0x05, 0x21, 0x31, 0x06, 0x12, 0x41, 0x51, 0x07, 0x61,
    0x71, 0x13, 0x22, 0x32, 0x81, 0x08, 0x14, 0x42, 0x91, 0xA1, 0xB1, 0xC1, 0x09, 0x23, 0x33, 0x52,
    0xF0, 0x15, 0x62, 0x72, 0xD1, 0x0A, 0x16, 0x24, 0x34, 0xE1, 0x25, 0xF1, 0x17, 0x18, 0x19, 0x1A,
    0x26, 0x27, 0x28, 0x29, 0x2A, 0x35, 0x36, 0x37, 0x38, 0x39, 0x3A, 0x43, 0x44, 0x45, 0x46, 0x47,
    0x48, 0x49, 0x4A, 0x53, 0x54, 0x55, 0x56, 0x57, 0x58, 0x59, 0x5A, 0x63, 0x64, 0x65, 0x66, 0x67,
    0x68, 0x69, 0x6A, 0x73, 0x74, 0x75, 0x76, 0x77, 0x78, 0x79, 0x7A, 0x82, 0x83, 0x84, 0x85, 0x86,
    0x87, 0x88, 0x89, 0x8A, 0x92, 0x93, 0x94, 0x95, 0x96, 0x97, 0x98, 0x99, 0x9A, 0xA2, 0xA3, 0xA4,
    0xA5, 0xA6, 0xA7, 0xA8, 0xA9, 0xAA, 0xB2, 0xB3, 0xB4, 0xB5, 0xB6, 0xB7, 0xB8, 0xB9, 0xBA, 0xC2,
    0xC3, 0xC4, 0xC5, 0xC6, 0xC7, 0xC8, 0xC9, 0xCA, 0xD2, 0xD3, 0xD4, 0xD5, 0xD6, 0xD7, 0xD8, 0xD9,
    0xDA, 0xE2, 0xE3, 0xE4, 0xE5, 0xE6, 0xE7, 0xE8, 0xE9, 0xEA, 0xF2, 0xF3, 0xF4, 0xF5, 0xF6, 0xF7,
    0xF8, 0xF9, 0xFA,
];

/// The counts of the lengths from `cw` on name codes that fit their length and
/// symbols that the table holds.
pub open spec fn table_fits(dht: Seq<u8>, cw: nat, code: nat, ss: nat) -> bool
    decreases 17 - cw,
{
    cw > 16 || {
        &&& code + dht[cw as int] <= pow2(cw)
        &&& ss + dht[cw as int] <= dht.len()
        &&& table_fits(dht, cw + 1, 2 * (code + dht[cw as int] as nat), ss + dht[cw as int] as nat)
    }
}

/// A usable table whose codes all have two bits or more.
pub open spec fn is_table(dht: Seq<u8>) -> bool {
    &&& 17 <= dht.len() <= 0xFFFF
    &&& dht[1] == 0
    &&& table_fits(dht, 1, 0, 17)
}

/// The symbol and width of the code that starts the `len` low bits of `bits`,
/// among the codes of `cw` bits or more.
pub open spec fn lookup_from(
    dht: Seq<u8>,
    bits: nat,
    len: nat,
    cw: nat,
    code: nat,
    ss: nat,
) -> Option<(u8, u8)>
    decreases 17 - cw,
{
    if cw > 16 {
        Some((0, 0))
    } else if cw > len {
        None
    } else {
        let v = (bits / pow2((len - cw) as nat)) % pow2(cw);
        let n = dht[cw as int] as nat;
        if code <= v < code + n {
            Some((dht[ss + v - code], cw as u8))
        } else {
            lookup_from(dht, bits, len, cw + 1, 2 * (code + n), ss + n)
        }
    }
}

/// The symbol and width of the first code in the `len` low bits of `bits`.
pub open spec fn lookup(dht: Seq<u8>, bits: nat, len: nat) -> Option<(u8, u8)> {
    lookup_from(dht, bits, len, 1, 0, 17)
}

/// Where the symbol first stands in `dht[from..to]`.
pub open spec fn symbol_at(dht: Seq<u8>, symbol: u8, from: nat, to: nat) -> Option<nat>
    decreases to - from,
{
    if from >= to {
        None
    } else if dht[from as int] == symbol {
        Some(from)
    } else {
        symbol_at(dht, symbol, from + 1, to)
    }
}

/// The code and width of a symbol among the codes of `cw` bits or more.
pub open spec fn code_from(dht: Seq<u8>, symbol: u8, cw: nat, code: nat, ss: nat) -> Option<
    (nat, nat),
>
    decreases 17 - cw,
{
    if cw > 16 {
        None
    } else {
        let n = dht[cw as int] as nat;
        match symbol_at(dht, symbol, ss, ss + n) {
            Some(k) => Some(((code + k - ss) as nat, cw)),
            None => code_from(dht, symbol, cw + 1, 2 * (code + n), ss + n),
        }
    }
}

/// The code and width of a symbol.
pub open spec fn code_of(dht: Seq<u8>, symbol: u8) -> Option<(nat, nat)> {
    code_from(dht, symbol, 1, 0, 17)
}

proof fn lemma_symbol_at(dht: Seq<u8>, symbol: u8, from: nat, to: nat)
    ensures
        match symbol_at(dht, symbol, from, to) {
            Some(k) => from <= k < to && dht[k as int] == symbol,
            None => forall|k: int| from <= k < to ==> dht[k] != symbol,
        },
    decreases to - from,
{
    if from < to && dht[from as int] != symbol {
        lemma_symbol_at(dht, symbol, from + 1, to);
    }
}

/// A power of two.
pub fn two_pow(k: u32) -> (r: u64)
    requires
        k < 63,
    ensures
        r == pow2(k as nat),
        r > 0,
{
    proof {
        lemma_u64_pow2_no_overflow(k as nat);
        lemma_u64_shl_is_mul(1, k as u64);
    }
    1u64 << (k as u64)
}

/// Walk a JPEG-format DHT (1-byte class/id + 16 length counts + symbols) to map
/// the next codeword in `bits[..len]` to a symbol. Returns
/// `Some((symbol, codeword_width))` on a match, `None` if the bit accumulator
/// does not yet hold enough bits to disambiguate. Sixteen bits that match no
/// code give `Some((0, 0))`.
pub fn jpeg_dht_lookup(dht: &[u8], bits: u32, len: u8) -> (r: Option<(u8, u8)>)
    requires
        is_table(dht@),
        len <= 32,
    ensures
        r == lookup(dht@, bits as nat, len as nat),
{
    let mut code: u32 = 0;
    let mut ss: usize = 17;
    let mut cw: u8 = 1;
    while cw <= 16
        invariant
            1 <= cw <= 17,
            len <= 32,
            dht@.len() <= 0xFFFF,
            17 <= dht@.len(),
            code <= 0x20000,
            ss <= dht@.len(),
            table_fits(dht@, cw as nat, code as nat, ss as nat),
            lookup(dht@, bits as nat, len as nat) == lookup_from(
                dht@,
                bits as nat,
                len as nat,
                cw as nat,
                code as nat,
                ss as nat,
            ),
        decreases 17 - cw,
    {
        if cw > len {
            return None;
        }
        let n: u8 = dht[cw as usize];
        let v: u64 = (bits as u64 / two_pow((len - cw) as u32)) % two_pow(cw as u32);
        proof {
            lemma2_to64();
            lemma_pow2_small(cw as nat);
        }
        if code as u64 <= v && v < code as u64 + n as u64 {
            return Some((dht[ss + (v as usize - code as usize)], cw));
        }
        ss = ss + n as usize;
        code = 2 * (code + n as u32);
        cw = cw + 1;
    }
    Some((0, 0))
}

/// Reverse lookup: encode `symbol` against `dht`, returning the codeword bits
/// and width. `None` if the table does not contain the symbol.
pub fn jpeg_dht_encode(dht: &[u8], symbol: u8) -> (r: Option<(u16, u8)>)
    requires
        is_table(dht@),
    ensures
        match code_of(dht@, symbol) {
            Some((code, width)) => r matches Some((c, w)) && c == code && w == width,
            None => r is None,
        },
{
    let mut code: u32 = 0;
    let mut ss: usize = 17;
    let mut cw: u8 = 1;
    while cw <= 16
        invariant
            1 <= cw <= 17,
            dht@.len() <= 0xFFFF,
            17 <= dht@.len(),
            code <= 0x20000,
            ss <= dht@.len(),
            table_fits(dht@, cw as nat, code as nat, ss as nat),
            code_of(dht@, symbol) == code_from(
                dht@,
                symbol,
                cw as nat,
                code as nat,
                ss as nat,
            ),
        decreases 17 - cw,
    {
        let n: u8 = dht[cw as usize];
        proof {
            lemma_pow2_small(cw as nat);
        }
        let mut k: usize = 0;
        while k < n as usize
            invariant
                1 <= cw <= 16,
                k <= n,
                n == dht@[cw as int],
                ss + n <= dht@.len() <= 0xFFFF,
                code + n <= 0x10000,
                symbol_at(dht@, symbol, ss as nat, (ss + n) as nat) == symbol_at(
                    dht@,
                    symbol,
                    (ss + k) as nat,
                    (ss + n) as nat,
                ),
                code_of(dht@, symbol) == code_from(
                    dht@,
                    symbol,
                    cw as nat,
                    code as nat,
                    ss as nat,
                ),
            decreases n - k,
        {
            if dht[ss + k] == symbol {
                return Some(((code + k as u32) as u16, cw));
            }
            k = k + 1;
        }
        ss = ss + n as usize;
        code = 2 * (code + n as u32);
        cw = cw + 1;
    }
    None
}

proof fn lemma_pow2_small(cw: nat)
    requires
        cw <= 16,
    ensures
        pow2(cw) <= 0x10000,
{
    lemma2_to64();
}

/// The number of bits of a number.
pub open spec fn bit_width(v: nat) -> nat
    decreases v,
{
    if v == 0 {
        0
    } else {
        1 + bit_width(v / 2)
    }
}

/// The magnitude of a number.
pub open spec fn magnitude(v: int) -> nat {
    if v < 0 {
        (-v) as nat
    } else {
        v as nat
    }
}

/// The bits and width of a coefficient: a negative one is stored as the
/// complement of its magnitude.
pub open spec fn int_code(value: int) -> (nat, nat) {
    let width = bit_width(magnitude(value));
    (
        if value < 0 {
            (pow2(width) - 1 + value) as nat
        } else {
            value as nat
        },
        width,
    )
}

/// The coefficient of `width` bits.
pub open spec fn int_value(bits: int, width: nat) -> int {
    if width == 0 {
        0
    } else if bits < pow2((width - 1) as nat) {
        bits - (pow2(width) - 1)
    } else {
        bits
    }
}

/// A number has its bit width.
pub proof fn lemma_bit_width(v: nat)
    ensures
        v < pow2(bit_width(v)),
        v > 0 ==> bit_width(v) > 0 && pow2((bit_width(v) - 1) as nat) <= v,
    decreases v,
{
    if v == 0 {
        lemma2_to64();
    } else {
        lemma_bit_width(v / 2);
        lemma_pow2_unfold(bit_width(v));
        if v / 2 == 0 {
            lemma2_to64();
        } else {
            lemma_pow2_unfold((bit_width(v) - 1) as nat);
        }
    }
}

/// A number below a power of two is no wider.
pub proof fn lemma_bit_width_bound(v: nat, k: nat)
    requires
        v < pow2(k),
    ensures
        bit_width(v) <= k,
    decreases k,
{
    if v > 0 {
        lemma2_to64();
        lemma_pow2_unfold(k);
        lemma_bit_width_bound(v / 2, (k - 1) as nat);
    }
}

/// Convert raw bits + width into a signed JPEG coefficient.
pub fn jpeg_int(bits: i32, width: u8) -> (r: i32)
    requires
        width < 31,
        0 <= bits,
        width > 0 ==> bits < pow2(width as nat),
    ensures
        r == int_value(bits as int, width as nat),
{
    if width == 0 {
        return 0;
    }
    let half: u64 = two_pow(width as u32 - 1);
    proof {
        lemma2_to64();
        lemma_pow2_unfold(width as nat);
        lemma_pow2_strictly_below(width as nat);
    }
    if (bits as u64) < half {
        bits - (2 * half - 1) as i32
    } else {
        bits
    }
}

proof fn lemma_pow2_strictly_below(k: nat)
    requires
        k < 31,
    ensures
        pow2(k) <= 0x4000_0000,
{
    lemma2_to64();
}

/// Encode a signed JPEG coefficient into (bits, width).
pub fn jpeg_encode_int(value: i32) -> (r: (i32, u8))
    ensures
        r.0 == int_code(value as int).0,
        r.1 == int_code(value as int).1,
{
    let abs: u32 = if value < 0 {
        (-(value as i64)) as u32
    } else {
        value as u32
    };
    let mut v: u32 = abs;
    let mut width: u8 = 0;
    proof {
        lemma2_to64();
        lemma_bit_width_bound(abs as nat, 32);
        lemma_bit_width(abs as nat);
    }
    while v != 0
        invariant
            width + bit_width(v as nat) == bit_width(abs as nat),
            bit_width(abs as nat) <= 32,
        decreases v,
    {
        width = width + 1;
        v = v / 2;
    }
    if value < 0 {
        proof {
            assert(pow2(width as nat) - 1 - abs <= abs) by {
                lemma_pow2_unfold(width as nat);
            }
        }
        let mask: u64 = two_pow(width as u32) - 1;
        ((mask - abs as u64) as i32, width)
    } else {
        (value, width)
    }
}

/// A coefficient survives coding.
pub proof fn law_int_round_trip(value: int)
    ensures
        int_value(int_code(value).0 as int, int_code(value).1) == value,
        int_code(value).0 < pow2(int_code(value).1),
{
    let m = magnitude(value);
    lemma_bit_width(m);
    lemma2_to64();
    if m > 0 {
        lemma_pow2_unfold(bit_width(m));
    }
}

proof fn lemma_code_bounds(dht: Seq<u8>, symbol: u8, cw: nat, code: nat, ss: nat)
    requires
        table_fits(dht, cw, code, ss),
        code_from(dht, symbol, cw, code, ss) is Some,
    ensures
        ({
            let (c, w) = code_from(dht, symbol, cw, code, ss).unwrap();
            &&& cw <= w <= 16
            &&& code * pow2((w - cw) as nat) <= c < pow2(w)
        }),
    decreases 17 - cw,
{
    let n = dht[cw as int] as nat;
    lemma2_to64();
    lemma_symbol_at(dht, symbol, ss, ss + n);
    if symbol_at(dht, symbol, ss, ss + n) is None {
        lemma_code_bounds(dht, symbol, cw + 1, 2 * (code + n), ss + n);
        let (c, w) = code_from(dht, symbol, cw, code, ss).unwrap();
        lemma_pow2_unfold((w - cw) as nat);
        let p = pow2((w - cw - 1) as nat) as int;
        let q = pow2((w - cw) as nat) as int;
        assert(code * q <= (2 * (code + n)) * p) by (nonlinear_arith)
            requires
                q == 2 * p,
                p >= 0,
                n >= 0,
        ;
    } else {
        assert(code * pow2(0) == code) by (nonlinear_arith)
            requires
                pow2(0) == 1,
        ;
    }
}

/// The prefix of `cw` bits of a code of `w` bits that starts `len` bits.
proof fn lemma_prefix(bits: nat, len: nat, c: nat, w: nat, cw: nat)
    requires
        cw <= w <= len,
        c < pow2(w),
        bits / pow2((len - w) as nat) == c,
    ensures
        (bits / pow2((len - cw) as nat)) % pow2(cw) == c / pow2((w - cw) as nat),
{
    let d = pow2((w - cw) as nat);
    lemma_pow2_adds((len - w) as nat, (w - cw) as nat);
    lemma_pow2_adds(cw, (w - cw) as nat);
    lemma_pow2_pos((len - w) as nat);
    lemma_pow2_pos((w - cw) as nat);
    lemma_div_denominator(bits as int, pow2((len - w) as nat) as int, d as int);
    lemma_fundamental_div_mod(c as int, d as int);
    assert(c / d < pow2(cw)) by (nonlinear_arith)
        requires
            c < pow2(cw) * d,
            c == d * (c / d) + c % d,
            c % d >= 0,
            d > 0,
    ;
    lemma_small_mod(c / d, pow2(cw));
}

proof fn lemma_lookup_from(
    dht: Seq<u8>,
    symbol: u8,
    cw: nat,
    code: nat,
    ss: nat,
    bits: nat,
    len: nat,
)
    requires
        table_fits(dht, cw, code, ss),
        code_from(dht, symbol, cw, code, ss) matches Some((c, w)) && w <= len && bits / pow2(
            (len - w) as nat,
        ) == c,
    ensures
        lookup_from(dht, bits, len, cw, code, ss) == Some(
            (symbol, code_from(dht, symbol, cw, code, ss).unwrap().1 as u8),
        ),
    decreases 17 - cw,
{
    let (c, w) = code_from(dht, symbol, cw, code, ss).unwrap();
    let n = dht[cw as int] as nat;
    lemma_code_bounds(dht, symbol, cw, code, ss);
    lemma_prefix(bits, len, c, w, cw);
    lemma_symbol_at(dht, symbol, ss, ss + n);
    lemma2_to64();
    match symbol_at(dht, symbol, ss, ss + n) {
        Some(k) => {
            assert(c / pow2(0) == c);
        },
        None => {
            lemma_code_bounds(dht, symbol, cw + 1, 2 * (code + n), ss + n);
            let p = pow2((w - cw - 1) as nat);
            let d = pow2((w - cw) as nat);
            lemma_pow2_unfold((w - cw) as nat);
            lemma_pow2_pos((w - cw) as nat);
            let v = c / d;
            lemma_fundamental_div_mod(c as int, d as int);
            assert(v >= code + n) by (nonlinear_arith)
                requires
                    (2 * (code + n)) * p <= c,
                    d == 2 * p,
                    c == d * v + c % d,
                    c % d < d,
                    d > 0,
            ;
            lemma_lookup_from(dht, symbol, cw + 1, 2 * (code + n), ss + n, bits, len);
        },
    }
}

/// Looking up the code of a symbol, whatever bits follow it, gives the symbol
/// and the width of its code.
pub proof fn law_code_round_trip(dht: Seq<u8>, symbol: u8, tail: nat, k: nat)
    requires
        is_table(dht),
        code_of(dht, symbol) is Some,
        tail < pow2(k),
    ensures
        ({
            let (code, width) = code_of(dht, symbol).unwrap();
            lookup(dht, code * pow2(k) + tail, width + k) == Some((symbol, width as u8))
        }),
{
    let (code, width) = code_of(dht, symbol).unwrap();
    let p = pow2(k) as int;
    lemma_pow2_pos(k);
    let bits = code * pow2(k) + tail;
    vstd::arithmetic::div_mod::lemma_fundamental_div_mod_converse(
        bits as int,
        p,
        code as int,
        tail as int,
    );
    lemma_lookup_from(dht, symbol, 1, 0, 17, bits, width + k);
}

proof fn lemma_prefix_from(
    dht: Seq<u8>,
    bits: nat,
    len: nat,
    l: nat,
    cw: nat,
    code: nat,
    ss: nat,
)
    requires
        l < len <= 16,
        lookup_from(dht, bits, len, cw, code, ss) matches Some((_, w)) && w > l,
    ensures
        lookup_from(dht, bits / pow2((len - l) as nat), l, cw, code, ss) is None,
    decreases 17 - cw,
{
    let rest = (len - l) as nat;
    lemma_pow2_pos(rest);
    if cw <= l {
        let short = (l - cw) as nat;
        lemma_pow2_pos(short);
        lemma_pow2_adds(rest, short);
        lemma_div_denominator(bits as int, pow2(rest) as int, pow2(short) as int);
        assert(rest + short == len - cw);
        assert((bits / pow2(rest)) / pow2(short) == bits / pow2((len - cw) as nat));
        let n = dht[cw as int] as nat;
        let v = (bits / pow2((len - cw) as nat)) % pow2(cw);
        if code <= v < code + n {
            assert(lookup_from(dht, bits, len, cw, code, ss) == Some(
                (dht[ss + v - code], cw as u8),
            ));
        }
        lemma_prefix_from(dht, bits, len, l, cw + 1, 2 * (code + n), ss + n);
    }
}

/// A part of a code decides nothing: for every shorter prefix of a symbol's code the
/// lookup asks for more bits.
pub proof fn law_prefix_is_undecided(dht: Seq<u8>, symbol: u8, l: nat)
    requires
        is_table(dht),
        code_of(dht, symbol) is Some,
        l < code_of(dht, symbol).unwrap().1,
    ensures
        ({
            let (code, width) = code_of(dht, symbol).unwrap();
            lookup(dht, code / pow2((width - l) as nat), l) is None
        }),
{
    let (code, width) = code_of(dht, symbol).unwrap();
    lemma2_to64();
    law_code_round_trip(dht, symbol, 0, 0);
    lemma_code_width(dht, symbol);
    assert(code * pow2(0) + 0 == code);
    lemma_prefix_from(dht, code, width, l, 1, 0, 17);
}

proof fn lemma_lookup_width(dht: Seq<u8>, bits: nat, len: nat, cw: nat, code: nat, ss: nat)
    ensures
        match lookup_from(dht, bits, len, cw, code, ss) {
            Some((_, w)) => w != 0 ==> cw <= w <= len && w <= 16,
            None => len < 16,
        },
    decreases 17 - cw,
{
    if cw <= 16 && cw <= len {
        lemma_lookup_width(
            dht,
            bits,
            len,
            cw + 1,
            2 * (code + dht[cw as int] as nat),
            ss + dht[cw as int] as nat,
        );
    }
}

/// Sixteen bits always decide; a code that is found has at least two bits and
/// was there.
pub proof fn lemma_lookup(dht: Seq<u8>, bits: nat, len: nat)
    requires
        is_table(dht),
    ensures
        match lookup(dht, bits, len) {
            Some((_, w)) => w != 0 ==> 2 <= w <= len && w <= 16,
            None => len < 16,
        },
{
    lemma_lookup_width(dht, bits, len, 2, 0, 17);
    lemma_lookup_width(dht, bits, len, 1, 0, 17);
}

/// The tables for the component and the kind of coefficient.
#[derive(Debug, Clone, Copy, PartialEq, Eq, Structural)]
pub enum Table {
    DcLuma,
    DcChroma,
    AcLuma,
    AcChroma,
}

/// The bytes of a table.
#[verifier::opaque]
pub open spec fn table_bytes(t: Table) -> Seq<u8> {
    match t {
        Table::DcLuma => STD_DHT00@,
        Table::DcChroma => STD_DHT01@,
        Table::AcLuma => STD_DHT10@,
        Table::AcChroma => STD_DHT11@,
    }
}

/// The standard tables are usable.
pub proof fn lemma_tables(t: Table)
    ensures
        is_table(table_bytes(t)),
{
    reveal(table_bytes);
    lemma2_to64();
    reveal_with_fuel(table_fits, 18);
}

/// A code of a table has at most sixteen bits and fits in its width.
pub proof fn lemma_code_width(dht: Seq<u8>, symbol: u8)
    requires
        is_table(dht),
        code_of(dht, symbol) is Some,
    ensures
        ({
            let (code, width) = code_of(dht, symbol).unwrap();
            1 <= width <= 16 && code < pow2(width)
        }),
{
    lemma_code_bounds(dht, symbol, 1, 0, 17);
}

/// Look a code up in one of the standard tables.
pub fn table_lookup(t: Table, bits: u32, len: u8) -> (r: Option<(u8, u8)>)
    requires
        len <= 32,
    ensures
        r == lookup(table_bytes(t), bits as nat, len as nat),
{
    proof {
        lemma_tables(t);
        reveal(table_bytes);
    }
    match t {
        Table::DcLuma => jpeg_dht_lookup(&STD_DHT00, bits, len),
        Table::DcChroma => jpeg_dht_lookup(&STD_DHT01, bits, len),
        Table::AcLuma => jpeg_dht_lookup(&STD_DHT10, bits, len),
        Table::AcChroma => jpeg_dht_lookup(&STD_DHT11, bits, len),
    }
}

/// The code of a symbol in one of the standard tables.
pub fn table_encode(t: Table, symbol: u8) -> (r: Option<(u16, u8)>)
    ensures
        match code_of(table_bytes(t), symbol) {
            Some((code, width)) => r matches Some((c, w)) && c == code && w == width && width
                <= 16,
            None => r is None,
        },
{
    proof {
        lemma_tables(t);
        if code_of(table_bytes(t), symbol) is Some {
            lemma_code_bounds(table_bytes(t), symbol, 1, 0, 17);
        }
        reveal(table_bytes);
    }
    match t {
        Table::DcLuma => jpeg_dht_encode(&STD_DHT00, symbol),
        Table::DcChroma => jpeg_dht_encode(&STD_DHT01, symbol),
        Table::AcLuma => jpeg_dht_encode(&STD_DHT10, symbol),
        Table::AcChroma => jpeg_dht_encode(&STD_DHT11, symbol),
    }
}

proof fn lemma_lookup_symbol(dht: Seq<u8>, bits: nat, len: nat, cw: nat, code: nat, ss: nat)
    requires
        17 <= ss <= dht.len(),
        table_fits(dht, cw, code, ss),
    ensures
        match lookup_from(dht, bits, len, cw, code, ss) {
            Some((symbol, w)) => w != 0 ==> exists|k: int|
                17 <= k < dht.len() && symbol == #[trigger] dht[k],
            None => true,
        },
    decreases 17 - cw,
{
    if cw <= 16 && cw <= len {
        let n = dht[cw as int] as nat;
        let v = (bits / pow2((len - cw) as nat)) % pow2(cw);
        if code <= v < code + n {
            assert(dht[ss + v - code] == dht[ss + v - code]);
        } else {
            lemma_lookup_symbol(dht, bits, len, cw + 1, 2 * (code + n), ss + n);
        }
    }
}

/// A DC code announces at most eleven bits, an AC code at most ten.
pub proof fn lemma_symbols(t: Table, bits: nat, len: nat)
    ensures
        match lookup(table_bytes(t), bits, len) {
            Some((symbol, w)) => w != 0 ==> if t == Table::DcLuma || t == Table::DcChroma {
                symbol <= 11
            } else {
                symbol % 16 <= 10
            },
            None => true,
        },
{
    lemma_tables(t);
    let dht = table_bytes(t);
    lemma_lookup_symbol(dht, bits, len, 1, 0, 17);
    assert(forall|k: int|
        17 <= k < dht.len() ==> if t == Table::DcLuma || t == Table::DcChroma {
            #[trigger] dht[k] <= 11
        } else {
            dht[k] % 16 <= 10
        }) by {
        reveal(table_bytes);
    }
}

/// The range of a coefficient of at most eleven bits.
pub proof fn lemma_int_range(bits: int, width: nat)
    requires
        width <= 11,
        0 <= bits < pow2(width),
    ensures
        -2047 <= int_value(bits, width) <= 2047,
{
    lemma2_to64();
}

} // verus!
