//! A bit writer for JPEG entropy-coded data.
//!
//! Bits are collected high bit first in a 32-bit register. Whenever the register
//! holds eight bits a byte leaves it; a byte 0xFF is followed by a stuffed zero
//! byte, so that the data never shows a marker.
use vstd::prelude::*;
use vstd::arithmetic::div_mod::{lemma_fundamental_div_mod, lemma_mod_bound, lemma_small_mod};
use vstd::arithmetic::power2::{
    lemma2_to64, lemma_pow2_adds, lemma_pow2_pos, lemma_pow2_strictly_increases, pow2,
};
use crate::jpeg_huffman::two_pow;

verus! {

/// What a writer holds: the bytes written and the `len` pending bits.
#[verifier::ext_equal]
pub struct SinkState {
    pub out: Seq<u8>,
    pub bits: nat,
    pub len: nat,
}

/// A byte of entropy-coded data, with its stuffed zero.
pub open spec fn stuffed(b: u8) -> Seq<u8> {
    if b == 0xFF {
        seq![0xFFu8, 0u8]
    } else {
        seq![b]
    }
}

/// Let whole bytes leave a register that holds the `len` low bits of `bits`.
pub open spec fn drained(out: Seq<u8>, bits: nat, len: nat) -> SinkState
    decreases len,
{
    if len < 8 {
        SinkState { out, bits, len }
    } else {
        let rest = pow2((len - 8) as nat);
        drained(out + stuffed((bits / rest) as u8), bits % rest, (len - 8) as nat)
    }
}

/// Write the `k` low bits of `v`. The register keeps 32 bits: pending bits that
/// are pushed further read as zeros.
pub open spec fn put(s: SinkState, v: nat, k: nat) -> SinkState {
    if k == 0 {
        s
    } else {
        drained(s.out, (s.bits * pow2(k) + v % pow2(k)) % 0x1_0000_0000, s.len + k)
    }
}

/// Fill the pending byte with ones.
pub open spec fn synced(s: SinkState) -> SinkState {
    if s.len % 8 == 0 {
        s
    } else {
        put(s, 0xFF, (8 - s.len % 8) as nat)
    }
}

/// Every 0xFF is followed by a zero.
pub open spec fn is_stuffed(out: Seq<u8>) -> bool {
    forall|i: int|
        0 <= i < out.len() && out[i] == 0xFF ==> i + 1 < out.len() && #[trigger] out[i + 1] == 0
}

proof fn lemma_stuffed_push(out: Seq<u8>, b: u8)
    requires
        is_stuffed(out),
    ensures
        is_stuffed(out + stuffed(b)),
{
    let new = out + stuffed(b);
    assert forall|i: int| 0 <= i < new.len() && new[i] == 0xFF implies i + 1 < new.len()
        && #[trigger] new[i + 1] == 0 by {
        if i < out.len() {
            assert(out[i] == 0xFF);
            assert(out[i + 1] == 0);
        }
    }
}

proof fn lemma_drained(out: Seq<u8>, bits: nat, len: nat)
    ensures
        drained(out, bits, len).len < 8,
        drained(out, bits, len).len == len % 8,
        is_stuffed(out) ==> is_stuffed(drained(out, bits, len).out),
        bits < pow2(len) ==> drained(out, bits, len).bits < pow2(drained(out, bits, len).len),
    decreases len,
{
    if len >= 8 {
        let rest = pow2((len - 8) as nat);
        lemma_pow2_pos((len - 8) as nat);
        lemma_mod_bound(bits as int, rest as int);
        if is_stuffed(out) {
            lemma_stuffed_push(out, (bits / rest) as u8);
        }
        lemma_drained(out + stuffed((bits / rest) as u8), bits % rest, (len - 8) as nat);
    }
}

/// Whatever is written, the data stays stuffed and less than a byte is pending.
pub proof fn law_stuffing(s: SinkState, v: nat, k: nat)
    requires
        is_stuffed(s.out),
        s.len < 8,
    ensures
        is_stuffed(put(s, v, k).out),
        put(s, v, k).len < 8,
{
    if k != 0 {
        lemma_drained(
            s.out,
            (s.bits * pow2(k) + v % pow2(k)) % 0x1_0000_0000,
            s.len + k,
        );
    }
}

/// The bytes that a reader sees: the zero behind every 0xFF is skipped.
pub open spec fn unstuffed(out: Seq<u8>) -> Seq<u8>
    decreases out.len(),
{
    if out.len() == 0 {
        Seq::empty()
    } else if out.len() >= 2 && out[out.len() - 2] == 0xFF {
        unstuffed(out.take(out.len() - 2)).push(0xFF)
    } else {
        unstuffed(out.drop_last()).push(out.last())
    }
}

/// Bytes as one number, high byte first.
pub open spec fn number_of(bytes: Seq<u8>) -> nat
    decreases bytes.len(),
{
    if bytes.len() == 0 {
        0
    } else {
        256 * number_of(bytes.drop_last()) + bytes.last() as nat
    }
}

/// The bits that a reader will see, pending ones too: as one number, high bit first,
/// and how many they are.
pub open spec fn seen(s: SinkState) -> (nat, nat) {
    let bytes = unstuffed(s.out);
    (number_of(bytes) * pow2(s.len) + s.bits, 8 * bytes.len() + s.len)
}

proof fn lemma_unstuffed_push(out: Seq<u8>, b: u8)
    requires
        is_stuffed(out),
    ensures
        unstuffed(out + stuffed(b)) == unstuffed(out).push(b),
{
    let new = out + stuffed(b);
    if b == 0xFF {
        assert(new.take(new.len() - 2) =~= out);
    } else {
        assert(new.drop_last() =~= out);
        if out.len() > 0 {
            let i = out.len() - 1;
            assert(out[i] != 0xFF) by {
                if out[i] == 0xFF {
                    assert(out[i + 1] == 0);
                }
            }
        }
    }
}

proof fn lemma_drained_seen(out: Seq<u8>, bits: nat, len: nat)
    requires
        is_stuffed(out),
        bits < pow2(len),
    ensures
        seen(drained(out, bits, len)) == (
            number_of(unstuffed(out)) * pow2(len) + bits,
            8 * unstuffed(out).len() + len,
        ),
    decreases len,
{
    if len >= 8 {
        let k = (len - 8) as nat;
        let rest = pow2(k);
        let q = bits / rest;
        let r = bits % rest;
        lemma_pow2_pos(k);
        lemma2_to64();
        lemma_pow2_adds(k, 8);
        lemma_mod_bound(bits as int, rest as int);
        lemma_fundamental_div_mod(bits as int, rest as int);
        assert(q < 256) by (nonlinear_arith)
            requires
                bits == rest * q + r,
                r >= 0,
                bits < rest * 256,
                rest > 0,
        ;
        let b = q as u8;
        let n = number_of(unstuffed(out));
        lemma_stuffed_push(out, b);
        lemma_unstuffed_push(out, b);
        lemma_drained_seen(out + stuffed(b), r, k);
        assert(unstuffed(out).push(b).drop_last() =~= unstuffed(out));
        assert((256 * n + q) * rest + r == n * (rest * 256) + bits) by (nonlinear_arith)
            requires
                bits == rest * q + r,
        ;
    }
}

/// What is written is what a reader sees behind everything written before: stuffing
/// and the boundaries of bytes leave no trace. The register holds 32 bits.
pub proof fn law_written_bits_are_appended(s: SinkState, v: nat, k: nat)
    requires
        is_stuffed(s.out),
        s.bits < pow2(s.len),
        s.len + k <= 32,
    ensures
        seen(put(s, v, k)) == (seen(s).0 * pow2(k) + v % pow2(k), seen(s).1 + k),
        put(s, v, k).bits < pow2(put(s, v, k).len),
        is_stuffed(put(s, v, k).out),
{
    lemma2_to64();
    if k == 0 {
        assert(v % pow2(0) == 0);
    } else {
        let low = v % pow2(k);
        let wide = s.bits * pow2(k) + low;
        let n = number_of(unstuffed(s.out));
        lemma_pow2_pos(k);
        lemma_mod_bound(v as int, pow2(k) as int);
        lemma_pow2_adds(s.len, k);
        assert(wide < pow2(s.len) * pow2(k)) by (nonlinear_arith)
            requires
                wide == s.bits * pow2(k) + low,
                low < pow2(k),
                s.bits + 1 <= pow2(s.len),
        ;
        lemma_pow2_at_most(s.len + k, 32);
        lemma_small_mod(wide, 0x1_0000_0000);
        lemma_drained_seen(s.out, wide, s.len + k);
        lemma_drained(s.out, wide, s.len + k);
        assert(n * (pow2(s.len) * pow2(k)) + wide == (n * pow2(s.len) + s.bits) * pow2(k) + low)
            by (nonlinear_arith)
            requires
                wide == s.bits * pow2(k) + low,
        ;
    }
}

proof fn lemma_pow2_at_most(k: nat, n: nat)
    requires
        k <= n,
    ensures
        pow2(k) <= pow2(n),
{
    if k < n {
        lemma_pow2_strictly_increases(k, n);
    }
}

/// A bit writer.
pub struct BitSink {
    out: Vec<u8>,
    bits: u32,
    len: u32,
}

impl BitSink {
    /// The state of the writer.
    pub closed spec fn view(&self) -> SinkState {
        SinkState { out: self.out@, bits: self.bits as nat, len: self.len as nat }
    }

    /// Less than a byte is pending and the data is stuffed.
    pub closed spec fn wf(&self) -> bool {
        &&& self.len < 8
        &&& self.bits < pow2(self.len as nat)
        &&& is_stuffed(self.out@)
    }

    /// An empty writer.
    pub fn new() -> (s: Self)
        ensures
            s.wf(),
            s@ == (SinkState { out: Seq::empty(), bits: 0, len: 0 }),
    {
        proof {
            lemma2_to64();
        }
        let s = BitSink { out: Vec::new(), bits: 0, len: 0 };
        assert(s@.out =~= Seq::empty());
        s
    }

    /// Write the `length` low bits of `bits`, high bit first.
    pub fn outbits(&mut self, bits: u32, length: u8)
        requires
            old(self).wf(),
            length < 32,
        ensures
            final(self).wf(),
            final(self)@ == put(old(self)@, bits as nat, length as nat),
    {
        if length == 0 {
            return;
        }
        let p: u64 = two_pow(length as u32);
        let ghost total = (self.len + length) as nat;
        proof {
            lemma2_to64();
            assert(p <= 0x8000_0000) by {
                lemma_small_pow2(length as nat);
            }
            assert(self.bits <= 0x7f) by {
                lemma_pending(self.len as nat);
            }
            assert(0 <= self.bits * p <= 0x7f * 0x8000_0000) by (nonlinear_arith)
                requires
                    0 <= self.bits <= 0x7f,
                    0 <= p <= 0x8000_0000,
            ;
            lemma_pow2_adds(self.len as nat, length as nat);
        }
        let wide: u64 = self.bits as u64 * p + bits as u64 % p;
        let mut acc: u64 = wide % 0x1_0000_0000;
        proof {
            assert(wide < pow2(self.len as nat) * p) by (nonlinear_arith)
                requires
                    wide == self.bits * p + bits as u64 % p,
                    (bits as u64 % p) < p,
                    self.bits + 1 <= pow2(self.len as nat),
            ;
            assert(acc <= wide);
        }
        let mut len: u32 = self.len + length as u32;
        let ghost goal = put(old(self)@, bits as nat, length as nat);
        while len >= 8
            invariant
                len < 39,
                acc < pow2(len as nat),
                is_stuffed(self.out@),
                goal == drained(self.out@, acc as nat, len as nat),
            decreases len,
        {
            let rest: u64 = two_pow(len - 8);
            proof {
                lemma2_to64();
                lemma_pow2_adds((len - 8) as nat, 8);
                lemma_fundamental_div_mod(acc as int, rest as int);
                assert(acc / rest < 256) by (nonlinear_arith)
                    requires
                        acc == rest * (acc / rest) + acc % rest,
                        acc % rest >= 0,
                        acc < rest * 256,
                        rest > 0,
                ;
            }
            let b: u8 = (acc / rest) as u8;
            proof {
                lemma_stuffed_push(self.out@, b);
            }
            let ghost before = self.out@;
            self.out.push(b);
            if b == 0xFF {
                self.out.push(0);
            }
            assert(self.out@ =~= before + stuffed(b));
            acc = acc % rest;
            len = len - 8;
        }
        proof {
            lemma_pending(len as nat);
        }
        self.bits = acc as u32;
        self.len = len;
    }

    /// Fill the pending byte with ones.
    pub fn outbits_sync(&mut self)
        requires
            old(self).wf(),
        ensures
            final(self).wf(),
            final(self)@ == synced(old(self)@),
            final(self)@.len == 0,
    {
        let r: u32 = self.len % 8;
        if r != 0 {
            proof {
                lemma_drained(
                    self@.out,
                    (self@.bits * pow2((8 - r) as nat) + 0xFFnat % pow2((8 - r) as nat))
                        % 0x1_0000_0000,
                    self@.len + (8 - r) as nat,
                );
            }
            self.outbits(0xFF, (8 - r) as u8);
        }
    }

    /// The bytes written.
    pub fn into_bytes(self) -> (out: Vec<u8>)
        requires
            self.wf(),
        ensures
            out@ == self@.out,
            is_stuffed(out@),
    {
        self.out
    }
}

proof fn lemma_small_pow2(k: nat)
    requires
        k < 32,
    ensures
        pow2(k) <= 0x8000_0000,
{
    lemma2_to64();
}

proof fn lemma_pending(k: nat)
    requires
        k < 8,
    ensures
        pow2(k) <= 0x80,
{
    lemma2_to64();
}

} // verus!
