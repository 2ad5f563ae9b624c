//! PSK31 / PSK63 Varicode decoder.
//!
//! PSK31 (G3PLX, 1998) is a low-baudrate DBPSK keyboard chat mode used widely on
//! HF and occasionally as a satellite beacon mode. PSK63 is the same protocol at
//! twice the baudrate. Both wrap text in a self-synchronising Varicode: a
//! variable-length prefix code where every codeword ends in `"00"` and no
//! internal pair of zeros appears, so a `"00"` run on the wire is always a
//! character boundary.
//!
//! This module is the codec layer only: it consumes a stream of hard bits and
//! produces ASCII text. The bit convention is that of PSK31:
//!
//!   * `1` = no phase change between consecutive symbols.
//!   * `0` = 180 degree phase flip between consecutive symbols.
use vstd::prelude::*;
use vstd::string::{StrSliceExecFns, StringExecFns};
use crate::varicode_table::{
    codeword, get_codeword, law_codewords_are_distinct, law_codewords_hold_no_gap, tidy,
};
use crate::viterbi::lemma_low_bit;

verus! {

/// The binary digits of a number, high digit first.
pub open spec fn code_bits(c: nat) -> Seq<u8>
    decreases c,
{
    if c < 2 {
        seq![c as u8]
    } else {
        code_bits(c / 2).push((c % 2) as u8)
    }
}

/// The number that binary digits form, high digit first.
pub open spec fn bits_value(w: Seq<u8>) -> nat
    decreases w.len(),
{
    if w.len() == 0 {
        0
    } else {
        2 * bits_value(w.drop_last()) + w.last() as nat
    }
}

/// The digits are the codeword of the codepoint.
pub open spec fn spells(w: Seq<u8>, i: int) -> bool {
    0 <= i < 128 && code_bits(codeword(i) as nat) == w
}

/// The character of a codeword.
pub open spec fn char_of(w: Seq<u8>) -> Option<char> {
    if exists|i: int| spells(w, i) {
        Some((choose|i: int| spells(w, i)) as char)
    } else {
        None
    }
}

/// The character of the longest end of `w` that is a codeword.
pub open spec fn longest_end(w: Seq<u8>) -> Option<char>
    decreases w.len(),
{
    if w.len() == 0 {
        None
    } else if char_of(w) is Some {
        char_of(w)
    } else {
        longest_end(w.skip(1))
    }
}

/// The bits end in two zeros.
pub open spec fn at_boundary(b: Seq<u8>) -> bool {
    b.len() >= 2 && b[b.len() - 1] == 0 && b[b.len() - 2] == 0
}

/// The buffer after a bit, and the character it completes. At a boundary the
/// longest end of the buffer that is a codeword gives the character, and a zero
/// stays; else the buffer is kept bounded.
pub open spec fn bit_step(buf: Seq<u8>, bit: u8) -> (Seq<u8>, Seq<char>) {
    let b = buf.push(bit & 1u8);
    if at_boundary(b) {
        (
            seq![0u8],
            match longest_end(b.take(b.len() - 2)) {
                Some(c) => seq![c],
                None => Seq::empty(),
            },
        )
    } else if b.len() > 64 {
        (b.skip(b.len() - 32), Seq::empty())
    } else {
        (b, Seq::empty())
    }
}

/// The buffer after bits, and the text they complete.
pub open spec fn decode_bits(buf: Seq<u8>, bits: Seq<u8>) -> (Seq<u8>, Seq<char>)
    decreases bits.len(),
{
    if bits.len() == 0 {
        (buf, Seq::empty())
    } else {
        let (b, text) = decode_bits(buf, bits.drop_last());
        let (c, more) = bit_step(b, bits.last());
        (c, text + more)
    }
}

/// Zeros and ones without two zeros in a row.
pub open spec fn is_pending(buf: Seq<u8>) -> bool {
    &&& buf.len() <= 64
    &&& forall|i: int| 0 <= i < buf.len() ==> #[trigger] buf[i] == 0 || buf[i] == 1
    &&& forall|i: int| 0 <= i < buf.len() - 1 ==> !(#[trigger] buf[i] == 0 && buf[i + 1] == 0)
}

pub proof fn lemma_code_bits(c: nat)
    requires
        c >= 1,
    ensures
        code_bits(c).len() >= 1,
        code_bits(c)[0] == 1,
        bits_value(code_bits(c)) == c,
        forall|i: int|
            0 <= i < code_bits(c).len() ==> #[trigger] code_bits(c)[i] == 0 || code_bits(c)[i] == 1,
        code_bits(c).last() == c % 2,
    decreases c,
{
    if c >= 2 {
        lemma_code_bits(c / 2);
        assert(code_bits(c).drop_last() =~= code_bits(c / 2));
    } else {
        assert(code_bits(c).drop_last() =~= Seq::empty());
        assert(bits_value(code_bits(c)) == 2 * bits_value(code_bits(c).drop_last()) + 1);
    }
}

proof fn lemma_tidy(c: nat, i: int)
    requires
        c >= 1,
        tidy(c),
        0 <= i < code_bits(c).len() - 1,
    ensures
        !(code_bits(c)[i] == 0 && code_bits(c)[i + 1] == 0),
    decreases c,
{
    lemma_code_bits(c);
    lemma_code_bits(c / 2);
    let n = code_bits(c).len();
    if i < n - 2 {
        lemma_tidy(c / 2, i);
    } else {
        assert(code_bits(c)[i] == code_bits(c / 2).last());
    }
}

proof fn lemma_code_len(c: nat, n: nat)
    requires
        1 <= c,
        n >= 1,
        c < vstd::arithmetic::power2::pow2(n),
    ensures
        code_bits(c).len() <= n,
    decreases n,
{
    vstd::arithmetic::power2::lemma_pow2_unfold(n);
    if c >= 2 {
        if n == 1 {
            vstd::arithmetic::power2::lemma2_to64();
        } else {
            lemma_code_len(c / 2, (n - 1) as nat);
        }
    }
}

/// A codeword has at most ten bits.
proof fn lemma_short(i: int)
    requires
        0 <= i < 128,
    ensures
        1 <= code_bits(codeword(i) as nat).len() <= 10,
{
    law_codewords_hold_no_gap(i);
    vstd::arithmetic::power2::lemma2_to64();
    lemma_code_bits(codeword(i) as nat);
    lemma_code_len(codeword(i) as nat, 10);
}

/// Digits that start with a one are those of their value.
pub proof fn lemma_digits(w: Seq<u8>)
    requires
        w.len() >= 1,
        w[0] == 1,
        forall|i: int| 0 <= i < w.len() ==> #[trigger] w[i] == 0 || w[i] == 1,
    ensures
        bits_value(w) >= 1,
        code_bits(bits_value(w)) == w,
    decreases w.len(),
{
    let v = bits_value(w);
    if w.len() == 1 {
        assert(w.drop_last() =~= Seq::empty());
        assert(bits_value(w.drop_last()) == 0);
        assert(v == 1);
        assert(w =~= seq![1u8]);
    } else {
        lemma_digits(w.drop_last());
        assert(v / 2 == bits_value(w.drop_last()));
        assert(v % 2 == w.last());
        assert(code_bits(v) =~= w);
    }
}

/// A codeword spells one character.
pub proof fn lemma_char_of(i: int)
    requires
        0 <= i < 128,
    ensures
        char_of(code_bits(codeword(i) as nat)) == Some(i as char),
{
    let w = code_bits(codeword(i) as nat);
    assert(spells(w, i));
    let j = choose|j: int| spells(w, j);
    law_codewords_hold_no_gap(i);
    law_codewords_hold_no_gap(j);
    lemma_code_bits(codeword(i) as nat);
    lemma_code_bits(codeword(j) as nat);
    law_codewords_are_distinct(i, j);
}

/// What does not start with a one is no codeword.
proof fn lemma_no_code(w: Seq<u8>)
    requires
        w.len() == 0 || w[0] != 1 || w.len() > 10,
    ensures
        char_of(w) is None,
{
    assert forall|i: int| !spells(w, i) by {
        if spells(w, i) {
            law_codewords_hold_no_gap(i);
            lemma_code_bits(codeword(i) as nat);
            lemma_short(i);
        }
    }
}

/// The codepoint of a number that is a codeword.
fn find_code(value: u16) -> (r: Option<usize>)
    ensures
        match r {
            Some(i) => i < 128 && codeword(i as int) == value,
            None => forall|i: int| 0 <= i < 128 ==> #[trigger] codeword(i) != value,
        },
{
    let mut i: usize = 0;
    while i < 128
        invariant
            i <= 128,
            forall|j: int| 0 <= j < i ==> #[trigger] codeword(j) != value,
        decreases 128 - i,
    {
        if get_codeword(i) == value {
            return Some(i);
        }
        i = i + 1;
    }
    None
}

/// The character that `bits[from..to]` spell.
fn lookup_char(bits: &Vec<u8>, from: usize, to: usize) -> (r: Option<char>)
    requires
        from < to <= bits@.len(),
        forall|i: int| 0 <= i < bits@.len() ==> #[trigger] bits@[i] == 0 || bits@[i] == 1,
    ensures
        r == char_of(bits@.subrange(from as int, to as int)),
{
    let ghost w = bits@.subrange(from as int, to as int);
    if bits[from] != 1 || to - from > 10 {
        proof {
            lemma_no_code(w);
        }
        return None;
    }
    let mut value: u16 = 0;
    let mut k: usize = from;
    assert(bits@.subrange(from as int, from as int) =~= Seq::empty());
    while k < to
        invariant
            from <= k <= to,
            to <= bits@.len(),
            to - from <= 10,
            value == bits_value(bits@.subrange(from as int, k as int)),
            value < (match (k - from) as u8 {
                0u8 => 1,
                1u8 => 2,
                2u8 => 4,
                3u8 => 8,
                4u8 => 16,
                5u8 => 32,
                6u8 => 64,
                7u8 => 128,
                8u8 => 256,
                9u8 => 512,
                _ => 1024int,
            }),
            forall|i: int| 0 <= i < bits@.len() ==> #[trigger] bits@[i] == 0 || bits@[i] == 1,
        decreases to - k,
    {
        let ghost shorter = bits@.subrange(from as int, k as int);
        value = 2 * value + bits[k] as u16;
        k = k + 1;
        assert(bits@.subrange(from as int, k as int).drop_last() =~= shorter);
    }
    proof {
        assert(w[0] == 1);
        lemma_digits(w);
    }
    match find_code(value) {
        Some(i) => {
            proof {
                lemma_char_of(i as int);
            }
            Some((i as u8) as char)
        },
        None => {
            proof {
                assert forall|i: int| !spells(w, i) by {
                    if spells(w, i) {
                        law_codewords_hold_no_gap(i);
                        lemma_code_bits(codeword(i) as nat);
                    }
                }
            }
            None
        },
    }
}

/// Streaming Varicode decoder.
///
/// Feed symbol bits from a DBPSK demodulator and pull out decoded text.
pub struct PskVaricodeDecoder {
    bit_buffer: Vec<u8>,
    output: String,
}

impl Default for PskVaricodeDecoder {
    fn default() -> (d: Self)
        ensures
            d.wf(),
            d.pending() == Seq::<u8>::empty(),
            d.text() == Seq::<char>::empty(),
    {
        Self::new()
    }
}

impl PskVaricodeDecoder {
    /// The bits since the last character boundary.
    pub closed spec fn pending(&self) -> Seq<u8> {
        self.bit_buffer@
    }

    /// The text decoded so far.
    pub closed spec fn text(&self) -> Seq<char> {
        self.output@
    }

    /// The pending bits hold no boundary.
    pub closed spec fn wf(&self) -> bool {
        is_pending(self.bit_buffer@)
    }

    /// Create an empty decoder.
    pub fn new() -> (d: Self)
        ensures
            d.wf(),
            d.pending() == Seq::<u8>::empty(),
            d.text() == Seq::<char>::empty(),
    {
        PskVaricodeDecoder { bit_buffer: Vec::new(), output: String::new() }
    }

    /// Take one bit; the character it completes.
    fn push_bit(&mut self, bit: u8) -> (r: Option<char>)
        requires
            old(self).wf(),
        ensures
            final(self).wf(),
            final(self).output == old(self).output,
            final(self).pending() == bit_step(old(self).pending(), bit).0,
            bit_step(old(self).pending(), bit).1 == match r {
                Some(c) => seq![c],
                None => Seq::empty(),
            },
    {
        let low: u8 = bit & 1u8;
        proof {
            lemma_low_bit(bit);
        }
        self.bit_buffer.push(low);
        let ghost b = self.bit_buffer@;
        let n: usize = self.bit_buffer.len();
        if n >= 2 && self.bit_buffer[n - 1] == 0 && self.bit_buffer[n - 2] == 0 {
            let end: usize = n - 2;
            let ghost w = b.take(end as int);
            let mut from: usize = 0;
            let mut found: Option<char> = None;
            assert(b.subrange(0, end as int) =~= w);
            while from < end && found.is_none()
                invariant
                    self.bit_buffer@ == b,
                    self.output == old(self).output,
                    from <= end,
                    end == b.len() - 2,
                    forall|i: int| 0 <= i < b.len() ==> #[trigger] b[i] == 0 || b[i] == 1,
                    found is None ==> longest_end(w) == longest_end(
                        b.subrange(from as int, end as int),
                    ),
                    found is Some ==> longest_end(w) == found,
                decreases end - from, if found is None {
                    1int
                } else {
                    0int
                },
            {
                let here: Option<char> = lookup_char(&self.bit_buffer, from, end);
                if here.is_some() {
                    found = here;
                } else {
                    let ghost longer = b.subrange(from as int, end as int);
                    from = from + 1;
                    assert(longer.skip(1) =~= b.subrange(from as int, end as int));
                }
            }
            self.bit_buffer = vec![0u8];
            assert(self.bit_buffer@ =~= seq![0u8]);
            found
        } else {
            if n > 64 {
                let mut kept: Vec<u8> = Vec::new();
                let mut k: usize = n - 32;
                while k < n
                    invariant
                        n == b.len(),
                        self.bit_buffer@ == b,
                        self.output == old(self).output,
                        32 <= n - 32 <= k <= n,
                        kept@ == b.subrange(n - 32, k as int),
                    decreases n - k,
                {
                    kept.push(self.bit_buffer[k]);
                    k = k + 1;
                    assert(kept@ =~= b.subrange(n - 32, k as int));
                }
                assert(kept@ =~= b.skip(n - 32));
                self.bit_buffer = kept;
                proof {
                    assert forall|i: int| 0 <= i < kept@.len() - 1 implies !(#[trigger] kept@[i]
                        == 0 && kept@[i + 1] == 0) by {
                        assert(b[n - 32 + i] == kept@[i]);
                    }
                }
            }
            None
        }
    }

    /// Push hard symbol bits (`0` / `1`). Any newly decoded characters are
    /// returned as a fresh [`String`]; the cumulative text is also kept and can
    /// be retrieved with [`Self::full_text`].
    pub fn push_bits(&mut self, bits: &[u8]) -> (fresh: String)
        requires
            old(self).wf(),
        ensures
            final(self).wf(),
            (final(self).pending(), fresh@) == decode_bits(old(self).pending(), bits@),
            final(self).text() == old(self).text() + fresh@,
    {
        let mut fresh: String = String::new();
        let len: usize = bits.len();
        let mut i: usize = 0;
        assert(bits@.take(0) =~= Seq::empty());
        assert(self.text() =~= old(self).text() + fresh@);
        while i < len
            invariant
                len == bits@.len(),
                i <= len,
                self.wf(),
                (self.pending(), fresh@) == decode_bits(
                    old(self).pending(),
                    bits@.take(i as int),
                ),
                self.text() == old(self).text() + fresh@,
            decreases len - i,
        {
            let ghost text = fresh@;
            let ghost shorter = bits@.take(i as int);
            let c: Option<char> = self.push_bit(bits[i]);
            match c {
                Some(ch) => {
                    self.output.push(ch);
                    fresh.push(ch);
                    assert(fresh@ =~= text + seq![ch]);
                },
                None => {
                    assert(fresh@ =~= text + Seq::empty());
                },
            }
            i = i + 1;
            assert(bits@.take(i as int).drop_last() =~= shorter);
            assert(bits@.take(i as int).last() == bits@[i - 1]);
            assert(self.text() =~= old(self).text() + fresh@);
        }
        assert(bits@.take(len as int) =~= bits@);
        fresh
    }

    /// Cumulative decoded text.
    pub fn full_text(&self) -> (text: &str)
        ensures
            text@ == self.text(),
    {
        self.output.as_str()
    }
}

/// The bits of a character: its codeword and two zeros; nothing for a character
/// that has no codeword.
pub open spec fn char_bits(c: char) -> Seq<u8> {
    if (c as u32) < 128 {
        code_bits(codeword(c as int) as nat) + seq![0u8, 0u8]
    } else {
        Seq::empty()
    }
}

/// The bits of a text.
pub open spec fn text_bits(text: Seq<char>) -> Seq<u8>
    decreases text.len(),
{
    if text.len() == 0 {
        Seq::empty()
    } else {
        text_bits(text.drop_last()) + char_bits(text.last())
    }
}

/// Append the binary digits of a number below 1024.
fn push_code(bits: &mut Vec<u8>, code: u16)
    requires
        code >= 1,
    ensures
        final(bits)@ == old(bits)@ + code_bits(code as nat),
    decreases code,
{
    if code < 2 {
        bits.push(code as u8);
        assert(bits@ =~= old(bits)@ + code_bits(code as nat));
    } else {
        push_code(bits, code / 2);
        let ghost before = bits@;
        bits.push((code % 2) as u8);
        assert(bits@ =~= old(bits)@ + code_bits(code as nat));
    }
}

/// Encode an ASCII string to its raw Varicode bit stream. Each character is
/// followed by the `"00"` separator; transmitters insert further idle zeros as
/// desired.
pub fn varicode_encode_bits(text: &str) -> (bits: Vec<u8>)
    ensures
        bits@ == text_bits(text@),
{
    let mut bits: Vec<u8> = Vec::new();
    let n: usize = text.unicode_len();
    let mut i: usize = 0;
    assert(text@.take(0) =~= Seq::empty());
    while i < n
        invariant
            n == text@.len(),
            i <= n,
            bits@ == text_bits(text@.take(i as int)),
        decreases n - i,
    {
        let c: char = text.get_char(i);
        let ghost before = bits@;
        let ghost shorter = text@.take(i as int);
        if (c as u32) < 128 {
            proof {
                law_codewords_hold_no_gap(c as int);
            }
            push_code(&mut bits, get_codeword(c as usize));
            bits.push(0);
            bits.push(0);
        }
        assert(bits@ =~= before + char_bits(c));
        i = i + 1;
        assert(text@.take(i as int).drop_last() =~= shorter);
        assert(text@.take(i as int).last() == c);
    }
    assert(text@.take(n as int) =~= text@);
    bits
}

/// Bits that come in two pieces decode as bits that come at once.
pub proof fn law_chunks_do_not_matter(buf: Seq<u8>, a: Seq<u8>, b: Seq<u8>)
    ensures
        decode_bits(buf, a + b).0 == decode_bits(decode_bits(buf, a).0, b).0,
        decode_bits(buf, a + b).1 == decode_bits(buf, a).1 + decode_bits(
            decode_bits(buf, a).0,
            b,
        ).1,
    decreases b.len(),
{
    if b.len() == 0 {
        assert(a + b =~= a);
        assert(decode_bits(buf, a).1 + Seq::<char>::empty() =~= decode_bits(buf, a).1);
    } else {
        law_chunks_do_not_matter(buf, a, b.drop_last());
        assert((a + b).drop_last() =~= a + b.drop_last());
        assert((a + b).last() == b.last());
        let mid = decode_bits(buf, a + b.drop_last());
        let last = bit_step(mid.0, b.last());
        assert(decode_bits(buf, a + b).1 =~= decode_bits(buf, a).1 + decode_bits(
            decode_bits(buf, a).0,
            b,
        ).1);
    }
}

/// Bits that reach no boundary and do not fill the buffer stay in it.
pub proof fn lemma_collect(buf: Seq<u8>, w: Seq<u8>)
    requires
        is_pending(buf + w),
    ensures
        decode_bits(buf, w) == (buf + w, Seq::<char>::empty()),
    decreases w.len(),
{
    if w.len() == 0 {
        assert(buf + w =~= buf);
    } else {
        let shorter = w.drop_last();
        assert forall|i: int| 0 <= i < (buf + shorter).len() implies #[trigger] (buf + shorter)[i]
            == (buf + w)[i] by {}
        assert(is_pending(buf + shorter)) by {
            assert forall|i: int| 0 <= i < (buf + shorter).len() - 1 implies !(#[trigger] (buf
                + shorter)[i] == 0 && (buf + shorter)[i + 1] == 0) by {
                assert(!((buf + w)[i] == 0 && (buf + w)[i + 1] == 0));
            }
        }
        lemma_collect(buf, shorter);
        let last = w.last();
        let n = (buf + w).len();
        assert((buf + w)[n - 1] == last);
        assert(last == 0 || last == 1);
        lemma_low_bit(last);
        let b = (buf + shorter).push(last);
        assert(b =~= buf + w);
        if n >= 2 {
            assert(!((buf + w)[n - 2] == 0 && (buf + w)[n - 1] == 0));
        }
        assert(!at_boundary(b));
        assert(Seq::<char>::empty() + Seq::<char>::empty() =~= Seq::<char>::empty());
    }
}

/// A decoder at a character boundary.
pub open spec fn is_idle(buf: Seq<u8>) -> bool {
    buf == Seq::<u8>::empty() || buf == seq![0u8]
}

proof fn lemma_one_char(buf: Seq<u8>, c: char)
    requires
        is_idle(buf),
        (c as u32) < 128,
    ensures
        decode_bits(buf, char_bits(c)) == (seq![0u8], seq![c]),
{
    let i = c as int;
    let code = codeword(i) as nat;
    let w = code_bits(code);
    law_codewords_hold_no_gap(i);
    lemma_code_bits(code);
    lemma_short(i);
    lemma_char_of(i);
    assert(is_pending(buf + w)) by {
        assert forall|k: int| 0 <= k < (buf + w).len() - 1 implies !(#[trigger] (buf + w)[k] == 0
            && (buf + w)[k + 1] == 0) by {
            if k >= buf.len() {
                lemma_tidy(code, k - buf.len());
            }
        }
    }
    lemma_collect(buf, w);
    let z = seq![0u8];
    lemma_low_bit(0);
    let b1 = (buf + w).push(0u8);
    assert((buf + w).last() == 1);
    assert(!at_boundary(b1));
    assert(bit_step(buf + w, 0) == (b1, Seq::<char>::empty()));
    let b2 = b1.push(0u8);
    assert(at_boundary(b2));
    assert(b2.take(b2.len() - 2) =~= buf + w);
    if buf.len() == 0 {
        assert(buf + w =~= w);
    } else {
        assert((buf + w)[0] == 0);
        lemma_no_code(buf + w);
        assert((buf + w).skip(1) =~= w);
    }
    assert(longest_end(w) == Some(c));
    assert(longest_end(buf + w) == Some(c));
    assert(bit_step(b1, 0) == (seq![0u8], seq![c]));
    let all = char_bits(c);
    assert(all.drop_last() =~= w.push(0u8));
    assert(w.push(0u8).drop_last() =~= w);
    assert(decode_bits(buf, w.push(0u8)) == (b1, Seq::<char>::empty())) by {
        assert(Seq::<char>::empty() + Seq::<char>::empty() =~= Seq::<char>::empty());
    }
    assert(Seq::<char>::empty() + seq![c] =~= seq![c]);
}

/// A text of ASCII characters survives encoding and decoding, from any character
/// boundary.
pub proof fn law_text_round_trip(buf: Seq<u8>, text: Seq<char>)
    requires
        is_idle(buf),
        forall|i: int| 0 <= i < text.len() ==> (#[trigger] text[i] as u32) < 128,
    ensures
        decode_bits(buf, text_bits(text)).1 == text,
        is_idle(decode_bits(buf, text_bits(text)).0),
    decreases text.len(),
{
    if text.len() > 0 {
        let shorter = text.drop_last();
        law_text_round_trip(buf, shorter);
        let mid = decode_bits(buf, text_bits(shorter)).0;
        law_chunks_do_not_matter(buf, text_bits(shorter), char_bits(text.last()));
        lemma_one_char(mid, text.last());
        assert(shorter + seq![text.last()] =~= text);
    }
}

/// Two zeros bring the decoder to a character boundary, whatever came before.
pub proof fn law_two_zeros_resync(buf: Seq<u8>, a: u8, b: u8)
    requires
        is_pending(buf),
        a & 1u8 == 0,
        b & 1u8 == 0,
    ensures
        decode_bits(buf, seq![a, b]).0 == seq![0u8],
{
    let bits = seq![a, b];
    assert(bits.drop_last() =~= seq![a]);
    assert(seq![a].drop_last() =~= Seq::<u8>::empty());
    let one = bit_step(buf, a).0;
    assert(decode_bits(buf, Seq::<u8>::empty()).0 == buf);
    assert(decode_bits(buf, seq![a]).0 == one);
    assert(one.last() == 0);
    let two = one.push(0u8);
    assert(at_boundary(two));
}

/// A text after any noise and an idle gap of two zeros comes through.
pub proof fn law_text_after_noise(noise: Seq<u8>, text: Seq<char>)
    requires
        forall|i: int| 0 <= i < text.len() ==> (#[trigger] text[i] as u32) < 128,
    ensures
        ({
            let lead = noise + seq![0u8, 0u8];
            decode_bits(Seq::empty(), lead + text_bits(text)).1 == decode_bits(
                Seq::empty(),
                lead,
            ).1 + text
        }),
{
    let lead = noise + seq![0u8, 0u8];
    let e = Seq::<u8>::empty();
    lemma_stays_pending(e, noise);
    lemma_low_bit(0);
    law_two_zeros_resync(decode_bits(e, noise).0, 0, 0);
    law_chunks_do_not_matter(e, noise, seq![0u8, 0u8]);
    law_chunks_do_not_matter(e, lead, text_bits(text));
    law_text_round_trip(decode_bits(e, lead).0, text);
}

proof fn lemma_stays_pending(buf: Seq<u8>, bits: Seq<u8>)
    requires
        is_pending(buf),
    ensures
        is_pending(decode_bits(buf, bits).0),
    decreases bits.len(),
{
    if bits.len() > 0 {
        lemma_stays_pending(buf, bits.drop_last());
        let mid = decode_bits(buf, bits.drop_last()).0;
        let bit = bits.last();
        lemma_low_bit(bit);
        let b = mid.push(bit & 1u8);
        if !at_boundary(b) {
            let r = bit_step(mid, bit).0;
            let d = b.len() - r.len();
            assert forall|i: int| 0 <= i < r.len() - 1 implies !(#[trigger] r[i] == 0 && r[i + 1]
                == 0) by {
                assert(r[i] == b[i + d] && r[i + 1] == b[i + d + 1]);
                if i + d + 1 < mid.len() {
                    assert(!(mid[i + d] == 0 && mid[i + d + 1] == 0));
                }
            }
        }
    }
}

} // verus!
