//! What the bits of a PSK31 text look like, and what is made of bits that are no text.
use vstd::prelude::*;
use crate::psk_varicode::{
    at_boundary, bit_step, bits_value, char_bits, char_of, code_bits, decode_bits, is_pending,
    lemma_char_of, lemma_code_bits, lemma_collect, lemma_digits, longest_end, spells, text_bits,
};
use crate::varicode_table::{codeword, law_codewords_hold_no_gap};
use crate::viterbi::lemma_low_bit;

verus! {

/// The number that binary digits form, the first weighing most.
pub open spec fn in_binary(w: Seq<u8>) -> int
    decreases w.len(),
{
    if w.len() == 0 {
        0
    } else {
        2 * in_binary(w.drop_last()) + w.last()
    }
}

/// The digits are the codeword of the character, without zeros before it.
pub open spec fn is_sent_as(c: char, w: Seq<u8>) -> bool {
    &&& (c as u32) < 128
    &&& w.len() >= 1
    &&& w[0] == 1
    &&& forall|i: int| 0 <= i < w.len() ==> #[trigger] w[i] == 0 || w[i] == 1
    &&& in_binary(w) == codeword(c as int)
}

proof fn lemma_in_binary(w: Seq<u8>)
    ensures
        in_binary(w) == bits_value(w),
    decreases w.len(),
{
    if w.len() > 0 {
        lemma_in_binary(w.drop_last());
    }
}

proof fn lemma_sent(c: char, w: Seq<u8>)
    ensures
        is_sent_as(c, w) <==> char_of(w) == Some(c),
{
    lemma_in_binary(w);
    if is_sent_as(c, w) {
        lemma_digits(w);
        lemma_char_of(c as int);
    }
    if char_of(w) == Some(c) {
        let i = choose|i: int| spells(w, i);
        law_codewords_hold_no_gap(i);
        lemma_code_bits(codeword(i) as nat);
        assert(i as char == c);
    }
}

/// The bits of a text are those of its parts, one after the other.
pub proof fn law_texts_are_joined(a: Seq<char>, b: Seq<char>)
    ensures
        text_bits(a + b) == text_bits(a) + text_bits(b),
    decreases b.len(),
{
    if b.len() == 0 {
        assert(a + b =~= a);
        assert(text_bits(a) + text_bits(b) =~= text_bits(a));
    } else {
        law_texts_are_joined(a, b.drop_last());
        assert((a + b).drop_last() =~= a + b.drop_last());
        assert(text_bits(a) + (text_bits(b.drop_last()) + char_bits(b.last())) =~= (text_bits(a)
            + text_bits(b.drop_last())) + char_bits(b.last()));
    }
}

/// A character is sent as its codeword and two zeros; one beyond ASCII is left out.
pub proof fn law_character_bits(c: char)
    ensures
        (c as u32) >= 128 ==> text_bits(seq![c]) == Seq::<u8>::empty(),
        (c as u32) < 128 ==> exists|w: Seq<u8>|
            #[trigger] is_sent_as(c, w) && text_bits(seq![c]) == w + seq![0u8, 0u8],
{
    assert(seq![c].drop_last() =~= Seq::<char>::empty());
    assert(text_bits(Seq::<char>::empty()) == Seq::<u8>::empty());
    assert(Seq::<u8>::empty() + char_bits(c) =~= char_bits(c));
    if (c as u32) < 128 {
        let w = code_bits(codeword(c as int) as nat);
        law_codewords_hold_no_gap(c as int);
        lemma_code_bits(codeword(c as int) as nat);
        lemma_in_binary(w);
        assert(is_sent_as(c, w));
    }
}

/// The bits give the character by their end from `k` on, and no longer end of them is
/// a codeword.
pub open spec fn ends_in(w: Seq<u8>, k: int, c: char) -> bool {
    &&& 0 <= k < w.len()
    &&& is_sent_as(c, w.skip(k))
    &&& forall|j: int, d: char| 0 <= j < k ==> !#[trigger] is_sent_as(d, w.skip(j))
}

proof fn lemma_longest_end(w: Seq<u8>)
    ensures
        match longest_end(w) {
            Some(c) => exists|k: int| #[trigger] ends_in(w, k, c),
            None => forall|j: int, d: char|
                0 <= j < w.len() ==> !#[trigger] is_sent_as(d, w.skip(j)),
        },
    decreases w.len(),
{
    if w.len() > 0 {
        assert(w.skip(0) =~= w);
        match char_of(w) {
            Some(c) => {
                lemma_sent(c, w);
                assert(ends_in(w, 0, c));
            },
            None => {
                let rest = w.skip(1);
                lemma_longest_end(rest);
                assert forall|d: char| !#[trigger] is_sent_as(d, w) by {
                    lemma_sent(d, w);
                }
                assert forall|j: int| 1 <= j < w.len() implies #[trigger] w.skip(j) == rest.skip(
                    j - 1,
                ) by {
                    assert(w.skip(j) =~= rest.skip(j - 1));
                }
                match longest_end(w) {
                    Some(c) => {
                        let k = choose|k: int| #[trigger] ends_in(rest, k, c);
                        assert(w.skip(k + 1) == rest.skip(k));
                        assert forall|j: int, d: char| 0 <= j < k + 1 implies !#[trigger] is_sent_as(
                            d,
                            w.skip(j),
                        ) by {
                            if j > 0 {
                                assert(w.skip(j) == rest.skip(j - 1));
                                assert(!is_sent_as(d, rest.skip(j - 1)));
                            }
                        }
                        assert(ends_in(w, k + 1, c));
                    },
                    None => {
                        assert forall|j: int, d: char| 0 <= j < w.len() implies !#[trigger] is_sent_as(
                            d,
                            w.skip(j),
                        ) by {
                            if j > 0 {
                                assert(w.skip(j) == rest.skip(j - 1));
                                assert(!is_sent_as(d, rest.skip(j - 1)));
                            }
                        }
                    },
                }
            },
        }
    }
}

/// Bits without two zeros in a row give nothing before two zeros follow them. Then
/// the longest end of them that is a codeword gives its character, and if there is none,
/// nothing comes out.
pub proof fn law_longest_end_is_taken(w: Seq<u8>)
    requires
        w.len() <= 62,
        w.len() == 0 || w.last() == 1,
        forall|i: int| 0 <= i < w.len() ==> #[trigger] w[i] == 0 || w[i] == 1,
        forall|i: int| 0 <= i < w.len() - 1 ==> !(#[trigger] w[i] == 0 && w[i + 1] == 0),
    ensures
        decode_bits(Seq::empty(), w).1 == Seq::<char>::empty(),
        decode_bits(Seq::empty(), w.push(0)).1 == Seq::<char>::empty(),
        ({
            let text = decode_bits(Seq::empty(), w.push(0).push(0)).1;
            ||| exists|k: int, c: char| #[trigger] ends_in(w, k, c) && text == seq![c]
            ||| text == Seq::<char>::empty() && forall|j: int, d: char|
                0 <= j < w.len() ==> !#[trigger] is_sent_as(d, w.skip(j))
        }),
{
    let e = Seq::<u8>::empty();
    let one = w.push(0u8);
    assert(e + w =~= w);
    assert(e + one =~= one);
    lemma_collect(e, w);
    assert forall|i: int| 0 <= i < one.len() - 1 implies !(#[trigger] one[i] == 0 && one[i + 1]
        == 0) by {
        assert(one[i] == w[i]);
        if i + 1 < w.len() {
            assert(w[i + 1] == one[i + 1]);
        }
    }
    lemma_collect(e, one);
    let two = one.push(0u8);
    assert(two.drop_last() =~= one);
    lemma_low_bit(0);
    assert(at_boundary(two));
    assert(two.take(two.len() - 2) =~= w);
    assert(bit_step(one, 0).1 == match longest_end(w) {
        Some(c) => seq![c],
        None => Seq::empty(),
    });
    assert(Seq::<char>::empty() + bit_step(one, 0).1 =~= bit_step(one, 0).1);
    assert(decode_bits(e, two).1 == bit_step(one, 0).1);
    lemma_longest_end(w);
    match longest_end(w) {
        Some(c) => {
            let k = choose|k: int| #[trigger] ends_in(w, k, c);
            assert(ends_in(w, k, c));
        },
        None => {},
    }
}

/// Of bits that go on without two zeros only the last 32 are kept, when there would be
/// more than 64; up to there all are.
pub proof fn law_pending_bits_are_bounded(buf: Seq<u8>, bit: u8)
    requires
        is_pending(buf),
        bit == 0 || bit == 1,
        bit == 1 || buf.len() == 0 || buf.last() == 1,
    ensures
        decode_bits(buf, seq![bit]).1 == Seq::<char>::empty(),
        buf.len() < 64 ==> decode_bits(buf, seq![bit]).0 == buf.push(bit),
        buf.len() == 64 ==> decode_bits(buf, seq![bit]).0 == buf.push(bit).skip(33),
{
    lemma_low_bit(bit);
    assert(seq![bit].drop_last() =~= Seq::<u8>::empty());
    assert(decode_bits(buf, Seq::<u8>::empty()) == (buf, Seq::<char>::empty()));
    let b = buf.push(bit);
    assert(!at_boundary(b));
    assert(Seq::<char>::empty() + Seq::<char>::empty() =~= Seq::<char>::empty());
}

} // verus!
