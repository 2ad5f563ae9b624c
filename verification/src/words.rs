//! Searching, trimming and padding text.
use vstd::prelude::*;
use vstd::string::StringExecFns;
use crate::text::{decimal, decimal_string, hex_char_upper};

verus! {

/// The characters with the Unicode property White_Space.
pub open spec fn is_space(c: char) -> bool {
    ||| '\u{9}' <= c <= '\u{d}'
    ||| c == '\u{20}'
    ||| c == '\u{85}'
    ||| c == '\u{a0}'
    ||| c == '\u{1680}'
    ||| '\u{2000}' <= c <= '\u{200a}'
    ||| c == '\u{2028}'
    ||| c == '\u{2029}'
    ||| c == '\u{202f}'
    ||| c == '\u{205f}'
    ||| c == '\u{3000}'
}

/// Whether a character is white space.
pub fn white_space(c: char) -> (r: bool)
    ensures
        r == is_space(c),
{
    ('\u{9}' <= c && c <= '\u{d}') || c == '\u{20}' || c == '\u{85}' || c == '\u{a0}' || c
        == '\u{1680}' || ('\u{2000}' <= c && c <= '\u{200a}') || c == '\u{2028}' || c == '\u{2029}'
        || c == '\u{202f}' || c == '\u{205f}' || c == '\u{3000}'
}

/// An ASCII letter in lower case, any other character as it is.
pub open spec fn lower_char(c: char) -> char {
    if 'A' <= c <= 'Z' {
        (c as u32 + 32) as char
    } else {
        c
    }
}

/// An ASCII letter in lower case, any other character as it is.
pub fn lower(c: char) -> (r: char)
    ensures
        r == lower_char(c),
{
    if 'A' <= c && c <= 'Z' {
        ((c as u32 + 32) as u8) as char
    } else {
        c
    }
}

/// The characters of a text.
pub fn chars_of(text: &str) -> (chars: Vec<char>)
    ensures
        chars@ == text@,
{
    broadcast use vstd::string::axiom_spec_iter;

    let mut chars: Vec<char> = Vec::new();
    for c in it: text.chars()
        invariant
            chars@ == it.seq().take(it.index() as int),
            it.seq() == text@,
    {
        chars.push(c);
        assert(chars@ =~= it.seq().take(it.index() + 1));
    }
    assert(chars@ =~= text@);
    chars
}

/// The text made of some characters.
pub fn text_from(chars: &[char]) -> (text: String)
    ensures
        text@ == chars@,
{
    let mut text: String = "".to_string();
    proof {
        reveal_strlit("");
    }
    let mut i: usize = 0;
    while i < chars.len()
        invariant
            i <= chars@.len(),
            text@ == chars@.take(i as int),
        decreases chars@.len() - i,
    {
        text.push(chars[i]);
        i = i + 1;
        assert(text@ =~= chars@.take(i as int));
    }
    assert(text@ =~= chars@);
    text
}

/// `needle` stands in `hay` at position `at`.
pub open spec fn stands_at<T>(hay: Seq<T>, needle: Seq<T>, at: int) -> bool {
    0 <= at && at + needle.len() <= hay.len() && hay.subrange(at, at + needle.len()) == needle
}

/// `needle` stands somewhere in `hay`; an empty one always does.
pub open spec fn occurs<T>(hay: Seq<T>, needle: Seq<T>) -> bool {
    exists|at: int| stands_at(hay, needle, at)
}

fn stands_here(hay: &[char], needle: &[char], at: usize) -> (r: bool)
    requires
        at + needle@.len() <= hay@.len(),
    ensures
        r == stands_at(hay@, needle@, at as int),
{
    let hay_len: usize = hay.len();
    let mut i: usize = 0;
    while i < needle.len()
        invariant
            i <= needle@.len(),
            hay_len == hay@.len(),
            at + needle@.len() <= hay_len,
            forall|j: int| 0 <= j < i ==> hay@[at + j] == #[trigger] needle@[j],
        decreases needle@.len() - i,
    {
        if hay[at + i] != needle[i] {
            assert(hay@.subrange(at as int, at + needle@.len())[i as int] != needle@[i as int]);
            return false;
        }
        i = i + 1;
    }
    assert(hay@.subrange(at as int, at + needle@.len()) =~= needle@);
    true
}

/// Whether one sequence of characters stands in another.
pub fn contains_chars(hay: &[char], needle: &[char]) -> (r: bool)
    ensures
        r == occurs(hay@, needle@),
{
    if needle.len() > hay.len() {
        return false;
    }
    let last: usize = hay.len() - needle.len();
    let mut at: usize = 0;
    while at <= last
        invariant
            last + needle@.len() == hay@.len(),
            at <= last + 1,
            forall|k: int| 0 <= k < at ==> !#[trigger] stands_at(hay@, needle@, k),
        decreases last + 1 - at,
    {
        if stands_here(hay, needle, at) {
            return true;
        }
        if at == last {
            return false;
        }
        at = at + 1;
    }
    false
}

/// Whether one text stands in another.
pub fn contains(hay: &str, needle: &str) -> (r: bool)
    ensures
        r == occurs(hay@, needle@),
{
    let hay_chars = chars_of(hay);
    let needle_chars = chars_of(needle);
    contains_chars(hay_chars.as_slice(), needle_chars.as_slice())
}

/// A text with its ASCII letters in lower case.
pub open spec fn lowered(text: Seq<char>) -> Seq<char> {
    Seq::new(text.len(), |i: int| lower_char(text[i]))
}

/// The characters of `text` with ASCII letters in lower case.
pub fn lower_chars(text: &[char]) -> (out: Vec<char>)
    ensures
        out@ == lowered(text@),
{
    let mut out: Vec<char> = Vec::new();
    let mut i: usize = 0;
    while i < text.len()
        invariant
            i <= text@.len(),
            out@ == lowered(text@.take(i as int)),
        decreases text@.len() - i,
    {
        let c: char = text[i];
        out.push(lower(c));
        i = i + 1;
        assert(out@ =~= lowered(text@.take(i as int)));
    }
    assert(text@.take(text@.len() as int) =~= text@);
    out
}

/// A text without white space at its ends.
pub open spec fn trimmed(text: Seq<char>) -> Seq<char>
    decreases text.len(),
{
    if text.len() == 0 {
        text
    } else if is_space(text[0]) {
        trimmed(text.drop_first())
    } else if is_space(text.last()) {
        trimmed(text.drop_last())
    } else {
        text
    }
}

/// The characters of `text` without white space at the ends.
pub fn trim_chars(text: &[char]) -> (out: Vec<char>)
    ensures
        out@ == trimmed(text@),
{
    let mut from: usize = 0;
    let mut to: usize = text.len();
    assert(text@.subrange(0, text@.len() as int) =~= text@);
    while from < to && white_space(text[from])
        invariant
            from <= to <= text@.len(),
            trimmed(text@) == trimmed(text@.subrange(from as int, to as int)),
        decreases to - from,
    {
        let ghost rest = text@.subrange(from as int, to as int);
        assert(rest.drop_first() =~= text@.subrange(from + 1, to as int));
        from = from + 1;
    }
    while from < to && white_space(text[to - 1])
        invariant
            from <= to <= text@.len(),
            from < to ==> !is_space(text@[from as int]),
            trimmed(text@) == trimmed(text@.subrange(from as int, to as int)),
        decreases to - from,
    {
        let ghost rest = text@.subrange(from as int, to as int);
        assert(rest.drop_last() =~= text@.subrange(from as int, to - 1));
        to = to - 1;
    }
    let mut out: Vec<char> = Vec::new();
    let mut i: usize = from;
    while i < to
        invariant
            from <= i <= to <= text@.len(),
            out@ == text@.subrange(from as int, i as int),
        decreases to - i,
    {
        out.push(text[i]);
        i = i + 1;
        assert(out@ =~= text@.subrange(from as int, i as int));
    }
    out
}

/// A text with `fill` before it, up to `width` characters.
pub open spec fn padded(text: Seq<char>, fill: char, width: nat) -> Seq<char> {
    if text.len() >= width {
        text
    } else {
        Seq::new((width - text.len()) as nat, |i: int| fill) + text
    }
}

/// A number in decimal with zeros before it, up to `width` digits.
pub fn zero_padded_decimal(n: u64, width: usize) -> (out: String)
    ensures
        out@ == padded(decimal(n as nat), '0', width as nat),
{
    let digits = chars_of(decimal_string(n).as_str());
    let mut out: String = "".to_string();
    proof {
        reveal_strlit("");
    }
    let len: usize = digits.len();
    let mut i: usize = len;
    while i < width
        invariant
            len <= i,
            len < width ==> i <= width,
            len >= width ==> i == len,
            len < width ==> out@ == Seq::new((i - len) as nat, |j: int| '0'),
            i == len ==> out@.len() == 0,
        decreases width - i,
    {
        out.push('0');
        i = i + 1;
        assert(out@ =~= Seq::new((i - len) as nat, |j: int| '0'));
    }
    let tail = text_from(digits.as_slice());
    let res = out.concat(tail.as_str());
    assert(res@ =~= padded(decimal(n as nat), '0', width as nat));
    res
}

/// A number in upper-case hexadecimal, without leading zeros.
pub open spec fn hexadecimal(n: nat) -> Seq<char>
    decreases n,
{
    if n < 16 {
        seq![hex_char_upper(n)]
    } else {
        hexadecimal(n / 16).push(hex_char_upper(n % 16))
    }
}

fn hex_digit(d: u64) -> (c: char)
    requires
        d < 16,
    ensures
        c == hex_char_upper(d as nat),
{
    if d < 10 {
        (48 + d as u8) as char
    } else {
        (55 + d as u8) as char
    }
}

/// The digits of a number in upper-case hexadecimal, at least four of them.
pub fn hex_address(n: u64) -> (out: String)
    ensures
        out@ == padded(hexadecimal(n as nat), '0', 4),
{
    let a: char = hex_digit(n / 4096 % 16);
    let b: char = hex_digit(n / 256 % 16);
    let c: char = hex_digit(n / 16 % 16);
    let d: char = hex_digit(n % 16);
    let mut out: String = if n >= 65536 {
        hexadecimal_string(n / 65536)
    } else {
        "".to_string()
    };
    out.push(a);
    out.push(b);
    out.push(c);
    out.push(d);
    proof {
        reveal_strlit("");
        reveal_with_fuel(hexadecimal, 5);
        let m = n as nat;
        assert(m / 16 / 16 == m / 256);
        assert(m / 256 / 16 == m / 4096);
        assert(m / 4096 / 16 == m / 65536);
        assert(out@ =~= padded(hexadecimal(m), '0', 4)) by {
            lemma_hex_len(m);
            if m >= 65536 {
                lemma_hex_len(m / 65536);
            }
        }
    }
    out
}

proof fn lemma_hex_len(n: nat)
    ensures
        hexadecimal(n).len() >= 1,
    decreases n,
{
    if n >= 16 {
        lemma_hex_len(n / 16);
    }
}

fn hexadecimal_string(n: u64) -> (out: String)
    ensures
        out@ == hexadecimal(n as nat),
    decreases n,
{
    let mut out: String = if n < 16 {
        "".to_string()
    } else {
        hexadecimal_string(n / 16)
    };
    proof {
        reveal_strlit("");
    }
    out.push(hex_digit(n % 16));
    assert(out@ =~= hexadecimal(n as nat));
    out
}

/// A signed number in decimal.
pub open spec fn signed_decimal(n: int) -> Seq<char> {
    if n < 0 {
        "-"@ + decimal((-n) as nat)
    } else {
        decimal(n as nat)
    }
}

/// `n` in decimal, with a minus sign where it is negative.
pub fn signed_string(n: i64) -> (out: String)
    ensures
        out@ == signed_decimal(n as int),
{
    if n >= 0 {
        decimal_string(n as u64)
    } else {
        let magnitude: u64 = (-(n as i128)) as u64;
        "-".to_string().concat(decimal_string(magnitude).as_str())
    }
}

} // verus!
