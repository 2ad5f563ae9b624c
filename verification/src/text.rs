//! Building text: decimal and hexadecimal numbers, and ASCII classification.
use vstd::prelude::*;

verus! {

/// `String::push` appends one character.
pub assume_specification[ String::push ](s: &mut String, ch: char)
    ensures
        final(s)@ == old(s)@.push(ch),
;

/// The character of a decimal digit.
pub open spec fn digit_char(d: nat) -> char {
    (48 + d) as char
}

/// A number in decimal, without leading zeros.
pub open spec fn decimal(n: nat) -> Seq<char>
    decreases n,
{
    if n < 10 {
        seq![digit_char(n)]
    } else {
        decimal(n / 10).push(digit_char(n % 10))
    }
}

/// The character of a hexadecimal digit in lower case.
pub open spec fn hex_char(d: nat) -> char {
    if d < 10 {
        (48 + d) as char
    } else {
        (87 + d) as char
    }
}

/// The character of a hexadecimal digit in upper case.
pub open spec fn hex_char_upper(d: nat) -> char {
    if d < 10 {
        (48 + d) as char
    } else {
        (55 + d) as char
    }
}

/// A byte as two lower-case hexadecimal digits.
pub open spec fn hex_byte(b: u8) -> Seq<char> {
    seq![hex_char((b / 16) as nat), hex_char((b % 16) as nat)]
}

/// A byte as two upper-case hexadecimal digits.
pub open spec fn hex_byte_upper(b: u8) -> Seq<char> {
    seq![hex_char_upper((b / 16) as nat), hex_char_upper((b % 16) as nat)]
}

/// `n` in decimal.
pub fn decimal_string(n: u64) -> (s: String)
    ensures
        s@ == decimal(n as nat),
    decreases n,
{
    let mut s: String = if n < 10 {
        String::new()
    } else {
        decimal_string(n / 10)
    };
    let d: u8 = (n % 10) as u8;
    s.push((48 + d) as char);
    assert(s@ =~= decimal(n as nat));
    s
}

/// Append a byte as two lower-case hexadecimal digits.
pub fn push_hex(s: &mut String, b: u8)
    ensures
        final(s)@ == old(s)@ + hex_byte(b),
{
    let hi: u8 = b / 16;
    let lo: u8 = b % 16;
    s.push((if hi < 10 { 48 + hi } else { 87 + hi }) as char);
    s.push((if lo < 10 { 48 + lo } else { 87 + lo }) as char);
    assert(s@ =~= old(s)@ + hex_byte(b));
}

/// Append a byte as two upper-case hexadecimal digits.
pub fn push_hex_upper(s: &mut String, b: u8)
    ensures
        final(s)@ == old(s)@ + hex_byte_upper(b),
{
    let hi: u8 = b / 16;
    let lo: u8 = b % 16;
    s.push((if hi < 10 { 48 + hi } else { 55 + hi }) as char);
    s.push((if lo < 10 { 48 + lo } else { 55 + lo }) as char);
    assert(s@ =~= old(s)@ + hex_byte_upper(b));
}

/// ASCII letters and digits.
pub open spec fn is_alphanumeric(b: u8) -> bool {
    48 <= b <= 57 || 65 <= b <= 90 || 97 <= b <= 122
}

/// ASCII lower case turned to upper case.
pub open spec fn upper(b: u8) -> u8 {
    if 97 <= b <= 122 {
        (b - 32) as u8
    } else {
        b
    }
}

/// ASCII upper case turned to lower case.
pub open spec fn lower(b: u8) -> u8 {
    if 65 <= b <= 90 {
        (b + 32) as u8
    } else {
        b
    }
}

/// Whether `b` is an ASCII letter or digit.
pub fn ascii_alphanumeric(b: u8) -> (r: bool)
    ensures
        r == is_alphanumeric(b),
{
    (48 <= b && b <= 57) || (65 <= b && b <= 90) || (97 <= b && b <= 122)
}

/// The upper-case form of an ASCII byte.
pub fn ascii_upper(b: u8) -> (r: u8)
    ensures
        r == upper(b),
{
    if 97 <= b && b <= 122 {
        b - 32
    } else {
        b
    }
}

/// `b` in lower case, where it is an ASCII letter.
pub fn ascii_lower(b: u8) -> (r: u8)
    ensures
        r == lower(b),
{
    if 65 <= b && b <= 90 {
        b + 32
    } else {
        b
    }
}

/// The digits below ten in order.
pub open spec fn figure(c: char) -> Option<nat> {
    if '0' <= c <= '9' {
        Some((c as int - '0' as int) as nat)
    } else {
        None
    }
}

/// The number that figures stand for, the high one first.
pub open spec fn number(text: Seq<char>) -> nat
    decreases text.len(),
{
    if text.len() == 0 {
        0
    } else {
        10 * number(text.drop_last()) + figure(text.last()).unwrap()
    }
}

/// A number in decimal is written in figures that stand for it, and begins with a zero
/// only if it is zero.
pub proof fn law_decimal_is_read_back(n: nat)
    ensures
        decimal(n).len() > 0,
        forall|i: int| 0 <= i < decimal(n).len() ==> figure(#[trigger] decimal(n)[i]) is Some,
        number(decimal(n)) == n,
        decimal(n)[0] == '0' ==> n == 0,
        n == 0 ==> decimal(n).len() == 1,
    decreases n,
{
    if n < 10 {
        reveal_with_fuel(number, 2);
        assert(decimal(n).drop_last() =~= Seq::empty());
    } else {
        law_decimal_is_read_back(n / 10);
        assert(decimal(n).drop_last() =~= decimal(n / 10));
        assert(decimal(n)[0] == decimal(n / 10)[0]);
    }
}

/// The value of a hexadecimal digit in either case.
pub open spec fn hex_value(c: char) -> Option<nat> {
    if '0' <= c <= '9' {
        Some((c as int - '0' as int) as nat)
    } else if 'a' <= c <= 'f' {
        Some((10 + (c as int - 'a' as int)) as nat)
    } else if 'A' <= c <= 'F' {
        Some((10 + (c as int - 'A' as int)) as nat)
    } else {
        None
    }
}

/// A byte in hexadecimal has two digits that stand for it, the high one first, in small
/// or in capital letters.
pub proof fn law_hex_is_read_back(b: u8)
    ensures
        hex_byte(b).len() == 2,
        hex_value(hex_byte(b)[0]) is Some,
        hex_value(hex_byte(b)[1]) is Some,
        16 * hex_value(hex_byte(b)[0])->Some_0 + hex_value(hex_byte(b)[1])->Some_0 == b,
        !('A' <= hex_byte(b)[0] <= 'F') && !('A' <= hex_byte(b)[1] <= 'F'),
        hex_byte_upper(b).len() == 2,
        hex_value(hex_byte_upper(b)[0]) is Some,
        hex_value(hex_byte_upper(b)[1]) is Some,
        16 * hex_value(hex_byte_upper(b)[0])->Some_0 + hex_value(hex_byte_upper(b)[1])->Some_0 == b,
        !('a' <= hex_byte_upper(b)[0] <= 'f') && !('a' <= hex_byte_upper(b)[1] <= 'f'),
{
}

/// Letters change their case by their place in the alphabet, and nothing else does.
pub proof fn law_case(b: u8)
    ensures
        0x61 <= b <= 0x7A ==> upper(b) - 0x41 == b - 0x61,
        !(0x61 <= b <= 0x7A) ==> upper(b) == b,
        0x41 <= b <= 0x5A ==> lower(b) - 0x61 == b - 0x41,
        !(0x41 <= b <= 0x5A) ==> lower(b) == b,
        is_alphanumeric(b) <==> (0x30 <= b <= 0x39 || 0x41 <= b <= 0x5A || 0x61 <= b <= 0x7A),
{
}

} // verus!
