//! The Morse alphabet.
use vstd::prelude::*;

verus! {

/// The codes of the alphabet, as binary numbers: a leading one, and a zero for
/// each dit and a one for each dah.
pub const MORSE_CODES: [u8; 54] = [
    0b101, 0b11000, 0b11010, 0b1100, 0b10,
    0b10010, 0b1110, 0b10000, 0b100, 0b10111,
    0b1101, 0b10100, 0b111, 0b110, 0b1111,
    0b10110, 0b11101, 0b1010, 0b1000, 0b11,
    0b1001, 0b10001, 0b1011, 0b11001, 0b11011,
    0b11100, 0b111111, 0b101111, 0b100111, 0b100011,
    0b100001, 0b100000, 0b110000, 0b111000, 0b111100,
    0b111110, 0b1010101, 0b1110011, 0b1001100, 0b1011110,
    0b1101011, 0b110010, 0b110110, 0b1101101, 0b101000,
    0b1111000, 0b1101010, 0b110001, 0b101010, 0b1100001,
    0b1001101, 0b1010010, 0b10001001, 0b1011010,
];

/// The characters of the codes, in the same order.
pub const MORSE_CHARS: [char; 54] = [
    'A', 'B', 'C', 'D', 'E', 'F', 'G', 'H', 'I', 'J', 'K', 'L',
    'M', 'N', 'O', 'P', 'Q', 'R', 'S', 'T', 'U', 'V', 'W', 'X',
    'Y', 'Z', '0', '1', '2', '3', '4', '5', '6', '7', '8', '9',
    '.', ',', '?', '\'', '!', '/', '(', ')', '&', ':', ';', '=',
    '+', '-', '_', '"', '$', '@',
];

/// The code of entry `i`.
#[verifier::opaque]
pub open spec fn morse_code(i: int) -> u8 {
    MORSE_CODES@[i]
}

/// The character of entry `i`.
#[verifier::opaque]
pub open spec fn morse_letter(i: int) -> char {
    MORSE_CHARS@[i]
}

spec fn code_position(c: u8) -> int {
    if c == 0b101 {
        0
    } else if c == 0b11000 {
        1
    } else if c == 0b11010 {
        2
    } else if c == 0b1100 {
        3
    } else if c == 0b10 {
        4
    } else if c == 0b10010 {
        5
    } else if c == 0b1110 {
        6
    } else if c == 0b10000 {
        7
    } else if c == 0b100 {
        8
    } else if c == 0b10111 {
        9
    } else if c == 0b1101 {
        10
    } else if c == 0b10100 {
        11
    } else if c == 0b111 {
        12
    } else if c == 0b110 {
        13
    } else if c == 0b1111 {
        14
    } else if c == 0b10110 {
        15
    } else if c == 0b11101 {
        16
    } else if c == 0b1010 {
        17
    } else if c == 0b1000 {
        18
    } else if c == 0b11 {
        19
    } else if c == 0b1001 {
        20
    } else if c == 0b10001 {
        21
    } else if c == 0b1011 {
        22
    } else if c == 0b11001 {
        23
    } else if c == 0b11011 {
        24
    } else if c == 0b11100 {
        25
    } else if c == 0b111111 {
        26
    } else if c == 0b101111 {
        27
    } else if c == 0b100111 {
        28
    } else if c == 0b100011 {
        29
    } else if c == 0b100001 {
        30
    } else if c == 0b100000 {
        31
    } else if c == 0b110000 {
        32
    } else if c == 0b111000 {
        33
    } else if c == 0b111100 {
        34
    } else if c == 0b111110 {
        35
    } else if c == 0b1010101 {
        36
    } else if c == 0b1110011 {
        37
    } else if c == 0b1001100 {
        38
    } else if c == 0b1011110 {
        39
    } else if c == 0b1101011 {
        40
    } else if c == 0b110010 {
        41
    } else if c == 0b110110 {
        42
    } else if c == 0b1101101 {
        43
    } else if c == 0b101000 {
        44
    } else if c == 0b1111000 {
        45
    } else if c == 0b1101010 {
        46
    } else if c == 0b110001 {
        47
    } else if c == 0b101010 {
        48
    } else if c == 0b1100001 {
        49
    } else if c == 0b1001101 {
        50
    } else if c == 0b1010010 {
        51
    } else if c == 0b10001001 {
        52
    } else if c == 0b1011010 {
        53
    } else {
        54
    }
}

spec fn letter_position(c: char) -> int {
    if c == 'A' {
        0
    } else if c == 'B' {
        1
    } else if c == 'C' {
        2
    } else if c == 'D' {
        3
    } else if c == 'E' {
        4
    } else if c == 'F' {
        5
    } else if c == 'G' {
        6
    } else if c == 'H' {
        7
    } else if c == 'I' {
        8
    } else if c == 'J' {
        9
    } else if c == 'K' {
        10
    } else if c == 'L' {
        11
    } else if c == 'M' {
        12
    } else if c == 'N' {
        13
    } else if c == 'O' {
        14
    } else if c == 'P' {
        15
    } else if c == 'Q' {
        16
    } else if c == 'R' {
        17
    } else if c == 'S' {
        18
    } else if c == 'T' {
        19
    } else if c == 'U' {
        20
    } else if c == 'V' {
        21
    } else if c == 'W' {
        22
    } else if c == 'X' {
        23
    } else if c == 'Y' {
        24
    } else if c == 'Z' {
        25
    } else if c == '0' {
        26
    } else if c == '1' {
        27
    } else if c == '2' {
        28
    } else if c == '3' {
        29
    } else if c == '4' {
        30
    } else if c == '5' {
        31
    } else if c == '6' {
        32
    } else if c == '7' {
        33
    } else if c == '8' {
        34
    } else if c == '9' {
        35
    } else if c == '.' {
        36
    } else if c == ',' {
        37
    } else if c == '?' {
        38
    } else if c == '\'' {
        39
    } else if c == '!' {
        40
    } else if c == '/' {
        41
    } else if c == '(' {
        42
    } else if c == ')' {
        43
    } else if c == '&' {
        44
    } else if c == ':' {
        45
    } else if c == ';' {
        46
    } else if c == '=' {
        47
    } else if c == '+' {
        48
    } else if c == '-' {
        49
    } else if c == '_' {
        50
    } else if c == '"' {
        51
    } else if c == '$' {
        52
    } else if c == '@' {
        53
    } else {
        54
    }
}

proof fn lemma_code_position(i: int)
    requires
        0 <= i < 54,
    ensures
        code_position(morse_code(i)) == i,
        2 <= morse_code(i) < 0xFF,
{
    reveal(morse_code);
}

proof fn lemma_letter_position(i: int)
    requires
        0 <= i < 54,
    ensures
        letter_position(morse_letter(i)) == i,
{
    reveal(morse_letter);
}

/// Codes start with their leading one and an element.
pub proof fn lemma_code_range(i: int)
    requires
        0 <= i < 54,
    ensures
        2 <= morse_code(i) < 0xFF,
{
    lemma_code_position(i);
}

/// No two entries have the same code, and no two the same character.
pub proof fn law_alphabet_inverts(i: int, j: int)
    requires
        0 <= i < 54,
        0 <= j < 54,
        morse_code(i) == morse_code(j) || morse_letter(i) == morse_letter(j),
    ensures
        i == j,
{
    lemma_code_position(i);
    lemma_code_position(j);
    lemma_letter_position(i);
    lemma_letter_position(j);
}

/// No character of the alphabet is a space.
pub proof fn lemma_no_space(i: int)
    requires
        0 <= i < 54,
    ensures
        morse_letter(i) != ' ',
{
    lemma_letter_position(i);
}

/// The lengths of the elements of a code in dits, as the digits of a number: one for each
/// zero and three for each one behind the leading one.
pub open spec fn lengths(code: nat) -> nat
    decreases code,
{
    if code < 2 {
        0
    } else if code % 2 == 1 {
        10 * lengths(code / 2) + 3
    } else {
        10 * lengths(code / 2) + 1
    }
}

/// The lengths of the elements of a character in dits, as the digits of a number.
pub open spec fn keying(c: char) -> nat {
    if c == 'A' {
        13
    } else if c == 'B' {
        3111
    } else if c == 'C' {
        3131
    } else if c == 'D' {
        311
    } else if c == 'E' {
        1
    } else if c == 'F' {
        1131
    } else if c == 'G' {
        331
    } else if c == 'H' {
        1111
    } else if c == 'I' {
        11
    } else if c == 'J' {
        1333
    } else if c == 'K' {
        313
    } else if c == 'L' {
        1311
    } else if c == 'M' {
        33
    } else if c == 'N' {
        31
    } else if c == 'O' {
        333
    } else if c == 'P' {
        1331
    } else if c == 'Q' {
        3313
    } else if c == 'R' {
        131
    } else if c == 'S' {
        111
    } else if c == 'T' {
        3
    } else if c == 'U' {
        113
    } else if c == 'V' {
        1113
    } else if c == 'W' {
        133
    } else if c == 'X' {
        3113
    } else if c == 'Y' {
        3133
    } else if c == 'Z' {
        3311
    } else if c == '0' {
        33333
    } else if c == '1' {
        13333
    } else if c == '2' {
        11333
    } else if c == '3' {
        11133
    } else if c == '4' {
        11113
    } else if c == '5' {
        11111
    } else if c == '6' {
        31111
    } else if c == '7' {
        33111
    } else if c == '8' {
        33311
    } else if c == '9' {
        33331
    } else if c == '.' {
        131313
    } else if c == ',' {
        331133
    } else if c == '?' {
        113311
    } else if c == '\'' {
        133331
    } else if c == '!' {
        313133
    } else if c == '/' {
        31131
    } else if c == '(' {
        31331
    } else if c == ')' {
        313313
    } else if c == '&' {
        13111
    } else if c == ':' {
        333111
    } else if c == ';' {
        313131
    } else if c == '=' {
        31113
    } else if c == '+' {
        13131
    } else if c == '-' {
        311113
    } else if c == '_' {
        113313
    } else if c == '"' {
        131131
    } else if c == '$' {
        1113113
    } else if c == '@' {
        133131
    } else {
        0
    }
}

/// Every character of the alphabet has the dits and dahs of international Morse code:
/// all letters and figures, and the marks.
pub proof fn law_alphabet_is_international(i: int)
    requires
        0 <= i < 54,
    ensures
        lengths(morse_code(i) as nat) == keying(morse_letter(i)),
        keying(morse_letter(i)) > 0,
        i < 26 ==> morse_letter(i) as int == 'A' as int + i,
        26 <= i < 36 ==> morse_letter(i) as int == '0' as int + (i - 26),
{
    reveal(morse_letter);
    lemma_code_position(i);
    reveal_with_fuel(lengths, 9);
    reveal(morse_code);
}

/// The code of entry `i`.
pub fn get_code(i: usize) -> (c: u8)
    requires
        i < 54,
    ensures
        c == morse_code(i as int),
{
    proof {
        reveal(morse_code);
    }
    MORSE_CODES[i]
}

/// The character of entry `i`.
pub fn get_letter(i: usize) -> (c: char)
    requires
        i < 54,
    ensures
        c == morse_letter(i as int),
{
    proof {
        reveal(morse_letter);
    }
    MORSE_CHARS[i]
}

} // verus!
