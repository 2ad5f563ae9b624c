//! The Varicode table.
use vstd::prelude::*;

verus! {

/// The Varicode codewords indexed by ASCII codepoint, as binary numbers. Every
/// codeword starts and ends with a one and holds no two zeros in a row.
pub const VARICODE_TABLE: [u16; 128] = [
    0b1010101011, 0b1011011011, 0b1011101101, 0b1101110111,
    0b1011101011, 0b1101011111, 0b1011101111, 0b1011111101,
    0b1011111111, 0b11101111, 0b11101, 0b1101101111,
    0b1011011101, 0b11111, 0b1101110101, 0b1110101011,
    0b1011110111, 0b1011110101, 0b1110101101, 0b1110101111,
    0b1101011011, 0b1101101011, 0b1101101101, 0b1101010111,
    0b1101111011, 0b1101111101, 0b1110110111, 0b1101010101,
    0b1101011101, 0b1110111011, 0b1011111011, 0b1101111111,
    0b1, 0b111111111, 0b101011111, 0b111110101,
    0b111011011, 0b1011010101, 0b1010111011, 0b101111111,
    0b11111011, 0b11110111, 0b101101111, 0b111011111,
    0b1110101, 0b110101, 0b1010111, 0b110101111,
    0b10110111, 0b10111101, 0b11101101, 0b11111111,
    0b101110111, 0b101011011, 0b101101011, 0b110101101,
    0b110101011, 0b110110111, 0b11110101, 0b110111101,
    0b111101101, 0b1010101, 0b111010111, 0b1010101111,
    0b1010111101, 0b1111101, 0b11101011, 0b10101101,
    0b10110101, 0b1110111, 0b11011011, 0b11111101,
    0b101010101, 0b1111111, 0b111111101, 0b101111101,
    0b11010111, 0b10111011, 0b11011101, 0b10101011,
    0b11010101, 0b111011101, 0b10101111, 0b1101111,
    0b1101101, 0b101010111, 0b110110101, 0b101011101,
    0b101110101, 0b101111011, 0b1010101101, 0b111110111,
    0b111101111, 0b111111011, 0b1010111111, 0b101101101,
    0b1011011111, 0b1011, 0b1011111, 0b101111,
    0b101101, 0b11, 0b111101, 0b1011011,
    0b101011, 0b1101, 0b111101011, 0b10111111,
    0b11011, 0b111011, 0b1111, 0b111,
    0b111111, 0b110111111, 0b10101, 0b10111,
    0b101, 0b110111, 0b1111011, 0b1101011,
    0b11011111, 0b1011101, 0b111010101, 0b1010110111,
    0b110111011, 0b1010110101, 0b1011010111, 0b1110110101,
];

/// The codeword of a codepoint.
#[verifier::opaque]
pub open spec fn codeword(i: int) -> u16 {
    VARICODE_TABLE@[i]
}

/// The binary digits of the number hold no two zeros in a row.
pub open spec fn tidy(c: nat) -> bool
    decreases c,
{
    c < 2 || (c % 4 != 0 && tidy(c / 2))
}

spec fn position(c: u16) -> int {
    if c == 0b1010101011 {
        0
    } else if c == 0b1011011011 {
        1
    } else if c == 0b1011101101 {
        2
    } else if c == 0b1101110111 {
        3
    } else if c == 0b1011101011 {
        4
    } else if c == 0b1101011111 {
        5
    } else if c == 0b1011101111 {
        6
    } else if c == 0b1011111101 {
        7
    } else if c == 0b1011111111 {
        8
    } else if c == 0b11101111 {
        9
    } else if c == 0b11101 {
        10
    } else if c == 0b1101101111 {
        11
    } else if c == 0b1011011101 {
        12
    } else if c == 0b11111 {
        13
    } else if c == 0b1101110101 {
        14
    } else if c == 0b1110101011 {
        15
    } else if c == 0b1011110111 {
        16
    } else if c == 0b1011110101 {
        17
    } else if c == 0b1110101101 {
        18
    } else if c == 0b1110101111 {
        19
    } else if c == 0b1101011011 {
        20
    } else if c == 0b1101101011 {
        21
    } else if c == 0b1101101101 {
        22
    } else if c == 0b1101010111 {
        23
    } else if c == 0b1101111011 {
        24
    } else if c == 0b1101111101 {
        25
    } else if c == 0b1110110111 {
        26
    } else if c == 0b1101010101 {
        27
    } else if c == 0b1101011101 {
        28
    } else if c == 0b1110111011 {
        29
    } else if c == 0b1011111011 {
        30
    } else if c == 0b1101111111 {
        31
    } else if c == 0b1 {
        32
    } else if c == 0b111111111 {
        33
    } else if c == 0b101011111 {
        34
    } else if c == 0b111110101 {
        35
    } else if c == 0b111011011 {
        36
    } else if c == 0b1011010101 {
        37
    } else if c == 0b1010111011 {
        38
    } else if c == 0b101111111 {
        39
    } else if c == 0b11111011 {
        40
    } else if c == 0b11110111 {
        41
    } else if c == 0b101101111 {
        42
    } else if c == 0b111011111 {
        43
    } else if c == 0b1110101 {
        44
    } else if c == 0b110101 {
        45
    } else if c == 0b1010111 {
        46
    } else if c == 0b110101111 {
        47
    } else if c == 0b10110111 {
        48
    } else if c == 0b10111101 {
        49
    } else if c == 0b11101101 {
        50
    } else if c == 0b11111111 {
        51
    } else if c == 0b101110111 {
        52
    } else if c == 0b101011011 {
        53
    } else if c == 0b101101011 {
        54
    } else if c == 0b110101101 {
        55
    } else if c == 0b110101011 {
        56
    } else if c == 0b110110111 {
        57
    } else if c == 0b11110101 {
        58
    } else if c == 0b110111101 {
        59
    } else if c == 0b111101101 {
        60
    } else if c == 0b1010101 {
        61
    } else if c == 0b111010111 {
        62
    } else if c == 0b1010101111 {
        63
    } else if c == 0b1010111101 {
        64
    } else if c == 0b1111101 {
        65
    } else if c == 0b11101011 {
        66
    } else if c == 0b10101101 {
        67
    } else if c == 0b10110101 {
        68
    } else if c == 0b1110111 {
        69
    } else if c == 0b11011011 {
        70
    } else if c == 0b11111101 {
        71
    } else if c == 0b101010101 {
        72
    } else if c == 0b1111111 {
        73
    } else if c == 0b111111101 {
        74
    } else if c == 0b101111101 {
        75
    } else if c == 0b11010111 {
        76
    } else if c == 0b10111011 {
        77
    } else if c == 0b11011101 {
        78
    } else if c == 0b10101011 {
        79
    } else if c == 0b11010101 {
        80
    } else if c == 0b111011101 {
        81
    } else if c == 0b10101111 {
        82
    } else if c == 0b1101111 {
        83
    } else if c == 0b1101101 {
        84
    } else if c == 0b101010111 {
        85
    } else if c == 0b110110101 {
        86
    } else if c == 0b101011101 {
        87
    } else if c == 0b101110101 {
        88
    } else if c == 0b101111011 {
        89
    } else if c == 0b1010101101 {
        90
    } else if c == 0b111110111 {
        91
    } else if c == 0b111101111 {
        92
    } else if c == 0b111111011 {
        93
    } else if c == 0b1010111111 {
        94
    } else if c == 0b101101101 {
        95
    } else if c == 0b1011011111 {
        96
    } else if c == 0b1011 {
        97
    } else if c == 0b1011111 {
        98
    } else if c == 0b101111 {
        99
    } else if c == 0b101101 {
        100
    } else if c == 0b11 {
        101
    } else if c == 0b111101 {
        102
    } else if c == 0b1011011 {
        103
    } else if c == 0b101011 {
        104
    } else if c == 0b1101 {
        105
    } else if c == 0b111101011 {
        106
    } else if c == 0b10111111 {
        107
    } else if c == 0b11011 {
        108
    } else if c == 0b111011 {
        109
    } else if c == 0b1111 {
        110
    } else if c == 0b111 {
        111
    } else if c == 0b111111 {
        112
    } else if c == 0b110111111 {
        113
    } else if c == 0b10101 {
        114
    } else if c == 0b10111 {
        115
    } else if c == 0b101 {
        116
    } else if c == 0b110111 {
        117
    } else if c == 0b1111011 {
        118
    } else if c == 0b1101011 {
        119
    } else if c == 0b11011111 {
        120
    } else if c == 0b1011101 {
        121
    } else if c == 0b111010101 {
        122
    } else if c == 0b1010110111 {
        123
    } else if c == 0b110111011 {
        124
    } else if c == 0b1010110101 {
        125
    } else if c == 0b1011010111 {
        126
    } else if c == 0b1110110101 {
        127
    } else {
        128
    }
}

proof fn lemma_position(i: int)
    requires
        0 <= i < 128,
    ensures
        position(codeword(i)) == i,
{
    reveal(codeword);
}

/// No two codepoints share a codeword.
pub proof fn law_codewords_are_distinct(i: int, j: int)
    requires
        0 <= i < 128,
        0 <= j < 128,
        codeword(i) == codeword(j),
    ensures
        i == j,
{
    lemma_position(i);
    lemma_position(j);
}

/// Every codeword is odd, has at most ten bits and no two zeros in a row.
pub proof fn law_codewords_hold_no_gap(i: int)
    requires
        0 <= i < 128,
    ensures
        1 <= codeword(i) <= 1023,
        codeword(i) % 2 == 1,
        tidy(codeword(i) as nat),
{
    reveal(codeword);
    reveal_with_fuel(tidy, 11);
}

/// The codepoints in the order of their codewords, the shortest first.
pub open spec fn by_codeword() -> Seq<u8> {
    seq![
        32u8, 101u8, 116u8, 111u8, 97u8, 105u8, 110u8, 114u8, 115u8, 108u8, 10u8, 13u8,
        104u8, 100u8, 99u8, 45u8, 117u8, 109u8, 102u8, 112u8, 61u8, 46u8, 103u8, 121u8,
        98u8, 119u8, 84u8, 83u8, 44u8, 69u8, 118u8, 65u8, 73u8, 79u8, 67u8, 82u8,
        68u8, 48u8, 77u8, 49u8, 107u8, 80u8, 76u8, 70u8, 78u8, 120u8, 66u8, 50u8,
        9u8, 58u8, 41u8, 40u8, 71u8, 51u8, 72u8, 85u8, 53u8, 87u8, 34u8, 54u8,
        95u8, 42u8, 88u8, 52u8, 89u8, 75u8, 39u8, 56u8, 55u8, 47u8, 86u8, 57u8,
        124u8, 59u8, 113u8, 122u8, 62u8, 36u8, 81u8, 43u8, 106u8, 60u8, 92u8, 35u8,
        91u8, 93u8, 74u8, 33u8, 0u8, 90u8, 63u8, 125u8, 123u8, 38u8, 64u8, 94u8,
        37u8, 126u8, 1u8, 12u8, 96u8, 4u8, 2u8, 6u8, 17u8, 16u8, 30u8, 7u8,
        8u8, 27u8, 23u8, 20u8, 28u8, 5u8, 21u8, 22u8, 11u8, 14u8, 3u8, 24u8,
        25u8, 31u8, 15u8, 18u8, 19u8, 127u8, 26u8, 29u8,
    ]
}

/// The shorter codewords go to the more frequent characters: a space has the shortest,
/// followed by the small letters in the order of their frequency in English text, and
/// the codewords grow in the order in which the characters are listed.
pub proof fn law_codewords_follow_the_list(r: int)
    requires
        0 <= r < 127,
    ensures
        by_codeword().len() == 128,
        codeword(by_codeword()[0] as int) == 1,
        codeword(by_codeword()[r] as int) < codeword(by_codeword()[r + 1] as int),
{
    reveal(codeword);
}

/// The codeword of a codepoint.
pub fn get_codeword(i: usize) -> (c: u16)
    requires
        i < 128,
    ensures
        c == codeword(i as int),
{
    proof {
        reveal(codeword);
    }
    VARICODE_TABLE[i]
}

} // verus!
