//! Power and logarithm tables of the field GF(256) with the primitive
//! polynomial `x^8 + x^7 + x^2 + x + 1` (0x187).
use vstd::prelude::*;

verus! {

/// Order of the multiplicative group, and the mark for "logarithm of zero".
pub const NN: usize = 255;

/// `ALPHA_TO[i]` is `alpha^i`.
pub const ALPHA_TO: [u8; 255] = [
    0x01, 0x02, 0x04, 0x08, 0x10, 0x20, 0x40, 0x80, 0x87, 0x89, 0x95, 0xad, 0xdd, 0x3d, 0x7a,
    0xf4, 0x6f, 0xde, 0x3b, 0x76, 0xec, 0x5f, 0xbe, 0xfb, 0x71, 0xe2, 0x43, 0x86, 0x8b, 0x91,
    0xa5, 0xcd, 0x1d, 0x3a, 0x74, 0xe8, 0x57, 0xae, 0xdb, 0x31, 0x62, 0xc4, 0x0f, 0x1e, 0x3c,
    0x78, 0xf0, 0x67, 0xce, 0x1b, 0x36, 0x6c, 0xd8, 0x37, 0x6e, 0xdc, 0x3f, 0x7e, 0xfc, 0x7f,
    0xfe, 0x7b, 0xf6, 0x6b, 0xd6, 0x2b, 0x56, 0xac, 0xdf, 0x39, 0x72, 0xe4, 0x4f, 0x9e, 0xbb,
    0xf1, 0x65, 0xca, 0x13, 0x26, 0x4c, 0x98, 0xb7, 0xe9, 0x55, 0xaa, 0xd3, 0x21, 0x42, 0x84,
    0x8f, 0x99, 0xb5, 0xed, 0x5d, 0xba, 0xf3, 0x61, 0xc2, 0x03, 0x06, 0x0c, 0x18, 0x30, 0x60,
    0xc0, 0x07, 0x0e, 0x1c, 0x38, 0x70, 0xe0, 0x47, 0x8e, 0x9b, 0xb1, 0xe5, 0x4d, 0x9a, 0xb3,
    0xe1, 0x45, 0x8a, 0x93, 0xa1, 0xc5, 0x0d, 0x1a, 0x34, 0x68, 0xd0, 0x27, 0x4e, 0x9c, 0xbf,
    0xf9, 0x75, 0xea, 0x53, 0xa6, 0xcb, 0x11, 0x22, 0x44, 0x88, 0x97, 0xa9, 0xd5, 0x2d, 0x5a,
    0xb4, 0xef, 0x59, 0xb2, 0xe3, 0x41, 0x82, 0x83, 0x81, 0x85, 0x8d, 0x9d, 0xbd, 0xfd, 0x7d,
    0xfa, 0x73, 0xe6, 0x4b, 0x96, 0xab, 0xd1, 0x25, 0x4a, 0x94, 0xaf, 0xd9, 0x35, 0x6a, 0xd4,
    0x2f, 0x5e, 0xbc, 0xff, 0x79, 0xf2, 0x63, 0xc6, 0x0b, 0x16, 0x2c, 0x58, 0xb0, 0xe7, 0x49,
    0x92, 0xa3, 0xc1, 0x05, 0x0a, 0x14, 0x28, 0x50, 0xa0, 0xc7, 0x09, 0x12, 0x24, 0x48, 0x90,
    0xa7, 0xc9, 0x15, 0x2a, 0x54, 0xa8, 0xd7, 0x29, 0x52, 0xa4, 0xcf, 0x19, 0x32, 0x64, 0xc8,
    0x17, 0x2e, 0x5c, 0xb8, 0xf7, 0x69, 0xd2, 0x23, 0x46, 0x8c, 0x9f, 0xb9, 0xf5, 0x6d, 0xda,
    0x33, 0x66, 0xcc, 0x1f, 0x3e, 0x7c, 0xf8, 0x77, 0xee, 0x5b, 0xb6, 0xeb, 0x51, 0xa2, 0xc3,
];

/// `INDEX_OF[v]` is the logarithm of `v` to the base `alpha`, and 255 for zero.
pub const INDEX_OF: [u8; 256] = [
    255, 0, 1, 99, 2, 198, 100, 106, 3, 205, 199, 188, 101, 126, 107, 42,
    4, 141, 206, 78, 200, 212, 189, 225, 102, 221, 127, 49, 108, 32, 43, 243,
    5, 87, 142, 232, 207, 172, 79, 131, 201, 217, 213, 65, 190, 148, 226, 180,
    103, 39, 222, 240, 128, 177, 50, 53, 109, 69, 33, 18, 44, 13, 244, 56,
    6, 155, 88, 26, 143, 121, 233, 112, 208, 194, 173, 168, 80, 117, 132, 72,
    202, 252, 218, 138, 214, 84, 66, 36, 191, 152, 149, 249, 227, 94, 181, 21,
    104, 97, 40, 186, 223, 76, 241, 47, 129, 230, 178, 63, 51, 238, 54, 16,
    110, 24, 70, 166, 34, 136, 19, 247, 45, 184, 14, 61, 245, 164, 57, 59,
    7, 158, 156, 157, 89, 159, 27, 8, 144, 9, 122, 28, 234, 160, 113, 90,
    209, 29, 195, 123, 174, 10, 169, 145, 81, 91, 118, 114, 133, 161, 73, 235,
    203, 124, 253, 196, 219, 30, 139, 210, 215, 146, 85, 170, 67, 11, 37, 175,
    192, 115, 153, 119, 150, 92, 250, 82, 228, 236, 95, 74, 182, 162, 22, 134,
    105, 197, 98, 254, 41, 125, 187, 204, 224, 211, 77, 140, 242, 31, 48, 220,
    130, 171, 231, 86, 179, 147, 64, 216, 52, 176, 239, 38, 55, 12, 17, 68,
    111, 120, 25, 154, 71, 116, 167, 193, 35, 83, 137, 251, 20, 93, 248, 151,
    46, 75, 185, 96, 15, 237, 62, 229, 246, 135, 165, 23, 58, 163, 60, 183,
];

/// Multiplication by `alpha`.
pub open spec fn xtime(a: u8) -> u8 {
    if a & 0x80u8 != 0u8 {
        (a << 1u8) ^ 0x87u8
    } else {
        a << 1u8
    }
}

/// `alpha^n`.
pub open spec fn alpha_pow(n: nat) -> u8
    decreases n,
{
    if n == 0 {
        1u8
    } else {
        xtime(alpha_pow((n - 1) as nat))
    }
}

/// The logarithm of a non-zero `v` to the base `alpha`.
#[verifier::opaque]
pub open spec fn gf_log(v: u8) -> nat {
    INDEX_OF@[v as int] as nat
}

proof fn lemma_xtime_table()
    ensures
        xtime(0x01) == 0x02 && xtime(0x02) == 0x04 && xtime(0x04) == 0x08 && xtime(0x08) == 0x10
        && xtime(0x10) == 0x20 && xtime(0x20) == 0x40 && xtime(0x40) == 0x80 && xtime(0x80) == 0x87
        && xtime(0x87) == 0x89 && xtime(0x89) == 0x95 && xtime(0x95) == 0xad && xtime(0xad) == 0xdd
        && xtime(0xdd) == 0x3d && xtime(0x3d) == 0x7a && xtime(0x7a) == 0xf4 && xtime(0xf4) == 0x6f
        && xtime(0x6f) == 0xde && xtime(0xde) == 0x3b && xtime(0x3b) == 0x76 && xtime(0x76) == 0xec
        && xtime(0xec) == 0x5f && xtime(0x5f) == 0xbe && xtime(0xbe) == 0xfb && xtime(0xfb) == 0x71
        && xtime(0x71) == 0xe2 && xtime(0xe2) == 0x43 && xtime(0x43) == 0x86 && xtime(0x86) == 0x8b
        && xtime(0x8b) == 0x91 && xtime(0x91) == 0xa5 && xtime(0xa5) == 0xcd && xtime(0xcd) == 0x1d
        && xtime(0x1d) == 0x3a && xtime(0x3a) == 0x74 && xtime(0x74) == 0xe8 && xtime(0xe8) == 0x57
        && xtime(0x57) == 0xae && xtime(0xae) == 0xdb && xtime(0xdb) == 0x31 && xtime(0x31) == 0x62
        && xtime(0x62) == 0xc4 && xtime(0xc4) == 0x0f && xtime(0x0f) == 0x1e && xtime(0x1e) == 0x3c
        && xtime(0x3c) == 0x78 && xtime(0x78) == 0xf0 && xtime(0xf0) == 0x67 && xtime(0x67) == 0xce
        && xtime(0xce) == 0x1b && xtime(0x1b) == 0x36 && xtime(0x36) == 0x6c && xtime(0x6c) == 0xd8
        && xtime(0xd8) == 0x37 && xtime(0x37) == 0x6e && xtime(0x6e) == 0xdc && xtime(0xdc) == 0x3f
        && xtime(0x3f) == 0x7e && xtime(0x7e) == 0xfc && xtime(0xfc) == 0x7f && xtime(0x7f) == 0xfe
        && xtime(0xfe) == 0x7b && xtime(0x7b) == 0xf6 && xtime(0xf6) == 0x6b && xtime(0x6b) == 0xd6
        && xtime(0xd6) == 0x2b && xtime(0x2b) == 0x56 && xtime(0x56) == 0xac && xtime(0xac) == 0xdf
        && xtime(0xdf) == 0x39 && xtime(0x39) == 0x72 && xtime(0x72) == 0xe4 && xtime(0xe4) == 0x4f
        && xtime(0x4f) == 0x9e && xtime(0x9e) == 0xbb && xtime(0xbb) == 0xf1 && xtime(0xf1) == 0x65
        && xtime(0x65) == 0xca && xtime(0xca) == 0x13 && xtime(0x13) == 0x26 && xtime(0x26) == 0x4c
        && xtime(0x4c) == 0x98 && xtime(0x98) == 0xb7 && xtime(0xb7) == 0xe9 && xtime(0xe9) == 0x55
        && xtime(0x55) == 0xaa && xtime(0xaa) == 0xd3 && xtime(0xd3) == 0x21 && xtime(0x21) == 0x42
        && xtime(0x42) == 0x84 && xtime(0x84) == 0x8f && xtime(0x8f) == 0x99 && xtime(0x99) == 0xb5
        && xtime(0xb5) == 0xed && xtime(0xed) == 0x5d && xtime(0x5d) == 0xba && xtime(0xba) == 0xf3
        && xtime(0xf3) == 0x61 && xtime(0x61) == 0xc2 && xtime(0xc2) == 0x03 && xtime(0x03) == 0x06
        && xtime(0x06) == 0x0c && xtime(0x0c) == 0x18 && xtime(0x18) == 0x30 && xtime(0x30) == 0x60
        && xtime(0x60) == 0xc0 && xtime(0xc0) == 0x07 && xtime(0x07) == 0x0e && xtime(0x0e) == 0x1c
        && xtime(0x1c) == 0x38 && xtime(0x38) == 0x70 && xtime(0x70) == 0xe0 && xtime(0xe0) == 0x47
        && xtime(0x47) == 0x8e && xtime(0x8e) == 0x9b && xtime(0x9b) == 0xb1 && xtime(0xb1) == 0xe5
        && xtime(0xe5) == 0x4d && xtime(0x4d) == 0x9a && xtime(0x9a) == 0xb3 && xtime(0xb3) == 0xe1
        && xtime(0xe1) == 0x45 && xtime(0x45) == 0x8a && xtime(0x8a) == 0x93 && xtime(0x93) == 0xa1
        && xtime(0xa1) == 0xc5 && xtime(0xc5) == 0x0d && xtime(0x0d) == 0x1a && xtime(0x1a) == 0x34
        && xtime(0x34) == 0x68 && xtime(0x68) == 0xd0 && xtime(0xd0) == 0x27 && xtime(0x27) == 0x4e
        && xtime(0x4e) == 0x9c && xtime(0x9c) == 0xbf && xtime(0xbf) == 0xf9 && xtime(0xf9) == 0x75
        && xtime(0x75) == 0xea && xtime(0xea) == 0x53 && xtime(0x53) == 0xa6 && xtime(0xa6) == 0xcb
        && xtime(0xcb) == 0x11 && xtime(0x11) == 0x22 && xtime(0x22) == 0x44 && xtime(0x44) == 0x88
        && xtime(0x88) == 0x97 && xtime(0x97) == 0xa9 && xtime(0xa9) == 0xd5 && xtime(0xd5) == 0x2d
        && xtime(0x2d) == 0x5a && xtime(0x5a) == 0xb4 && xtime(0xb4) == 0xef && xtime(0xef) == 0x59
        && xtime(0x59) == 0xb2 && xtime(0xb2) == 0xe3 && xtime(0xe3) == 0x41 && xtime(0x41) == 0x82
        && xtime(0x82) == 0x83 && xtime(0x83) == 0x81 && xtime(0x81) == 0x85 && xtime(0x85) == 0x8d
        && xtime(0x8d) == 0x9d && xtime(0x9d) == 0xbd && xtime(0xbd) == 0xfd && xtime(0xfd) == 0x7d
        && xtime(0x7d) == 0xfa && xtime(0xfa) == 0x73 && xtime(0x73) == 0xe6 && xtime(0xe6) == 0x4b
        && xtime(0x4b) == 0x96 && xtime(0x96) == 0xab && xtime(0xab) == 0xd1 && xtime(0xd1) == 0x25
        && xtime(0x25) == 0x4a && xtime(0x4a) == 0x94 && xtime(0x94) == 0xaf && xtime(0xaf) == 0xd9
        && xtime(0xd9) == 0x35 && xtime(0x35) == 0x6a && xtime(0x6a) == 0xd4 && xtime(0xd4) == 0x2f
        && xtime(0x2f) == 0x5e && xtime(0x5e) == 0xbc && xtime(0xbc) == 0xff && xtime(0xff) == 0x79
        && xtime(0x79) == 0xf2 && xtime(0xf2) == 0x63 && xtime(0x63) == 0xc6 && xtime(0xc6) == 0x0b
        && xtime(0x0b) == 0x16 && xtime(0x16) == 0x2c && xtime(0x2c) == 0x58 && xtime(0x58) == 0xb0
        && xtime(0xb0) == 0xe7 && xtime(0xe7) == 0x49 && xtime(0x49) == 0x92 && xtime(0x92) == 0xa3
        && xtime(0xa3) == 0xc1 && xtime(0xc1) == 0x05 && xtime(0x05) == 0x0a && xtime(0x0a) == 0x14
        && xtime(0x14) == 0x28 && xtime(0x28) == 0x50 && xtime(0x50) == 0xa0 && xtime(0xa0) == 0xc7
        && xtime(0xc7) == 0x09 && xtime(0x09) == 0x12 && xtime(0x12) == 0x24 && xtime(0x24) == 0x48
        && xtime(0x48) == 0x90 && xtime(0x90) == 0xa7 && xtime(0xa7) == 0xc9 && xtime(0xc9) == 0x15
        && xtime(0x15) == 0x2a && xtime(0x2a) == 0x54 && xtime(0x54) == 0xa8 && xtime(0xa8) == 0xd7
        && xtime(0xd7) == 0x29 && xtime(0x29) == 0x52 && xtime(0x52) == 0xa4 && xtime(0xa4) == 0xcf
        && xtime(0xcf) == 0x19 && xtime(0x19) == 0x32 && xtime(0x32) == 0x64 && xtime(0x64) == 0xc8
        && xtime(0xc8) == 0x17 && xtime(0x17) == 0x2e && xtime(0x2e) == 0x5c && xtime(0x5c) == 0xb8
        && xtime(0xb8) == 0xf7 && xtime(0xf7) == 0x69 && xtime(0x69) == 0xd2 && xtime(0xd2) == 0x23
        && xtime(0x23) == 0x46 && xtime(0x46) == 0x8c && xtime(0x8c) == 0x9f && xtime(0x9f) == 0xb9
        && xtime(0xb9) == 0xf5 && xtime(0xf5) == 0x6d && xtime(0x6d) == 0xda && xtime(0xda) == 0x33
        && xtime(0x33) == 0x66 && xtime(0x66) == 0xcc && xtime(0xcc) == 0x1f && xtime(0x1f) == 0x3e
        && xtime(0x3e) == 0x7c && xtime(0x7c) == 0xf8 && xtime(0xf8) == 0x77 && xtime(0x77) == 0xee
        && xtime(0xee) == 0x5b && xtime(0x5b) == 0xb6 && xtime(0xb6) == 0xeb && xtime(0xeb) == 0x51
        && xtime(0x51) == 0xa2 && xtime(0xa2) == 0xc3 && xtime(0xc3) == 0x01
{
    assert(xtime(0x01) == 0x02 && xtime(0x02) == 0x04 && xtime(0x04) == 0x08 && xtime(0x08) == 0x10
        && xtime(0x10) == 0x20 && xtime(0x20) == 0x40 && xtime(0x40) == 0x80 && xtime(0x80) == 0x87
        && xtime(0x87) == 0x89 && xtime(0x89) == 0x95 && xtime(0x95) == 0xad && xtime(0xad) == 0xdd
        && xtime(0xdd) == 0x3d && xtime(0x3d) == 0x7a && xtime(0x7a) == 0xf4 && xtime(0xf4) == 0x6f
        && xtime(0x6f) == 0xde && xtime(0xde) == 0x3b && xtime(0x3b) == 0x76 && xtime(0x76) == 0xec
        && xtime(0xec) == 0x5f && xtime(0x5f) == 0xbe && xtime(0xbe) == 0xfb && xtime(0xfb) == 0x71
        && xtime(0x71) == 0xe2 && xtime(0xe2) == 0x43 && xtime(0x43) == 0x86 && xtime(0x86) == 0x8b
        && xtime(0x8b) == 0x91 && xtime(0x91) == 0xa5 && xtime(0xa5) == 0xcd && xtime(0xcd) == 0x1d
        && xtime(0x1d) == 0x3a && xtime(0x3a) == 0x74 && xtime(0x74) == 0xe8 && xtime(0xe8) == 0x57
        && xtime(0x57) == 0xae && xtime(0xae) == 0xdb && xtime(0xdb) == 0x31 && xtime(0x31) == 0x62
        && xtime(0x62) == 0xc4 && xtime(0xc4) == 0x0f && xtime(0x0f) == 0x1e && xtime(0x1e) == 0x3c
        && xtime(0x3c) == 0x78 && xtime(0x78) == 0xf0 && xtime(0xf0) == 0x67 && xtime(0x67) == 0xce
        && xtime(0xce) == 0x1b && xtime(0x1b) == 0x36 && xtime(0x36) == 0x6c && xtime(0x6c) == 0xd8
        && xtime(0xd8) == 0x37 && xtime(0x37) == 0x6e && xtime(0x6e) == 0xdc && xtime(0xdc) == 0x3f
        && xtime(0x3f) == 0x7e && xtime(0x7e) == 0xfc && xtime(0xfc) == 0x7f && xtime(0x7f) == 0xfe
        && xtime(0xfe) == 0x7b && xtime(0x7b) == 0xf6 && xtime(0xf6) == 0x6b && xtime(0x6b) == 0xd6
        && xtime(0xd6) == 0x2b && xtime(0x2b) == 0x56 && xtime(0x56) == 0xac && xtime(0xac) == 0xdf
        && xtime(0xdf) == 0x39 && xtime(0x39) == 0x72 && xtime(0x72) == 0xe4 && xtime(0xe4) == 0x4f
        && xtime(0x4f) == 0x9e && xtime(0x9e) == 0xbb && xtime(0xbb) == 0xf1 && xtime(0xf1) == 0x65
        && xtime(0x65) == 0xca && xtime(0xca) == 0x13 && xtime(0x13) == 0x26 && xtime(0x26) == 0x4c
        && xtime(0x4c) == 0x98 && xtime(0x98) == 0xb7 && xtime(0xb7) == 0xe9 && xtime(0xe9) == 0x55
        && xtime(0x55) == 0xaa && xtime(0xaa) == 0xd3 && xtime(0xd3) == 0x21 && xtime(0x21) == 0x42
        && xtime(0x42) == 0x84 && xtime(0x84) == 0x8f && xtime(0x8f) == 0x99 && xtime(0x99) == 0xb5
        && xtime(0xb5) == 0xed && xtime(0xed) == 0x5d && xtime(0x5d) == 0xba && xtime(0xba) == 0xf3
        && xtime(0xf3) == 0x61 && xtime(0x61) == 0xc2 && xtime(0xc2) == 0x03 && xtime(0x03) == 0x06
        && xtime(0x06) == 0x0c && xtime(0x0c) == 0x18 && xtime(0x18) == 0x30 && xtime(0x30) == 0x60
        && xtime(0x60) == 0xc0 && xtime(0xc0) == 0x07 && xtime(0x07) == 0x0e && xtime(0x0e) == 0x1c
        && xtime(0x1c) == 0x38 && xtime(0x38) == 0x70 && xtime(0x70) == 0xe0 && xtime(0xe0) == 0x47
        && xtime(0x47) == 0x8e && xtime(0x8e) == 0x9b && xtime(0x9b) == 0xb1 && xtime(0xb1) == 0xe5
        && xtime(0xe5) == 0x4d && xtime(0x4d) == 0x9a && xtime(0x9a) == 0xb3 && xtime(0xb3) == 0xe1
        && xtime(0xe1) == 0x45 && xtime(0x45) == 0x8a && xtime(0x8a) == 0x93 && xtime(0x93) == 0xa1
        && xtime(0xa1) == 0xc5 && xtime(0xc5) == 0x0d && xtime(0x0d) == 0x1a && xtime(0x1a) == 0x34
        && xtime(0x34) == 0x68 && xtime(0x68) == 0xd0 && xtime(0xd0) == 0x27 && xtime(0x27) == 0x4e
        && xtime(0x4e) == 0x9c && xtime(0x9c) == 0xbf && xtime(0xbf) == 0xf9 && xtime(0xf9) == 0x75
        && xtime(0x75) == 0xea && xtime(0xea) == 0x53 && xtime(0x53) == 0xa6 && xtime(0xa6) == 0xcb
        && xtime(0xcb) == 0x11 && xtime(0x11) == 0x22 && xtime(0x22) == 0x44 && xtime(0x44) == 0x88
        && xtime(0x88) == 0x97 && xtime(0x97) == 0xa9 && xtime(0xa9) == 0xd5 && xtime(0xd5) == 0x2d
        && xtime(0x2d) == 0x5a && xtime(0x5a) == 0xb4 && xtime(0xb4) == 0xef && xtime(0xef) == 0x59
        && xtime(0x59) == 0xb2 && xtime(0xb2) == 0xe3 && xtime(0xe3) == 0x41 && xtime(0x41) == 0x82
        && xtime(0x82) == 0x83 && xtime(0x83) == 0x81 && xtime(0x81) == 0x85 && xtime(0x85) == 0x8d
        && xtime(0x8d) == 0x9d && xtime(0x9d) == 0xbd && xtime(0xbd) == 0xfd && xtime(0xfd) == 0x7d
        && xtime(0x7d) == 0xfa && xtime(0xfa) == 0x73 && xtime(0x73) == 0xe6 && xtime(0xe6) == 0x4b
        && xtime(0x4b) == 0x96 && xtime(0x96) == 0xab && xtime(0xab) == 0xd1 && xtime(0xd1) == 0x25
        && xtime(0x25) == 0x4a && xtime(0x4a) == 0x94 && xtime(0x94) == 0xaf && xtime(0xaf) == 0xd9
        && xtime(0xd9) == 0x35 && xtime(0x35) == 0x6a && xtime(0x6a) == 0xd4 && xtime(0xd4) == 0x2f
        && xtime(0x2f) == 0x5e && xtime(0x5e) == 0xbc && xtime(0xbc) == 0xff && xtime(0xff) == 0x79
        && xtime(0x79) == 0xf2 && xtime(0xf2) == 0x63 && xtime(0x63) == 0xc6 && xtime(0xc6) == 0x0b
        && xtime(0x0b) == 0x16 && xtime(0x16) == 0x2c && xtime(0x2c) == 0x58 && xtime(0x58) == 0xb0
        && xtime(0xb0) == 0xe7 && xtime(0xe7) == 0x49 && xtime(0x49) == 0x92 && xtime(0x92) == 0xa3
        && xtime(0xa3) == 0xc1 && xtime(0xc1) == 0x05 && xtime(0x05) == 0x0a && xtime(0x0a) == 0x14
        && xtime(0x14) == 0x28 && xtime(0x28) == 0x50 && xtime(0x50) == 0xa0 && xtime(0xa0) == 0xc7
        && xtime(0xc7) == 0x09 && xtime(0x09) == 0x12 && xtime(0x12) == 0x24 && xtime(0x24) == 0x48
        && xtime(0x48) == 0x90 && xtime(0x90) == 0xa7 && xtime(0xa7) == 0xc9 && xtime(0xc9) == 0x15
        && xtime(0x15) == 0x2a && xtime(0x2a) == 0x54 && xtime(0x54) == 0xa8 && xtime(0xa8) == 0xd7
        && xtime(0xd7) == 0x29 && xtime(0x29) == 0x52 && xtime(0x52) == 0xa4 && xtime(0xa4) == 0xcf
        && xtime(0xcf) == 0x19 && xtime(0x19) == 0x32 && xtime(0x32) == 0x64 && xtime(0x64) == 0xc8
        && xtime(0xc8) == 0x17 && xtime(0x17) == 0x2e && xtime(0x2e) == 0x5c && xtime(0x5c) == 0xb8
        && xtime(0xb8) == 0xf7 && xtime(0xf7) == 0x69 && xtime(0x69) == 0xd2 && xtime(0xd2) == 0x23
        && xtime(0x23) == 0x46 && xtime(0x46) == 0x8c && xtime(0x8c) == 0x9f && xtime(0x9f) == 0xb9
        && xtime(0xb9) == 0xf5 && xtime(0xf5) == 0x6d && xtime(0x6d) == 0xda && xtime(0xda) == 0x33
        && xtime(0x33) == 0x66 && xtime(0x66) == 0xcc && xtime(0xcc) == 0x1f && xtime(0x1f) == 0x3e
        && xtime(0x3e) == 0x7c && xtime(0x7c) == 0xf8 && xtime(0xf8) == 0x77 && xtime(0x77) == 0xee
        && xtime(0xee) == 0x5b && xtime(0x5b) == 0xb6 && xtime(0xb6) == 0xeb && xtime(0xeb) == 0x51
        && xtime(0x51) == 0xa2 && xtime(0xa2) == 0xc3 && xtime(0xc3) == 0x01) by (bit_vector);
}

proof fn lemma_alpha_step(i: int)
    requires
        0 <= i < 254,
    ensures
        xtime(ALPHA_TO@[i]) == ALPHA_TO@[i + 1],
{
    lemma_xtime_table();
}

proof fn lemma_index_of_alpha(i: int)
    requires
        0 <= i < 255,
    ensures
        ALPHA_TO@[i] != 0,
        INDEX_OF@[ALPHA_TO@[i] as int] == i,
{
}

proof fn lemma_alpha_of_index(v: u8)
    requires
        v != 0,
    ensures
        INDEX_OF@[v as int] < 255,
        ALPHA_TO@[INDEX_OF@[v as int] as int] == v,
{
}

/// The tables hold what their names say.
proof fn lemma_tables(i: nat)
    requires
        i < 255,
    ensures
        ALPHA_TO@[i as int] == alpha_pow(i),
        alpha_pow(i) != 0,
        gf_log(alpha_pow(i)) == i,
    decreases i,
{
    reveal(gf_log);
    if i > 0 {
        lemma_tables((i - 1) as nat);
        lemma_alpha_step(i - 1);
    }
    lemma_index_of_alpha(i as int);
}

/// Powers of `alpha` are non-zero, and the logarithm undoes them.
pub proof fn lemma_log_alpha(i: nat)
    requires
        i < 255,
    ensures
        alpha_pow(i) != 0,
        gf_log(alpha_pow(i)) == i,
{
    lemma_tables(i);
}

/// Every non-zero element is a power of `alpha`.
pub proof fn lemma_log(v: u8)
    ensures
        v == 0 <==> gf_log(v) == 255,
        v != 0 ==> gf_log(v) < 255 && alpha_pow(gf_log(v)) == v,
{
    reveal(gf_log);
    if v != 0 {
        lemma_alpha_of_index(v);
        lemma_tables(gf_log(v));
    }
}

/// `alpha` to the 255th is one.
pub proof fn lemma_last_step()
    ensures
        alpha_pow(255) == 1,
{
    lemma_tables(254);
    lemma_xtime_table();
}

/// `alpha^index` for an index below 255.
pub fn alpha_to(index: usize) -> (r: u8)
    requires
        index < 255,
    ensures
        r == alpha_pow(index as nat),
        r != 0,
{
    proof {
        lemma_tables(index as nat);
    }
    ALPHA_TO[index]
}

/// The logarithm of `value`, or 255 when `value` is zero.
pub fn index_of(value: u8) -> (r: u8)
    ensures
        r as nat == gf_log(value),
        value == 0 <==> r == 255,
        value != 0 ==> alpha_pow(r as nat) == value,
{
    proof {
        lemma_log(value);
        reveal(gf_log);
    }
    INDEX_OF[value as usize]
}

} // verus!
