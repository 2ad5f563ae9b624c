//! The SSDV Reed-Solomon code.
use openhoshimi::rs8::{decode, encode, RsError};

const NN: usize = 255;
const NROOTS: usize = 32;

fn make_codeword(seed: u8) -> [u8; NN] {
    let mut block = [0u8; NN];
    for (i, byte) in block[..NN - NROOTS].iter_mut().enumerate() {
        *byte = seed.wrapping_add(i as u8).wrapping_mul(31);
    }
    encode(&mut block).expect("encode");
    block
}

#[test]
fn clean_codeword_decodes_to_zero_errors() {
    let mut block = make_codeword(0xA5);
    assert_eq!(decode(&mut block), Ok(0));
}

#[test]
fn corrects_up_to_sixteen_errors() {
    let original = make_codeword(0x42);
    let mut block = original;
    let positions = [
        3usize, 17, 41, 67, 89, 105, 130, 150, 170, 188, 200, 210, 220, 230, 240, 252,
    ];
    assert_eq!(positions.len(), 16);
    for &p in positions.iter() {
        block[p] ^= 0xA7;
    }
    let corrected = decode(&mut block).expect("decode");
    assert_eq!(corrected, 16);
    assert_eq!(block, original);
}

#[test]
fn seventeen_errors_are_uncorrectable() {
    let mut block = make_codeword(0x99);
    let positions = [
        1usize, 5, 9, 13, 17, 21, 25, 29, 33, 37, 41, 45, 49, 53, 57, 61, 65,
    ];
    for &p in positions.iter() {
        block[p] ^= 0xFF;
    }
    // RS(255,223) cannot correct 17 errors; expect either an
    // explicit Uncorrectable result or a miscorrection. Either
    // way, the decoder must not silently treat the block as clean.
    match decode(&mut block) {
        Err(RsError::Uncorrectable) => {}
        Ok(n) => assert!(
            n > 0,
            "decoder must report errors when syndromes are non-zero"
        ),
        other => panic!("unexpected result: {other:?}"),
    }
}

#[test]
fn rs8_rejects_wrong_length() {
    let mut buf = [0u8; 100];
    assert_eq!(decode(&mut buf), Err(RsError::BadLength));
}

#[test]
fn messages_name_the_fault() {
    assert_eq!(RsError::BadLength.message(), "RS block must be 255 bytes");
    assert_eq!(RsError::Uncorrectable.message(), "RS block has uncorrectable errors");
}
