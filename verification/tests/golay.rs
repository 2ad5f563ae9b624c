//! The extended Golay code.
use openhoshimi::golay::{decode, encode};
use openhoshimi::model::DecodeError;

#[test]
fn decodes_clean_word() {
    let encoded = encode(0x5a3);
    let decoded = match decode(encoded) {
        Ok(decoded) => decoded,
        Err(err) => panic!("valid Golay word: {err:?}"),
    };

    assert_eq!(decoded.data, 0x5a3);
    assert_eq!(decoded.corrected_errors, 0);
}

#[test]
fn corrects_three_bit_errors() {
    let encoded = encode(0x2a5);
    let damaged = encoded ^ (1 << 23) ^ (1 << 9) ^ 1;
    let decoded = match decode(damaged) {
        Ok(decoded) => decoded,
        Err(err) => panic!("correctable Golay word: {err:?}"),
    };

    assert_eq!(decoded.data, 0x2a5);
    assert_eq!(decoded.corrected_errors, 3);
}

#[test]
fn rejects_uncorrectable_word() {
    let encoded = encode(0x2a5);
    let damaged = encoded ^ 0x00f0_f00f;
    let err = match decode(damaged) {
        Ok(_) => panic!("uncorrectable Golay word should fail"),
        Err(err) => err,
    };

    assert!(matches!(err, DecodeError::InvalidEncoding(_)));
}

#[test]
fn every_word_survives_two_flipped_bits() {
    for data in 0..4096u16 {
        let word = encode(data);
        let a = u32::from(data) % 24;
        let b = (a + 1 + u32::from(data / 24) % 23) % 24;
        let decoded = decode(word ^ (1 << a) ^ (1 << b)).expect("two errors");
        assert_eq!(decoded.data, data);
        assert_eq!(decoded.corrected_errors, 2);
    }
}
