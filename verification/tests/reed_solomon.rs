//! Shortened, interleaved Reed-Solomon blocks.
use openhoshimi::reed_solomon::{
    decode_shortened, decode_shortened_with_erasures, encode_shortened,
};
use openhoshimi::rs_code::PARITY_LEN;

#[test]
fn shortened_round_trip_with_no_errors() {
    let message: Vec<u8> = (0..128).collect();
    let encoded = encode_shortened(&message, 1);
    let decoded = match decode_shortened(&encoded, 1) {
        Ok(decoded) => decoded,
        Err(err) => panic!("valid RS codeword: {err:?}"),
    };

    assert_eq!(decoded.message, message);
    assert_eq!(decoded.corrected_errors, 0);
}

#[test]
fn shortened_interleaved_round_trip_with_no_errors() {
    let message: Vec<u8> = (0..=255).collect();
    let encoded = encode_shortened(&message, 2);
    let decoded = match decode_shortened(&encoded, 2) {
        Ok(decoded) => decoded,
        Err(err) => panic!("valid interleaved RS codeword: {err:?}"),
    };

    assert_eq!(decoded.message, message);
    assert_eq!(decoded.corrected_errors, 0);
}

#[test]
fn shortened_corrects_errors() {
    let message: Vec<u8> = (0..160).collect();
    let mut encoded = encode_shortened(&message, 1);
    encoded[3] ^= 0x55;

    let decoded = match decode_shortened(&encoded, 1) {
        Ok(decoded) => decoded,
        Err(err) => panic!("damaged RS codeword should be corrected: {err:?}"),
    };

    assert_eq!(decoded.message, message);
    assert!(decoded.corrected_errors > 0);
}

#[test]
fn shortened_corrects_pure_erasures_at_capacity() {
    // 16 erasures, 0 errors: 2*0 + 16 = 16 = nroots, decoder must
    // recover exactly.
    let message: Vec<u8> = (0..160).collect();
    let mut encoded = encode_shortened(&message, 1);
    let mut erasures = Vec::with_capacity(PARITY_LEN / 2);
    for k in 0..(PARITY_LEN / 2) {
        let pos = 5 + k * 7;
        encoded[pos] ^= 0xa5;
        erasures.push(pos);
    }

    let decoded = match decode_shortened_with_erasures(&encoded, 1, &erasures) {
        Ok(d) => d,
        Err(err) => panic!("pure erasures within capacity must decode: {err:?}"),
    };
    assert_eq!(decoded.message, message);
}

#[test]
fn shortened_corrects_errors_plus_erasures_within_capacity() {
    // 4 errors + 8 erasures: 2*4 + 8 = 16 = nroots, at capacity.
    let message: Vec<u8> = (0..160).collect();
    let mut encoded = encode_shortened(&message, 1);
    let mut erasures = Vec::new();
    for k in 0..8 {
        let pos = 7 + k * 5;
        encoded[pos] ^= 0xc3;
        erasures.push(pos);
    }
    // Hard errors the decoder must locate without prior knowledge.
    for k in 0..4 {
        let pos = 80 + k * 11;
        encoded[pos] ^= 0x5a;
    }

    let decoded = match decode_shortened_with_erasures(&encoded, 1, &erasures) {
        Ok(d) => d,
        Err(err) => panic!("errors+erasures within capacity must decode: {err:?}"),
    };
    assert_eq!(decoded.message, message);
}

#[test]
fn shortened_rejects_errors_plus_erasures_over_capacity() {
    // 21 hard errors + 8 erasures: deg(true error) = 29, but the
    // generalized capacity bound `2*deg <= nroots + no_eras`
    // permits at most deg = (32+8)/2 = 20. Decoding must fail
    // rather than silently produce a different codeword.
    let message: Vec<u8> = (0..160).collect();
    let mut encoded = encode_shortened(&message, 1);
    let mut erasures = Vec::new();
    for k in 0..8 {
        let pos = 7 + k * 5;
        encoded[pos] ^= 0xc3;
        erasures.push(pos);
    }
    for k in 0..21 {
        let pos = 80 + k * 3;
        encoded[pos] ^= 0x5a;
    }

    if let Ok(decoded) = decode_shortened_with_erasures(&encoded, 1, &erasures) {
        assert_ne!(
            decoded.message, message,
            "decoder must not silently succeed past capacity"
        );
    }
}

#[test]
fn shortened_clean_codeword_with_erasures_is_unchanged() {
    // Marking erasures on an unblemished codeword must not
    // corrupt the recovered message.
    let message: Vec<u8> = (0..160).collect();
    let encoded = encode_shortened(&message, 1);
    let erasures = vec![3, 47, 99];

    let decoded = match decode_shortened_with_erasures(&encoded, 1, &erasures) {
        Ok(d) => d,
        Err(err) => panic!("clean codeword must decode regardless of erasures: {err:?}"),
    };
    assert_eq!(decoded.message, message);
    assert_eq!(decoded.corrected_errors, 0);
}

#[test]
fn shortened_interleaved_corrects_per_path_erasures() {
    // Interleave 2: each path independently sees its own
    // 4 errors + 8 erasures, so the joint decode is at capacity
    // for both blocks simultaneously.
    let message: Vec<u8> = (0..=255).collect();
    let mut encoded = encode_shortened(&message, 2);
    let mut erasures = Vec::new();
    for path in 0..2usize {
        for k in 0..8 {
            let pos_in_path = 9 + k * 5;
            let pos = path + pos_in_path * 2;
            encoded[pos] ^= 0xa3;
            erasures.push(pos);
        }
        for k in 0..4 {
            let pos_in_path = 80 + k * 11;
            let pos = path + pos_in_path * 2;
            encoded[pos] ^= 0xc5;
        }
    }

    let decoded = match decode_shortened_with_erasures(&encoded, 2, &erasures) {
        Ok(d) => d,
        Err(err) => panic!("interleaved errors+erasures must decode: {err:?}"),
    };
    assert_eq!(decoded.message, message);
}

#[test]
fn sixteen_errors_are_repaired_and_counted() {
    let message: Vec<u8> = (0..223).map(|i| (i * 11 % 256) as u8).collect();
    let mut encoded = encode_shortened(&message, 1);
    for k in 0..16 {
        encoded[3 + 15 * k] ^= (k + 1) as u8;
    }
    let decoded = decode_shortened(&encoded, 1).expect("sixteen errors");
    assert_eq!(decoded.message, message);
    assert_eq!(decoded.corrected_errors, 16);
}

#[test]
fn damage_is_counted_over_all_paths() {
    let message: Vec<u8> = (0..120).map(|i| (i * 7 % 256) as u8).collect();
    let mut encoded = encode_shortened(&message, 3);
    for k in [0, 1, 2, 5, 100, 101, 130, 215] {
        encoded[k] ^= 0x81;
    }
    let decoded = decode_shortened(&encoded, 3).expect("eight errors");
    assert_eq!(decoded.message, message);
    assert_eq!(decoded.corrected_errors, 8);
}
