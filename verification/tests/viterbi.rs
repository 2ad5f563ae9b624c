//! Viterbi decoding of the rate 1/2 code.
use openhoshimi::model::DecodeError;
use openhoshimi::viterbi::{decode_bits, decode_soft_bits, encode_bits};

#[test]
fn decodes_clean_symbols() {
    let bits: Vec<u8> = (0..96).map(|i| u8::from(i % 5 == 0)).collect();
    let symbols = encode_bits(&bits);
    let decoded = match decode_bits(&symbols) {
        Ok(decoded) => decoded,
        Err(err) => panic!("valid Viterbi symbols: {err:?}"),
    };

    assert_eq!(decoded, bits);
}

#[test]
fn corrects_single_symbol_error() {
    let bits: Vec<u8> = (0..128).map(|i| u8::from(i % 7 < 3)).collect();
    let mut symbols = encode_bits(&bits);
    symbols[17] ^= 1;
    let decoded = match decode_bits(&symbols) {
        Ok(decoded) => decoded,
        Err(err) => panic!("correctable Viterbi symbols: {err:?}"),
    };

    assert_eq!(decoded, bits);
}

#[test]
fn rejects_odd_symbol_count() {
    let err = match decode_bits(&[0, 1, 1]) {
        Ok(_) => panic!("odd symbol count should fail"),
        Err(err) => err,
    };

    assert!(matches!(err, DecodeError::InvalidEncoding(_)));
}

fn soft_from_hard(symbols: &[u8], scale: i8) -> Vec<i8> {
    symbols
        .iter()
        .map(|bit| if bit & 1 == 0 { scale } else { -scale })
        .collect()
}

#[test]
fn soft_decodes_clean_symbols() {
    let bits: Vec<u8> = (0..96).map(|i| u8::from(i % 5 == 0)).collect();
    let hard = encode_bits(&bits);
    let soft = soft_from_hard(&hard, 64);

    let decoded = match decode_soft_bits(&soft) {
        Ok(decoded) => decoded,
        Err(err) => panic!("valid soft Viterbi symbols: {err:?}"),
    };

    assert_eq!(decoded, bits);
}

#[test]
fn soft_corrects_more_errors_than_hard() {
    // Construct a deterministic 256-bit message and inject the same
    // dense pattern of channel errors into the hard-bit stream and
    // the matching soft stream. Soft decoding should still recover
    // the message in cases where hard fails because magnitude carries
    // confidence about the unflipped symbols.
    let bits: Vec<u8> = (0..256).map(|i| u8::from(i % 3 == 0)).collect();
    let hard = encode_bits(&bits);
    let mut hard_corrupt = hard.clone();
    let mut soft_corrupt = soft_from_hard(&hard, 64);
    for index in (5..hard_corrupt.len()).step_by(11) {
        hard_corrupt[index] ^= 1;
        // Flip the soft sign but keep a smaller magnitude: this is
        // an unreliable received bit, which is exactly what soft
        // decoding is designed to deweight.
        soft_corrupt[index] = -soft_corrupt[index] / 4;
    }

    let soft_decoded = match decode_soft_bits(&soft_corrupt) {
        Ok(decoded) => decoded,
        Err(err) => panic!("correctable soft symbols: {err:?}"),
    };
    assert_eq!(soft_decoded, bits);
}

#[test]
fn encoder_emits_two_symbols_per_bit() {
    // One set bit walks through the register: the outputs are the taps of the two
    // generators, read from the newest bit on. The second output is inverted.
    let symbols = encode_bits(&[1, 0, 0, 0, 0, 0, 0]);
    assert_eq!(symbols.len(), 14);
    let first: Vec<u8> = symbols.iter().step_by(2).copied().collect();
    let second: Vec<u8> = symbols.iter().skip(1).step_by(2).copied().collect();
    assert_eq!(first, [1, 1, 1, 1, 0, 0, 1]);
    assert_eq!(second, [0, 1, 0, 0, 1, 0, 0]);
}
