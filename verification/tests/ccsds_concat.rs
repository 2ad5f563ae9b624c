//! CCSDS concatenated frames.
use openhoshimi::ccsds_concat::{
    differential_decode, differential_encode, CcsdsConcatDecoder, RsBasis,
    CCSDS_CONCAT_CODED_BITS,
};
use openhoshimi::{ccsds_randomizer, reed_solomon, viterbi};

#[test]
fn roundtrip_hard_decision() {
    // Build a 223-byte payload, RS encode, scramble, differential encode,
    // Viterbi encode, then decode and verify.
    let payload: Vec<u8> = (0..223u8).collect();

    // RS encode (223 → 255 bytes).
    let rs_codeword = reed_solomon::encode_shortened(&payload, 1);
    assert_eq!(rs_codeword.len(), 255);

    // CCSDS scramble.
    let mut scrambled = rs_codeword.clone();
    ccsds_randomizer::xor_sequence(&mut scrambled);

    // Unpack to bits (MSB first).
    let mut bits: Vec<u8> = Vec::with_capacity(scrambled.len() * 8);
    for byte in &scrambled {
        for shift in (0..8).rev() {
            bits.push((byte >> shift) & 1);
        }
    }

    // Differential encode.
    let diff_bits = differential_encode(&bits);

    // Viterbi encode (rate 1/2).
    let coded = viterbi::encode_bits(&diff_bits);
    assert_eq!(coded.len(), CCSDS_CONCAT_CODED_BITS);

    // Decode.
    let decoder = CcsdsConcatDecoder::new(223, true, RsBasis::Conventional);
    let frame = decoder.decode(&coded).expect("roundtrip decode");
    assert_eq!(frame.payload, payload);
    assert_eq!(frame.corrected_errors, 0);
}

#[test]
fn roundtrip_with_bit_errors() {
    let payload: Vec<u8> = (0..223u8).map(|i| i.wrapping_mul(7)).collect();
    let rs_codeword = reed_solomon::encode_shortened(&payload, 1);
    let mut scrambled = rs_codeword;
    ccsds_randomizer::xor_sequence(&mut scrambled);
    let mut bits: Vec<u8> = Vec::with_capacity(scrambled.len() * 8);
    for byte in &scrambled {
        for shift in (0..8).rev() {
            bits.push((byte >> shift) & 1);
        }
    }
    let diff_bits = differential_encode(&bits);
    let mut coded = viterbi::encode_bits(&diff_bits);

    // Introduce a few bit errors in the coded stream.
    coded[100] ^= 1;
    coded[200] ^= 1;
    coded[500] ^= 1;
    coded[1000] ^= 1;
    coded[2000] ^= 1;

    let decoder = CcsdsConcatDecoder::new(223, true, RsBasis::Conventional);
    let frame = decoder.decode(&coded).expect("should correct errors");
    assert_eq!(frame.payload, payload);
}

#[test]
fn ccsds_concat_rejects_wrong_length() {
    let decoder = CcsdsConcatDecoder::new(223, true, RsBasis::Conventional);
    assert!(decoder.decode(&[0u8; 100]).is_err());
    assert!(decoder.decode_soft(&[0i8; 100]).is_err());
}

#[test]
fn differential_encode_decode_roundtrip() {
    let bits: Vec<u8> = (0..100u8).map(|i| i & 1).collect();
    let encoded = differential_encode(&bits);
    let decoded = differential_decode(&encoded);
    // First bit may differ (no reference), rest must match.
    assert_eq!(&decoded[1..], &bits[1..]);
}

#[test]
fn soft_samples_decode_like_bits() {
    let payload: Vec<u8> = (0..223u8).map(|i| i ^ 0x5a).collect();
    let mut word = reed_solomon::encode_shortened(&payload, 1);
    ccsds_randomizer::xor_sequence(&mut word);
    let bits = openhoshimi::bits::unpack_msb_bits(&word);
    let coded = viterbi::encode_bits(&bits);
    let soft: Vec<i8> = coded.iter().map(|b| if *b == 0 { 64 } else { -64 }).collect();
    let decoder = CcsdsConcatDecoder::new(223, false, RsBasis::Conventional);
    assert_eq!(decoder.decode_soft(&soft).expect("soft").payload, payload);
    assert_eq!(decoder.decode(&coded).expect("hard").payload, payload);
}

#[test]
fn sixteen_wrong_bytes_are_repaired() {
    let payload: Vec<u8> = (0..223u8).map(|i| i ^ 0x3C).collect();
    let mut word = reed_solomon::encode_shortened(&payload, 1);
    ccsds_randomizer::xor_sequence(&mut word);
    for i in 0..16 {
        word[3 + 13 * i] ^= 0xA5;
    }
    let bits = openhoshimi::bits::unpack_msb_bits(&word);
    let coded = viterbi::encode_bits(&bits);
    let decoder = CcsdsConcatDecoder::new(200, false, RsBasis::Conventional);
    let frame = decoder.decode(&coded).expect("repairable frame");
    assert_eq!(frame.payload, payload[..200]);
    assert_eq!(frame.corrected_errors, 16);
}

#[test]
fn inverted_bits_decode_alike() {
    let bits: Vec<u8> = (0..40u32).map(|i| (i * i % 7 % 2) as u8).collect();
    let inverted: Vec<u8> = bits.iter().map(|b| 1 - b).collect();
    assert_eq!(differential_decode(&inverted)[1..], differential_decode(&bits)[1..]);
}
