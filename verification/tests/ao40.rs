//! AO-40 block decoding.
use openhoshimi::ao40::{
    ao40_syncword_bits, Ao40FecDecoder, Ao40FecEncoder, AO40_INTERLEAVE, AO40_POST_VITERBI_BITS,
};
use openhoshimi::bits::unpack_msb_bits;
use openhoshimi::model::DecodeError;
use openhoshimi::{ccsds_randomizer, reed_solomon, viterbi};

#[test]
fn decodes_post_viterbi_bytes() {
    let payload: Vec<u8> = (0..=255).collect();
    let mut codeword = reed_solomon::encode_shortened(&payload, AO40_INTERLEAVE);
    ccsds_randomizer::xor_sequence(&mut codeword);
    let mut post_viterbi = codeword;
    post_viterbi.push(0);

    let decoder = Ao40FecDecoder::new();
    let frame = match decoder.decode_post_viterbi_bytes(&post_viterbi) {
        Ok(frame) => frame,
        Err(err) => panic!("valid AO-40 post-Viterbi data: {err:?}"),
    };

    assert_eq!(frame.payload, payload);
    assert_eq!(frame.corrected_errors, 0);
}

#[test]
fn decodes_post_viterbi_bits() {
    let payload: Vec<u8> = (0..=255).rev().collect();
    let mut codeword = reed_solomon::encode_shortened(&payload, AO40_INTERLEAVE);
    ccsds_randomizer::xor_sequence(&mut codeword);
    let mut post_viterbi = codeword;
    post_viterbi.push(0);
    let bits = unpack_msb_bits(&post_viterbi);

    let decoder = Ao40FecDecoder::new();
    let frame = match decoder.decode_post_viterbi_bits(&bits[..AO40_POST_VITERBI_BITS]) {
        Ok(frame) => frame,
        Err(err) => panic!("valid AO-40 post-Viterbi bits: {err:?}"),
    };

    assert_eq!(frame.payload, payload);
}

#[test]
fn decodes_channel_bits() {
    let payload: Vec<u8> = (0..=255).collect();
    let mut codeword = reed_solomon::encode_shortened(&payload, AO40_INTERLEAVE);
    ccsds_randomizer::xor_sequence(&mut codeword);
    let mut post_viterbi = codeword;
    post_viterbi.push(0);
    let bits = unpack_msb_bits(&post_viterbi);
    let mut symbols = viterbi::encode_bits(&bits[..AO40_POST_VITERBI_BITS]);
    symbols.push(0);

    let decoder = Ao40FecDecoder::new();
    let frame = match decoder.decode_channel_bits(&symbols) {
        Ok(frame) => frame,
        Err(err) => panic!("valid AO-40 channel bits: {err:?}"),
    };

    assert_eq!(frame.payload, payload);
}

#[test]
fn syncword_has_expected_length() {
    let sync = ao40_syncword_bits();

    assert_eq!(sync.len(), 65);
    assert_eq!(&sync[..7], &[1, 1, 1, 1, 1, 1, 1]);
}

#[test]
fn channel_round_trip_hard_and_soft() {
    let payload: Vec<u8> = (0..256).map(|i| (i * 37 % 251) as u8).collect();
    let bits = Ao40FecEncoder::new().encode_to_channel_bits(&payload).expect("encode");
    assert_eq!(bits.len(), 5132);
    let decoder = Ao40FecDecoder::new();
    assert_eq!(decoder.decode_channel_bits(&bits).expect("hard").payload, payload);
    let soft: Vec<i8> = bits.iter().map(|b| if *b == 0 { 100 } else { -100 }).collect();
    assert_eq!(decoder.decode_soft_channel_bits(&soft).expect("soft").payload, payload);
}

#[test]
fn wrong_lengths_are_refused() {
    let err = Ao40FecEncoder::new().encode_to_channel_bits(&[0u8; 10]).unwrap_err();
    assert_eq!(err.message(), "Invalid encoding: AO-40 payload must be 256 bytes, got 10");
    let decoder = Ao40FecDecoder::new();
    assert!(matches!(
        decoder.decode_post_viterbi_bytes(&[0u8; 5]),
        Err(DecodeError::TooShort(5))
    ));
    assert!(matches!(decoder.decode_post_viterbi_bits(&[0u8; 80]), Err(DecodeError::TooShort(10))));
    assert!(matches!(decoder.decode_channel_bits(&[0u8; 80]), Err(DecodeError::TooShort(10))));
    assert!(matches!(decoder.decode_soft_channel_bits(&[0i8; 80]), Err(DecodeError::TooShort(10))));
}

#[test]
fn noise_is_a_crc_mismatch() {
    let noise: Vec<u8> = (0..321u32).map(|i| (i.wrapping_mul(2654435761) >> 13) as u8).collect();
    let err = Ao40FecDecoder::new().decode_post_viterbi_bytes(&noise).unwrap_err();
    assert!(matches!(err, DecodeError::CrcMismatch));
    assert_eq!(err.message(), "CRC mismatch");
}

#[test]
fn sixteen_wrong_bytes_per_codeword_are_repaired() {
    let payload: Vec<u8> = (0..=255).map(|i: u8| i.wrapping_mul(31)).collect();
    let mut codeword = reed_solomon::encode_shortened(&payload, AO40_INTERLEAVE);
    ccsds_randomizer::xor_sequence(&mut codeword);
    // Byte `i` belongs to codeword `i % 2`.
    for i in 0..32 {
        codeword[7 + 5 * i] ^= 0x5A;
    }
    codeword.push(0);
    let frame = match Ao40FecDecoder::new().decode_post_viterbi_bytes(&codeword) {
        Ok(frame) => frame,
        Err(err) => panic!("repairable block: {err:?}"),
    };
    assert_eq!(frame.payload, payload);
    assert_eq!(frame.corrected_errors, 32);
}
