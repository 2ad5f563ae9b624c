//! Geoscan frames.
use openhoshimi::geoscan::{
    cc11xx_crc16, GeoscanDecoder, GEOSCAN_FRAME_LEN, GEOSCAN_PAYLOAD_LEN,
};
use openhoshimi::model::DecodeError;
use openhoshimi::pn9::Pn9Whitener;

#[test]
fn crc_known_vector_ones() {
    // Sanity: per the CC1101 datasheet "check" example, the CRC of
    // "123456789" under this parameter set is 0xAEE7. Acts as a
    // regression guard for the polynomial constants.
    let crc = cc11xx_crc16(b"123456789");
    assert_eq!(crc, 0xAEE7);
}

#[test]
fn round_trip_known_payload() {
    // Build a synthetic frame: payload of incrementing bytes, append
    // its CRC, whiten the whole 66-byte block, then feed it back to
    // the decoder. The decoder must restore the original payload and
    // report a passing CRC.
    let mut payload = [0u8; GEOSCAN_PAYLOAD_LEN];
    for (i, b) in payload.iter_mut().enumerate() {
        *b = i as u8;
    }
    let crc = cc11xx_crc16(&payload);

    let mut frame = [0u8; GEOSCAN_FRAME_LEN];
    frame[..GEOSCAN_PAYLOAD_LEN].copy_from_slice(&payload);
    frame[GEOSCAN_PAYLOAD_LEN..].copy_from_slice(&crc.to_be_bytes());
    Pn9Whitener::new().descramble(&mut frame);

    let decoded = match GeoscanDecoder::new().decode(&frame) {
        Ok(f) => f,
        Err(e) => panic!("decode failed: {e:?}"),
    };
    assert!(
        decoded.crc_ok,
        "crc_received={:#06x} crc_expected={:#06x}",
        decoded.crc_received, decoded.crc_expected
    );
    assert_eq!(decoded.payload, payload);
}

#[test]
fn crc_failure_still_yields_payload() {
    let payload = [0xAA; GEOSCAN_PAYLOAD_LEN];
    let crc = cc11xx_crc16(&payload);

    let mut frame = [0u8; GEOSCAN_FRAME_LEN];
    frame[..GEOSCAN_PAYLOAD_LEN].copy_from_slice(&payload);
    frame[GEOSCAN_PAYLOAD_LEN..].copy_from_slice(&crc.to_be_bytes());
    Pn9Whitener::new().descramble(&mut frame);

    // Corrupt one byte after whitening to simulate a channel error.
    frame[10] ^= 0x01;

    let decoded = match GeoscanDecoder::new().decode(&frame) {
        Ok(f) => f,
        Err(e) => panic!("decode failed: {e:?}"),
    };
    assert!(!decoded.crc_ok);
    assert_eq!(decoded.payload.len(), GEOSCAN_PAYLOAD_LEN);
}

#[test]
fn rejects_short_input() {
    let buf = [0u8; GEOSCAN_FRAME_LEN - 1];
    match GeoscanDecoder::new().decode(&buf) {
        Err(DecodeError::TooShort(n)) => assert_eq!(n, GEOSCAN_FRAME_LEN - 1),
        other => panic!("expected TooShort, got {other:?}"),
    }
}

#[test]
fn long_input_is_cut_to_a_frame() {
    let payload = [0x3C; GEOSCAN_PAYLOAD_LEN];
    let crc = cc11xx_crc16(&payload);
    let mut frame = [0u8; GEOSCAN_FRAME_LEN];
    frame[..GEOSCAN_PAYLOAD_LEN].copy_from_slice(&payload);
    frame[GEOSCAN_PAYLOAD_LEN..].copy_from_slice(&crc.to_be_bytes());
    Pn9Whitener::new().descramble(&mut frame);
    let mut longer = frame.to_vec();
    longer.extend_from_slice(&[1, 2, 3]);
    let decoded = GeoscanDecoder::new().decode(&longer).expect("frame");
    assert!(decoded.crc_ok);
    assert_eq!(decoded.payload, payload);
}

#[test]
fn every_flipped_bit_fails_the_crc16() {
    let payload: Vec<u8> = (0..GEOSCAN_PAYLOAD_LEN as u8).map(|i| i.wrapping_mul(29)).collect();
    let crc = cc11xx_crc16(&payload);
    let mut frame = [0u8; GEOSCAN_FRAME_LEN];
    frame[..GEOSCAN_PAYLOAD_LEN].copy_from_slice(&payload);
    frame[GEOSCAN_PAYLOAD_LEN..].copy_from_slice(&crc.to_be_bytes());
    Pn9Whitener::new().descramble(&mut frame);
    assert!(GeoscanDecoder::new().decode(&frame).expect("frame").crc_ok);
    for bit in 0..8 * GEOSCAN_FRAME_LEN {
        let mut damaged = frame;
        damaged[bit / 8] ^= 1 << (bit % 8);
        assert!(!GeoscanDecoder::new().decode(&damaged).expect("frame").crc_ok);
    }
}
