//! AX100 packets.
use openhoshimi::ax100::{Ax100Decoder, Ax100Mode, ASM_GOLAY_HEADER_LEN};
use openhoshimi::model::DecodeError;
use openhoshimi::rs_code::PARITY_LEN;
use openhoshimi::{ccsds_randomizer, crc32c, golay, reed_solomon};

/// Length of the length field of a Reed-Solomon mode packet.
const RS_HEADER_LEN: usize = 1;

/// Reliabilities of soft samples: the magnitudes in an order-preserving integer form.
fn reliabilities(soft: &[f32]) -> Vec<u32> {
    soft.iter().map(|s| s.abs().to_bits()).collect()
}

/// Build a GreenCube / IO-117 ASM+Golay+CRC packet from a CSP frame:
/// append the CRC-32C trailer, pad with `PARITY_LEN` placeholder
/// parity bytes (a systematic RS codeword's parity region, which this
/// decoder strips without decoding), CCSDS-scramble the whole field,
/// and prepend the Golay length header.
fn build_crc_packet(csp_frame: &[u8]) -> Vec<u8> {
    let mut field = csp_frame.to_vec();
    field.extend_from_slice(&crc32c::checksum(csp_frame).to_be_bytes());
    field.extend(std::iter::repeat(0xAB).take(PARITY_LEN));
    ccsds_randomizer::xor_sequence(&mut field);
    let header = golay::encode(field.len() as u16);
    let mut packet = vec![
        ((header >> 16) & 0xff) as u8,
        ((header >> 8) & 0xff) as u8,
        (header & 0xff) as u8,
    ];
    packet.extend_from_slice(&field);
    packet
}

#[test]
fn decodes_asm_golay_crc_greencube_frame() {
    let csp_frame = b"\x82\x97\x64\x00\x1d\x03R7LP>CQ, GreenCube, STORE=0 KN96";
    let packet = build_crc_packet(csp_frame);

    let decoder = Ax100Decoder::new();
    let frame = decoder
        .decode_asm_golay_crc(&packet)
        .expect("valid GreenCube ASM+Golay+CRC packet");

    assert_eq!(frame.mode, Ax100Mode::AsmGolayCrc);
    assert_eq!(frame.payload, csp_frame);
    assert_eq!(frame.crc_ok, Some(true));
    assert!(frame.flags.scrambler);
    assert!(!frame.flags.reed_solomon);
}

#[test]
fn asm_golay_crc_flags_bit_error_as_crc_failure() {
    let csp_frame = b"\x82\x97\x64\x00\x1d\x03R7LP>CQ, GreenCube, STORE=0 KN96";
    let mut packet = build_crc_packet(csp_frame);
    // Flip a bit inside the message region (after the 3-byte header).
    packet[10] ^= 0x01;

    let decoder = Ax100Decoder::new();
    let frame = decoder
        .decode_asm_golay_crc(&packet)
        .expect("packet still parses structurally");
    assert_eq!(frame.crc_ok, Some(false));
}

#[test]
fn decodes_reed_solomon_mode_packet() {
    let payload = b"csp-payload";
    let codeword = reed_solomon::encode_shortened(payload, 1);
    let mut packet = Vec::new();
    packet.push((payload.len() + PARITY_LEN + RS_HEADER_LEN) as u8);
    packet.extend_from_slice(&codeword);

    let decoder = Ax100Decoder::new();
    let frame = match decoder.decode_reed_solomon(&packet) {
        Ok(frame) => frame,
        Err(err) => panic!("valid AX100 Reed-Solomon packet: {err:?}"),
    };

    assert_eq!(frame.mode, Ax100Mode::ReedSolomon);
    assert_eq!(frame.payload, payload);
    assert_eq!(frame.corrected_errors, 0);
}

#[test]
fn decodes_asm_golay_packet_with_scrambler_and_rs() {
    let payload = b"asm-golay-payload";
    let mut encoded_payload = reed_solomon::encode_shortened(payload, 1);
    ccsds_randomizer::xor_sequence(&mut encoded_payload);

    let header = golay::encode(encoded_payload.len() as u16);
    let mut packet = vec![
        ((header >> 16) & 0xff) as u8,
        ((header >> 8) & 0xff) as u8,
        (header & 0xff) as u8,
    ];
    packet.extend_from_slice(&encoded_payload);

    let decoder = Ax100Decoder::new();
    let frame = match decoder.decode_asm_golay(&packet) {
        Ok(frame) => frame,
        Err(err) => panic!("valid AX100 ASM+Golay packet: {err:?}"),
    };

    assert_eq!(frame.mode, Ax100Mode::AsmGolay);
    assert_eq!(frame.payload, payload);
    assert!(frame.flags.scrambler);
    assert!(frame.flags.reed_solomon);
}

#[test]
fn corrects_damaged_reed_solomon_packet() {
    let payload = b"csp-payload";
    let codeword = reed_solomon::encode_shortened(payload, 1);
    let mut packet = Vec::new();
    packet.push((payload.len() + PARITY_LEN + RS_HEADER_LEN) as u8);
    packet.extend_from_slice(&codeword);
    packet[4] ^= 0x20;

    let decoder = Ax100Decoder::new();
    let frame = match decoder.decode_reed_solomon(&packet) {
        Ok(frame) => frame,
        Err(err) => panic!("damaged AX100 packet should be corrected: {err:?}"),
    };

    assert_eq!(frame.payload, payload);
    assert!(frame.corrected_errors > 0);
}

#[test]
fn soft_recovers_packet_beyond_hard_capacity() {
    // Construct a valid AX.100 ASM+Golay packet (216-byte CSP-style
    // payload to exercise a near-full RS codeword), then corrupt 24
    // payload bytes. Hard-decision RS caps at 16 errors, so it must
    // fail; the soft-decision path with K=24 erasures should
    // recover the original payload, since 2*0 + 24 <= 32 = nroots.
    let payload: Vec<u8> = (0..216).map(|i| (i ^ 0xa5) as u8).collect();

    // Encode + scramble
    let mut encoded_payload = reed_solomon::encode_shortened(&payload, 1);
    ccsds_randomizer::xor_sequence(&mut encoded_payload);
    let header = golay::encode(encoded_payload.len() as u16);
    let mut packet = vec![
        ((header >> 16) & 0xff) as u8,
        ((header >> 8) & 0xff) as u8,
        (header & 0xff) as u8,
    ];
    packet.extend_from_slice(&encoded_payload);

    // Corrupt 24 bytes inside the RS codeword region. These will
    // be the lowest-confidence bytes via the soft samples below.
    let corruption_positions: Vec<usize> = (0..24).map(|k| 5 + k * 9).collect();
    for &i in &corruption_positions {
        let pos = ASM_GOLAY_HEADER_LEN + i;
        packet[pos] ^= 0xc3;
    }

    // Build a soft sample vector aligned with packet bits: high
    // confidence (+/-1.0) everywhere, low confidence (+/-0.05) at
    // the eight bits of each corrupted byte. The decoder ranks by
    // ascending min |soft|, so corrupted bytes sort first.
    let mut soft = vec![0.0f32; packet.len() * 8];
    for (byte_idx, byte) in packet.iter().enumerate() {
        for bit_idx in 0..8 {
            let bit = (byte >> (7 - bit_idx)) & 1;
            let sign = if bit == 1 { 1.0 } else { -1.0 };
            soft[byte_idx * 8 + bit_idx] = sign * 1.0;
        }
    }
    for &i in &corruption_positions {
        let bit_base = (ASM_GOLAY_HEADER_LEN + i) * 8;
        for j in 0..8 {
            soft[bit_base + j] = soft[bit_base + j].signum() * 0.05;
        }
    }

    let decoder = Ax100Decoder::new();

    // Hard decision must fail: 24 byte errors > 16-error cap.
    assert!(
        decoder.decode_asm_golay(&packet).is_err(),
        "hard decision must fail past 16-error capacity"
    );

    // Soft decision with K=24 erasures must succeed.
    let frame = match decoder.decode_asm_golay_with_soft(&packet, &reliabilities(&soft), 24) {
        Ok(f) => f,
        Err(err) => panic!("soft decision with K=24 must recover: {err:?}"),
    };
    assert_eq!(frame.mode, Ax100Mode::AsmGolay);
    assert_eq!(frame.payload, payload);
    assert!(frame.flags.scrambler);
    assert!(frame.flags.reed_solomon);
    assert!(frame.corrected_errors >= 24);
}

#[test]
fn soft_with_zero_erasures_matches_hard_decision() {
    // With K=0 and no errors, the soft path must agree with the
    // hard-decision wrapper bit-for-bit.
    let payload = b"asm-golay-payload";
    let mut encoded_payload = reed_solomon::encode_shortened(payload, 1);
    ccsds_randomizer::xor_sequence(&mut encoded_payload);
    let header = golay::encode(encoded_payload.len() as u16);
    let mut packet = vec![
        ((header >> 16) & 0xff) as u8,
        ((header >> 8) & 0xff) as u8,
        (header & 0xff) as u8,
    ];
    packet.extend_from_slice(&encoded_payload);

    let mut soft = vec![0.0f32; packet.len() * 8];
    for (byte_idx, byte) in packet.iter().enumerate() {
        for bit_idx in 0..8 {
            let bit = (byte >> (7 - bit_idx)) & 1;
            let sign = if bit == 1 { 1.0 } else { -1.0 };
            soft[byte_idx * 8 + bit_idx] = sign;
        }
    }

    let decoder = Ax100Decoder::new();
    let hard = decoder.decode_asm_golay(&packet).expect("hard ok");
    let soft_frame = decoder
        .decode_asm_golay_with_soft(&packet, &reliabilities(&soft), 0)
        .expect("soft ok");
    assert_eq!(hard.payload, soft_frame.payload);
    assert_eq!(hard.payload, payload);
}

#[test]
fn short_packets_are_refused() {
    let decoder = Ax100Decoder::new();
    let err = decoder.decode_reed_solomon(&[]).unwrap_err();
    assert!(matches!(err, DecodeError::TooShort(0)));
    assert_eq!(err.message(), "Frame too short: 0 bytes");
    assert!(matches!(decoder.decode_asm_golay(&[1, 2]), Err(DecodeError::TooShort(2))));
    assert!(matches!(decoder.decode_asm_golay_crc(&[1]), Err(DecodeError::TooShort(1))));
}

#[test]
fn hopeless_reed_solomon_packet_is_a_crc_mismatch() {
    let mut packet = vec![(11 + PARITY_LEN + RS_HEADER_LEN) as u8];
    packet.extend((0..43u32).map(|i| (i.wrapping_mul(2654435761) >> 11) as u8));
    let err = Ax100Decoder::new().decode_reed_solomon(&packet).unwrap_err();
    assert!(matches!(err, DecodeError::CrcMismatch));
}

#[test]
fn damaged_header_and_field_are_repaired() {
    let payload: Vec<u8> = (0..100u8).collect();
    let mut field = reed_solomon::encode_shortened(&payload, 1);
    ccsds_randomizer::xor_sequence(&mut field);
    let header = golay::encode(field.len() as u16) ^ 0x80_1001;
    let mut packet = vec![(header >> 16) as u8, (header >> 8) as u8, header as u8];
    packet.extend_from_slice(&field);
    for i in 0..16 {
        packet[ASM_GOLAY_HEADER_LEN + 8 * i] ^= 0xFF;
    }
    let decoder = Ax100Decoder::new();
    let frame = decoder.decode_asm_golay(&packet).expect("repairable packet");
    assert_eq!(frame.payload, payload);
    assert_eq!(frame.flags.golay_errors, 3);
    assert_eq!(frame.corrected_errors, 16);

    // Fourteen more are out of reach, unless the damaged bytes are marked.
    for i in 0..14 {
        packet[ASM_GOLAY_HEADER_LEN + 8 * i + 3] ^= 0x77;
    }
    assert!(decoder.decode_asm_golay(&packet).is_err());
    let mut soft = vec![9u32; packet.len() * 8];
    for i in 0..16 {
        soft[8 * (ASM_GOLAY_HEADER_LEN + 8 * i) + 2] = 1;
    }
    for i in 0..14 {
        soft[8 * (ASM_GOLAY_HEADER_LEN + 8 * i + 3) + 7] = 2;
    }
    let frame = decoder
        .decode_asm_golay_with_soft(&packet, &soft, 30)
        .expect("marked packet");
    assert_eq!(frame.payload, payload);
    assert_eq!(frame.corrected_errors, 30);
    assert_eq!(frame.flags.golay_errors, 3);
}

#[test]
fn every_flipped_bit_fails_the_crc32c() {
    let csp_frame = b"\x82\x97\x64\x00beacon";
    let packet = build_crc_packet(csp_frame);
    let decoder = Ax100Decoder::new();
    for bit in 0..8 * (csp_frame.len() + 4) {
        let mut damaged = packet.clone();
        damaged[ASM_GOLAY_HEADER_LEN + bit / 8] ^= 0x80 >> (bit % 8);
        // Three bit errors in the header change nothing.
        damaged[0] ^= 0x10;
        damaged[2] ^= 0x21;
        let frame = decoder.decode_asm_golay_crc(&damaged).expect("readable packet");
        assert_eq!(frame.crc_ok, Some(false));
    }
    // What stands behind the CRC is not looked at.
    let mut padded = packet;
    let last = padded.len() - 1;
    padded[last] ^= 0xFF;
    let frame = decoder.decode_asm_golay_crc(&padded).expect("readable packet");
    assert_eq!(frame.crc_ok, Some(true));
}
