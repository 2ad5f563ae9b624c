//! SSDV packets.
use openhoshimi::rs8;
use openhoshimi::ssdv::{
    crc32, decode_callsign, encode_callsign, SsdvDecodeError, SsdvDecoder, SsdvPacketKind,
    SSDV_HEADER_LEN, SSDV_PKT_SIZE,
};

fn build_packet(kind: SsdvPacketKind, payload_seed: u8) -> [u8; SSDV_PKT_SIZE] {
    let mut pkt = [0u8; SSDV_PKT_SIZE];
    pkt[0] = 0x55;
    pkt[1] = match kind {
        SsdvPacketKind::WithFec => 0x66,
        SsdvPacketKind::NoFec => 0x67,
    };
    let cs = encode_callsign("HSCAT1");
    pkt[2] = (cs >> 24) as u8;
    pkt[3] = (cs >> 16) as u8;
    pkt[4] = (cs >> 8) as u8;
    pkt[5] = cs as u8;
    pkt[6] = 0x42; // image id
    pkt[7] = 0x00; // packet id high
    pkt[8] = 0x05; // packet id low = 5
    pkt[9] = 20; // width = 320 px = 20 << 4
    pkt[10] = 15; // height = 240 px = 15 << 4
                  // flags byte: ((quality ^ 4) << 3) | (eoi << 2) | mcu_mode.
                  // For quality=4, mcu_mode=0, eoi=0 the byte is 0.
    pkt[11] = 0;
    pkt[12] = 0; // mcu offset
    pkt[13] = 0; // mcu id high
    pkt[14] = 5; // mcu id low
    let payload_len = kind.payload_len();
    for (i, byte) in pkt[SSDV_HEADER_LEN..SSDV_HEADER_LEN + payload_len]
        .iter_mut()
        .enumerate()
    {
        *byte = payload_seed.wrapping_add(i as u8);
    }
    let crcdata_len = SSDV_HEADER_LEN + payload_len - 1;
    let crc = crc32(&pkt[1..1 + crcdata_len]);
    let i = 1 + crcdata_len;
    pkt[i] = (crc >> 24) as u8;
    pkt[i + 1] = (crc >> 16) as u8;
    pkt[i + 2] = (crc >> 8) as u8;
    pkt[i + 3] = crc as u8;
    if kind == SsdvPacketKind::WithFec {
        // Append RS parity.
        let mut block = [0u8; 255];
        block[..223].copy_from_slice(&pkt[1..1 + 223]);
        rs8::encode(&mut block).expect("rs encode");
        pkt[1 + 223..1 + 255].copy_from_slice(&block[223..255]);
    }
    pkt
}

#[test]
fn callsign_round_trip() {
    let code = encode_callsign("HSCAT1");
    let decoded = decode_callsign(code);
    assert_eq!(decoded, "HSCAT1");
}

#[test]
fn nofec_packet_decodes() {
    let pkt = build_packet(SsdvPacketKind::NoFec, 0x10);
    let decoded = SsdvDecoder::new().decode(&pkt).expect("decode");
    assert_eq!(decoded.kind, SsdvPacketKind::NoFec);
    assert_eq!(decoded.callsign, "HSCAT1");
    assert_eq!(decoded.image_id, 0x42);
    assert_eq!(decoded.packet_id, 5);
    assert_eq!(decoded.width, 320);
    assert_eq!(decoded.height, 240);
    assert_eq!(decoded.quality, 4);
    assert_eq!(decoded.mcu_mode, 0);
    assert_eq!(decoded.mcu_id, 5);
    assert!(decoded.crc_ok);
    assert_eq!(decoded.rs_errors, None);
    assert_eq!(decoded.payload.len(), 237);
}

#[test]
fn fec_packet_decodes_clean() {
    let pkt = build_packet(SsdvPacketKind::WithFec, 0x20);
    let decoded = SsdvDecoder::new().decode(&pkt).expect("decode");
    assert_eq!(decoded.kind, SsdvPacketKind::WithFec);
    assert!(decoded.crc_ok);
    assert_eq!(decoded.rs_errors, Some(0));
    assert_eq!(decoded.payload.len(), 205);
}

#[test]
fn fec_packet_corrects_errors() {
    let mut pkt = build_packet(SsdvPacketKind::WithFec, 0x33);
    let positions = [10usize, 50, 100, 150, 200];
    for &p in positions.iter() {
        pkt[p] ^= 0xA5;
    }
    let decoded = SsdvDecoder::new().decode(&pkt).expect("decode");
    assert_eq!(decoded.rs_errors, Some(positions.len() as u32));
    assert!(decoded.crc_ok);
}

#[test]
fn rs_recovers_flipped_type_byte() {
    // Type byte flipped 0x66 -> 0x67 with no other corruption.
    // The tier-3 fallback forces pkt[1] = 0x66 before running
    // RS, so RS itself sees a clean codeword and reports zero
    // corrected errors. The packet still decodes successfully.
    let mut pkt = build_packet(SsdvPacketKind::WithFec, 0x55);
    pkt[1] = 0x67;
    let decoded = SsdvDecoder::new().decode(&pkt).expect("decode");
    assert_eq!(decoded.kind, SsdvPacketKind::WithFec);
    assert!(decoded.crc_ok);
    assert_eq!(decoded.rs_errors, Some(0));
}

#[test]
fn rs_recovers_garbage_type_byte_plus_payload_errors() {
    // Type byte clobbered to a value that is neither 0x66 nor
    // 0x67, plus three real byte errors in the payload. Tier 3
    // resets pkt[1] for free, then RS corrects the three real
    // errors.
    let mut pkt = build_packet(SsdvPacketKind::WithFec, 0x77);
    pkt[1] = 0xAA;
    for i in 0..3 {
        pkt[40 + i * 30] ^= 0xA5;
    }
    let decoded = SsdvDecoder::new().decode(&pkt).expect("decode");
    assert_eq!(decoded.kind, SsdvPacketKind::WithFec);
    assert!(decoded.crc_ok);
    assert_eq!(decoded.rs_errors, Some(3));
}

#[test]
fn rejects_uncorrectable() {
    // 17 byte errors exceeds RS(255,223)'s correction power.
    let mut pkt = build_packet(SsdvPacketKind::WithFec, 0);
    for i in 0..17 {
        pkt[10 + i * 5] ^= 0xA5;
    }
    assert_eq!(
        SsdvDecoder::new().decode(&pkt).unwrap_err(),
        SsdvDecodeError::Uncorrectable
    );
}

#[test]
fn rejects_bad_length() {
    let buf = [0u8; 100];
    assert_eq!(
        SsdvDecoder::new().decode(&buf).unwrap_err(),
        SsdvDecodeError::BadLength
    );
}

fn with_crc(mut pkt: [u8; SSDV_PKT_SIZE]) -> [u8; SSDV_PKT_SIZE] {
    let end = SSDV_HEADER_LEN + SsdvPacketKind::NoFec.payload_len();
    let crc = crc32(&pkt[1..end]);
    pkt[end..end + 4].copy_from_slice(&crc.to_be_bytes());
    pkt
}

#[test]
fn header_faults_are_told_apart() {
    let mut flat = build_packet(SsdvPacketKind::NoFec, 0x10);
    flat[9] = 0;
    assert_eq!(
        SsdvDecoder::new().decode(&with_crc(flat)).unwrap_err(),
        SsdvDecodeError::ZeroDimensions
    );
    let mut far = build_packet(SsdvPacketKind::NoFec, 0x10);
    far[13] = 0x7f;
    let err = SsdvDecoder::new().decode(&with_crc(far)).unwrap_err();
    assert_eq!(err, SsdvDecodeError::BadMcu);
    assert_eq!(err.message(), "mcu_id/mcu_offset inconsistent with MCU count");
}

#[test]
fn checksum_of_the_check_string() {
    assert_eq!(crc32(b"123456789"), 0xCBF4_3926);
}

#[test]
fn every_short_callsign_round_trips() {
    for call in ["A", "Z9", "N0CALL", "0", "OH2ABC"] {
        assert_eq!(decode_callsign(encode_callsign(call)), call);
    }
}

#[test]
fn damaged_parity_is_written_anew() {
    let sent = build_packet(SsdvPacketKind::WithFec, 0x33);
    let mut received = sent;
    received[0] = 0;
    for k in 224..256 {
        received[k] ^= 0x5A;
    }
    let decoded = SsdvDecoder::new().decode(&received).expect("decode");
    assert_eq!(decoded.rs_errors, Some(0));
    assert_eq!(decoded.raw, sent.to_vec());
}

#[test]
fn one_damaged_byte_is_found_and_repaired() {
    let sent = build_packet(SsdvPacketKind::WithFec, 0x44);
    for k in [2, 15, 100, 219, 220, 223] {
        let mut received = sent;
        received[k] ^= 0x01;
        let decoded = SsdvDecoder::new().decode(&received).expect("decode");
        assert_eq!(decoded.rs_errors, Some(1));
        assert_eq!(decoded.raw, sent.to_vec());
    }
}
