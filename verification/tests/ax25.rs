//! AX.25 frames.
use openhoshimi::ax25::{Ax25Decoder, ADDRESS_LEN};
use openhoshimi::model::{DecodeError, Frame, FrameType};

fn encode_call(call: &str, ssid: u8, last: bool, repeated: bool) -> [u8; ADDRESS_LEN] {
    let mut out = [b' ' << 1; ADDRESS_LEN];
    for (index, byte) in call.bytes().take(6).enumerate() {
        out[index] = byte.to_ascii_uppercase() << 1;
    }
    out[6] = 0x60 | ((ssid & 0x0f) << 1) | u8::from(last);
    if repeated {
        out[6] |= 0x80;
    }
    out
}

#[test]
fn decodes_known_ui_frame() {
    let mut payload = Vec::new();
    payload.extend_from_slice(&encode_call("ALL", 0, false, false));
    payload.extend_from_slice(&encode_call("GB1FUN", 0, true, false));
    payload.push(0x03);
    payload.push(0xf0);
    payload.extend_from_slice(b"hello");

    let decoder = Ax25Decoder::new();
    let frame = match decoder.decode(&payload) {
        Ok(frame) => frame,
        Err(err) => panic!("decode UI frame: {err:?}"),
    };

    assert_eq!(frame.destination.call, "ALL");
    assert_eq!(frame.destination.ssid, 0);
    assert_eq!(frame.source.call, "GB1FUN");
    assert_eq!(frame.source.ssid, 0);
    assert_eq!(frame.control, 0x03);
    assert_eq!(frame.pid, Some(0xf0));
    assert_eq!(frame.info, b"hello");
}

#[test]
fn frame_shorter_than_two_addresses_is_rejected() {
    let decoder = Ax25Decoder::new();
    let err = match decoder.decode(&[0u8; 13]) {
        Ok(_) => panic!("short frame should fail"),
        Err(err) => err,
    };
    assert!(matches!(err, DecodeError::TooShort(13)));
}

#[test]
fn digipeaters_follow_the_source() {
    let mut payload = Vec::new();
    payload.extend_from_slice(&encode_call("CQ", 1, false, false));
    payload.extend_from_slice(&encode_call("AB1CD", 2, false, false));
    payload.extend_from_slice(&encode_call("RELAY", 3, true, true));
    payload.push(0x03);
    payload.push(0xf0);
    let frame = Ax25Decoder::new().decode(&payload).expect("frame");
    assert_eq!(frame.destination.call, "CQ");
    assert_eq!(frame.destination.ssid, 1);
    assert_eq!(frame.digipeaters.len(), 1);
    assert_eq!(frame.digipeaters[0].call, "RELAY");
    assert_eq!(frame.digipeaters[0].ssid, 3);
    assert!(frame.digipeaters[0].repeated);
    assert!(frame.info.is_empty());
}

#[test]
fn bad_callsign_byte_is_named() {
    let mut payload = Vec::new();
    payload.extend_from_slice(&encode_call("ALL", 0, false, false));
    payload.extend_from_slice(&encode_call("GB1FUN", 0, true, false));
    payload.extend_from_slice(&[0x03, 0xf0]);
    payload[1] = b'!' << 1;
    let frame = Frame {
        satellite_id: 1,
        rssi_dbm: None,
        raw: payload,
        frame_type: FrameType::Ax25,
    };
    let err = Ax25Decoder::new().decode_frame(&frame).unwrap_err();
    assert_eq!(err.message(), "Invalid encoding: invalid AX.25 callsign byte 0x42");
}
