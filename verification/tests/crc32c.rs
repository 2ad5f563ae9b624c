//! CRC-32C.
use openhoshimi::crc32c::checksum;

#[test]
fn matches_known_vector() {
    // Standard CRC-32C check value for the ASCII string
    // "123456789".
    assert_eq!(checksum(b"123456789"), 0xE306_9283);
}

#[test]
fn matches_greencube_frame_trailer() {
    // On-air IO-117 digipeater frame: the descrambled CSP frame
    // followed by its 4-byte big-endian CRC-32C trailer.
    let frame: [u8; 43] = [
        0x82, 0x97, 0x75, 0x00, 0x1D, 0x03, 0x34, 0x4F, 0x34, 0x41, 0x3E, 0x4F, 0x4E, 0x34,
        0x43, 0x43, 0x4E, 0x2C, 0x20, 0x47, 0x72, 0x65, 0x65, 0x6E, 0x43, 0x75, 0x62, 0x65,
        0x2C, 0x20, 0x53, 0x54, 0x4F, 0x52, 0x45, 0x3D, 0x30, 0x20, 0x4A, 0x4E, 0x39, 0x32,
        0x0A,
    ];
    assert_eq!(checksum(&frame), 0x72CC_25E0);
}
