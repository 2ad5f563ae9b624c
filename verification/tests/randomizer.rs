//! The CCSDS pseudo-random sequence.
use openhoshimi::ccsds_randomizer::xor_sequence;

#[test]
fn sequence_is_self_inverse() {
    let mut data: Vec<u8> = (0..64).collect();
    let original = data.clone();

    xor_sequence(&mut data);
    assert_ne!(data, original);
    xor_sequence(&mut data);

    assert_eq!(data, original);
}

#[test]
fn sequence_matches_ccsds_blue_book() {
    // CCSDS 131.0-B Annex F pseudo-random sequence, first 16 bytes.
    // Polynomial h(x) = x^8 + x^7 + x^5 + x^3 + 1, all-1 initial
    // state, MSB of register output first. This is the canonical
    // sequence KA9Q's randomizer.c emits and what AO-40 / FUNcube
    // descramblers expect.
    const EXPECTED: [u8; 16] = [
        0xff, 0x48, 0x0e, 0xc0, 0x9a, 0x0d, 0x70, 0xbc, 0x8e, 0x2c, 0x93, 0xad, 0xa7, 0xb7,
        0x46, 0xce,
    ];
    let mut zeros = [0u8; 16];
    xor_sequence(&mut zeros);
    assert_eq!(zeros, EXPECTED);
}
