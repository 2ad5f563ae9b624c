//! PN9 whitening.
use openhoshimi::pn9::Pn9Whitener;

/// First eight whitening bytes from `seed = 0x1FF`. Matches the
/// CC1101 datasheet and a hand-simulated reference.
const REFERENCE_BYTES: [u8; 8] = [0xFF, 0xE1, 0x1D, 0x9A, 0xED, 0x85, 0x33, 0x24];

#[test]
fn matches_reference_sequence() {
    let mut zeros = [0u8; 8];
    Pn9Whitener::new().descramble(&mut zeros);
    assert_eq!(zeros, REFERENCE_BYTES);
}

#[test]
fn descramble_is_involution() {
    let mut payload = [0xAA, 0x55, 0x12, 0x34, 0xDE, 0xAD, 0xBE, 0xEF];
    let original = payload;
    Pn9Whitener::new().descramble(&mut payload);
    assert_ne!(payload, original);
    Pn9Whitener::new().descramble(&mut payload);
    assert_eq!(payload, original);
}

#[test]
fn streaming_matches_one_shot() {
    let mut single = [0u8; 16];
    Pn9Whitener::new().descramble(&mut single);

    let mut split = [0u8; 16];
    let (head, tail) = split.split_at_mut(7);
    let mut whitener = Pn9Whitener::new();
    whitener.descramble(head);
    whitener.descramble(tail);

    assert_eq!(single, split);
}
