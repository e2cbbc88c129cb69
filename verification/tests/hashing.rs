use storage::hashing::{calculate_hash, to_hex};

#[test]
fn hash_of_known_inputs() {
    assert_eq!(calculate_hash(b"abc"), "ba7816bf8f01cfea414140de5dae2223b00361a396177a9cb410ff61f20015ad");
    assert_eq!(calculate_hash(b""), "e3b0c44298fc1c149afbf4c8996fb92427ae41e4649b934ca495991b7852b855");
}

#[test]
fn hex_text_two_digits_per_byte() {
    assert_eq!(to_hex(&[0u8, 15u8, 16u8, 255u8]), "000f10ff");
    assert_eq!(calculate_hash(b"chunk").len(), 64);
}

#[test]
fn different_content_different_hash_text() {
    assert_ne!(calculate_hash(b"chunk a"), calculate_hash(b"chunk b"));
}
