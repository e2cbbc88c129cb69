use storage::encoding::{base64_list, encoded_list_reply, encoded_reply, request_bytes};

#[test]
fn base64_known_values() {
    assert_eq!(encoded_reply(&b"".to_vec()), "");
    assert_eq!(encoded_reply(&b"f".to_vec()), "Zg==");
    assert_eq!(encoded_reply(&b"fo".to_vec()), "Zm8=");
    assert_eq!(encoded_reply(&b"foo".to_vec()), "Zm9v");
    assert_eq!(encoded_reply(&b"foobar".to_vec()), "Zm9vYmFy");
    assert_eq!(encoded_reply(&vec![255u8, 254u8]), "//4=");
}

#[test]
fn base64_length_is_four_per_three_bytes() {
    for n in 0..20usize {
        let bytes = vec![7u8; n];
        assert_eq!(encoded_reply(&bytes).len(), 4 * ((n + 2) / 3));
    }
}

#[test]
fn list_reply_is_debug_of_base64_texts() {
    let encoded = vec![b"foo".to_vec(), b"f".to_vec()];
    assert_eq!(base64_list(&encoded), vec!["Zm9v".to_string(), "Zg==".to_string()]);
    assert_eq!(encoded_list_reply(&encoded), "[\"Zm9v\", \"Zg==\"]");
    assert_eq!(encoded_list_reply(&Vec::new()), "[]");
}

#[test]
fn request_bytes_read_back_base64() {
    assert_eq!(request_bytes("Zm9v"), Some(b"foo".to_vec()));
    assert_eq!(request_bytes("Zg=="), Some(b"f".to_vec()));
    assert_eq!(request_bytes(""), Some(Vec::new()));
    assert_eq!(request_bytes(&encoded_reply(&vec![0u8, 1, 254, 255])), Some(vec![0u8, 1, 254, 255]));
    assert_eq!(request_bytes("Zg"), None);
    assert_eq!(request_bytes("Zh=="), None);
    assert_eq!(request_bytes("not base64!"), None);
}
