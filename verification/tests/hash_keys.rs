use mempool_store::hash_key::{hash_key, hash_keys};
use mempool_store::records::NewMempoolTx;

#[test]
fn key_of_empty_hash_is_empty() {
    assert_eq!(hash_key(&[]), "");
}

#[test]
fn key_holds_two_lower_case_digits_per_byte() {
    assert_eq!(hash_key(&[1, 2, 3, 15, 16]), "0102030f10");
    assert_eq!(hash_key(&[0xf9, 0xb4, 0xca]), "f9b4ca");
    assert_eq!(hash_key(&[0x00, 0xff, 0xa0, 0x0a]), "00ffa00a");
}

#[test]
fn key_of_text_bytes() {
    assert_eq!(hash_key("Hello world!".as_bytes()), "48656c6c6f20776f726c6421");
}

#[test]
fn key_is_twice_as_long_as_the_hash() {
    let hash: Vec<u8> = (0..=255).collect();
    let key = hash_key(&hash);
    assert_eq!(key.len(), 512);
    assert!(key.starts_with("000102030405060708090a0b0c0d0e0f10"));
    assert!(key.ends_with("f0f1f2f3f4f5f6f7f8f9fafbfcfdfeff"));
}

#[test]
fn key_differs_from_its_hash() {
    let hash = "ab".as_bytes();
    assert_ne!(hash_key(hash).as_bytes(), hash);
    assert_eq!(hash_key(hash), "6162");
}

#[test]
fn different_hashes_have_different_keys() {
    assert_ne!(hash_key(&[0x01, 0x10]), hash_key(&[0x10, 0x01]));
    assert_ne!(hash_key(&[0x00]), hash_key(&[]));
    assert_ne!(hash_key(&[0x0a]), hash_key(&[0xa0]));
}

#[test]
fn keys_of_many_hashes_keep_their_order() {
    let hashes = vec![vec![0xde, 0xad], vec![], vec![0xbe, 0xef, 0x01]];
    assert_eq!(hash_keys(&hashes), vec!["dead".to_string(), String::new(), "beef01".to_string()]);
    assert_eq!(hash_keys(&[]), Vec::<String>::new());
}

#[test]
fn new_row_is_filed_under_the_key_of_its_hash() {
    let entry = NewMempoolTx::new(&[0xab, 0xcd, 0x01], "payload".to_string());
    assert_eq!(entry.tx_hash, "abcd01");
    assert_eq!(entry.tx, "payload");
}
