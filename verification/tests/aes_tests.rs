use abe::aes::{decrypt_symmetric, encrypt_symmetric};

#[test]
fn aes_correctness_test1() {
    let key = "7h15 15 4 v3ry 53cr37 k3ysdfsfsdfsdfdsfdsf1";
    let key_bytes = key.as_bytes().to_vec();
    let plaintext = String::from("dance like no one's watching, encrypt like everyone is!");
    let ciphertext = encrypt_symmetric(&key_bytes, &plaintext.clone().into_bytes()).unwrap();
    let reconstruct = decrypt_symmetric(&key_bytes, &ciphertext).unwrap();
    assert_eq!(plaintext.into_bytes(), reconstruct);
}

#[test]
fn test_symmetric_layout() {
    let key_bytes = b"key".to_vec();
    let plaintext = b"payload".to_vec();
    let sealed = encrypt_symmetric(&key_bytes, &plaintext).unwrap();
    // nonce (12) + ciphertext (len of plaintext) + tag (16)
    assert_eq!(sealed.len(), 12 + plaintext.len() + 16);
}

#[test]
fn test_symmetric_wrong_key_fails() {
    let key_bytes = b"right key".to_vec();
    let wrong_key_bytes = b"wrong key".to_vec();
    let plaintext = b"payload".to_vec();
    let sealed = encrypt_symmetric(&key_bytes, &plaintext).unwrap();
    assert!(decrypt_symmetric(&wrong_key_bytes, &sealed).is_err());
}

#[test]
fn test_symmetric_tampered_payload_fails() {
    let key_bytes = b"some key".to_vec();
    let plaintext = b"payload".to_vec();
    let mut sealed = encrypt_symmetric(&key_bytes, &plaintext).unwrap();
    let last = sealed.len() - 1;
    sealed[last] ^= 1;
    assert!(decrypt_symmetric(&key_bytes, &sealed).is_err());
}

#[test]
fn test_symmetric_short_payload_fails() {
    let key_bytes = b"some key".to_vec();
    let short = vec![0u8; 11];
    assert!(decrypt_symmetric(&key_bytes, &short).is_err());
}

#[test]
fn test_symmetric_fresh_nonces() {
    let key_bytes = b"some key".to_vec();
    let plaintext = b"payload".to_vec();
    let first = encrypt_symmetric(&key_bytes, &plaintext).unwrap();
    let second = encrypt_symmetric(&key_bytes, &plaintext).unwrap();
    // 96-bit random nonces: two seals of one payload differ
    assert_ne!(first, second);
}
