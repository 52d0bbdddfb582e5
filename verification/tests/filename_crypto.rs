use hf_mount::error::Error;
use hf_mount::filename_crypto::{
    base91_decode, base91_encode, decrypt_filename, decrypt_path, encrypt_filename, encrypt_path,
    name_from_padded, FILESYSTEM_NAME_LIMIT, MIN_PADDED_LEN,
};

const TEST_KEY: [u8; 16] = [0x42u8; 16];

#[test]
fn roundtrip_filenames() {
    for name in [
        "myfile.txt",
        "a",
        "ab",
        "hi.z",
        "0123456789abcdef",
        "this_is_a_very_long_filename_that_exceeds_the_minimum_padding_length_of_16_bytes.txt",
    ] {
        let enc = encrypt_filename(name, &TEST_KEY).unwrap();
        assert_ne!(enc, name);
        let dec = decrypt_filename(&enc, &TEST_KEY).unwrap();
        assert_eq!(dec, name, "failed roundtrip for {name:?}");
        // Deterministic
        assert_eq!(enc, encrypt_filename(name, &TEST_KEY).unwrap());
    }
    // Special entries pass through
    for dot in [".", ".."] {
        assert_eq!(encrypt_filename(dot, &TEST_KEY).unwrap(), dot);
        assert_eq!(decrypt_filename(dot, &TEST_KEY).unwrap(), dot);
    }
}

#[test]
fn wrong_key_fails() {
    let enc = encrypt_filename("secret.txt", &TEST_KEY).unwrap();
    let wrong_key = [0x00u8; 16];
    let dec = decrypt_filename(&enc, &wrong_key);
    // Decryption itself succeeds (HCTR2 is length-preserving, no auth tag on the name),
    // but the result will be garbage — not the name.
    match dec {
        Ok(name) => assert_ne!(name, "secret.txt"),
        Err(_) => {} // also acceptable (e.g. invalid UTF-8)
    }
}

#[test]
fn path_roundtrip() {
    assert_eq!(encrypt_path("", &TEST_KEY).unwrap(), "");
    assert_eq!(decrypt_path("", &TEST_KEY).unwrap(), "");
    let enc = encrypt_path("a/b/c", &TEST_KEY).unwrap();
    assert!(!enc.contains("a/"));
    assert_eq!(decrypt_path(&enc, &TEST_KEY).unwrap(), "a/b/c");
    // Leading/trailing slashes are normalized
    let enc = encrypt_path("/a/b/", &TEST_KEY).unwrap();
    assert_eq!(decrypt_path(&enc, &TEST_KEY).unwrap(), "a/b");
}

#[test]
fn encrypted_name_limits_and_output() {
    for len in [50, 100, 150, 200, 205] {
        let name: String = "a".repeat(len);
        let enc = encrypt_filename(&name, &TEST_KEY).unwrap();
        assert!(
            enc.len() <= FILESYSTEM_NAME_LIMIT,
            "len {len} produced {} bytes",
            enc.len()
        );
    }
    assert!(encrypt_filename(&"a".repeat(220), &TEST_KEY).is_err());
    for name in ["file.txt", "model.safetensors", "data.parquet"] {
        let enc = encrypt_filename(name, &TEST_KEY).unwrap();
        assert!(!enc.contains('/'), "encrypted {name:?} contains slash: {enc}");
    }
}

#[test]
fn base91_roundtrip() {
    assert_eq!(base91_encode(b""), "");
    assert_eq!(base91_decode("").unwrap(), b"");
    let data = b"hello world, this is a test of base91 encoding!";
    assert_eq!(base91_decode(&base91_encode(data)).unwrap(), data);
}

#[test]
fn names_are_hctr2_ciphertexts() {
    let enc = encrypt_filename("short", &TEST_KEY).unwrap();
    let mut padded = [0u8; MIN_PADDED_LEN];
    padded[..5].copy_from_slice(b"short");
    let mut cipher = [0u8; MIN_PADDED_LEN];
    hctr2_rs::Hctr2_128::new(&TEST_KEY)
        .encrypt(&padded, b"", &mut cipher)
        .unwrap();
    assert_eq!(base91_decode(&enc).unwrap(), cipher);
    assert_ne!(cipher, padded);
}

fn message_of<T: std::fmt::Debug>(r: Result<T, Error>) -> String {
    match r {
        Err(Error::Encryption(message)) => message,
        other => panic!("unexpected: {other:?}"),
    }
}

#[test]
fn invalid_characters_are_named() {
    assert_eq!(message_of(base91_decode("a b")), "invalid base91 character: ' '");
    assert_eq!(message_of(base91_decode("a\nb")), "invalid base91 character: '\\n'");
    // The first byte of the character, not the character.
    assert_eq!(message_of(base91_decode("\u{20ac}")), "invalid base91 character: '\u{e2}'");
    assert_eq!(message_of(base91_decode("\"\"")), "invalid base91 padding");
    // A lone digit holds a byte, although that byte is written with two.
    assert_eq!(base91_decode("A").unwrap(), [0]);
    assert_eq!(base91_encode(&[0]), "AA");
}

#[test]
fn short_names_do_not_decrypt() {
    assert_eq!(
        message_of(decrypt_filename(&base91_encode(&[1; MIN_PADDED_LEN - 1]), &TEST_KEY)),
        "ciphertext too short for HCTR2"
    );
}

#[test]
fn padding_is_cut_off() {
    assert_eq!(name_from_padded(b"ab\0\0\0".to_vec()).unwrap(), "ab");
    assert_eq!(name_from_padded(b"a\0b".to_vec()).unwrap(), "a\0b");
    assert_eq!(name_from_padded(vec![0; 16]).unwrap(), "");
    assert_eq!(
        message_of(name_from_padded(vec![0xff; 2])),
        "decrypted filename is not UTF-8: invalid utf-8 sequence of 1 bytes from index 0"
    );
}

#[test]
fn names_that_are_too_long_are_measured() {
    let message = message_of(encrypt_filename(&"a".repeat(220), &TEST_KEY));
    assert!(message.starts_with("encrypted filename exceeds 255 bytes (2"), "{message}");
}

#[test]
fn names_that_end_in_nul_lose_it() {
    let enc = encrypt_filename("ab\0", &TEST_KEY).unwrap();
    assert_eq!(decrypt_filename(&enc, &TEST_KEY).unwrap(), "ab");
}

#[test]
fn paths_keep_their_depth() {
    let enc = encrypt_path("x//y/../z", &TEST_KEY).unwrap();
    assert_eq!(enc.split('/').count(), 4);
    assert_eq!(enc.split('/').nth(2), Some(".."));
    assert_eq!(decrypt_path(&enc, &TEST_KEY).unwrap(), "x/y/../z");
    assert!(decrypt_path("not encrypted", &TEST_KEY).is_err());
    assert!(encrypt_path(&format!("a/{}", "b".repeat(220)), &TEST_KEY).is_err());
}
