use hf_mount::base91;
use hf_mount::encryption::path::{
    encoded_fits, encrypt_input_len, name_from_block, pad_name, push_component, strip_leading_nuls,
    validate_name, PathCipher, PathError, MIN_ZERO_PAD, NAME_MAX, PAD_BLOCK,
};
use hf_mount::encryption::PATH_KEY_LEN;

fn key() -> [u8; PATH_KEY_LEN] {
    let mut key = [0u8; PATH_KEY_LEN];
    for (i, b) in key.iter_mut().enumerate() {
        *b = i as u8;
    }
    key
}

fn cipher() -> PathCipher {
    PathCipher::new(key())
}

#[test]
fn round_trips_paths() {
    let c = cipher();
    for path in ["a", "config.json", "checkpoints/run-7/model.safetensors", "x/y/z"] {
        let enc = c.encrypt_path(path).unwrap();
        assert!(!enc.contains('\0') && !enc.contains("//"));
        assert_eq!(c.decrypt_path(&enc).as_deref(), Some(path));
    }
}

#[test]
fn deterministic() {
    let c = cipher();
    assert_eq!(c.encrypt_path("dir/file").unwrap(), c.encrypt_path("dir/file").unwrap());
}

#[test]
fn ad_binding_rejects_relocated_component() {
    let c = cipher();
    let under_a = c.encrypt_path("a/secret").unwrap();
    let leaf = under_a.split('/').nth(1).unwrap().to_string();
    let other_parent = c.encrypt_path("b").unwrap();
    let forged = format!("{other_parent}/{leaf}");
    assert_eq!(c.decrypt_path(&forged), None);
}

#[test]
fn padding_buckets_short_names() {
    let c = cipher();
    let one = c.encrypt_path("a").unwrap();
    let twenty = c.encrypt_path(&"x".repeat(20)).unwrap();
    assert_eq!(
        one.len(),
        twenty.len(),
        "names in the same 32-byte bucket must share a stored length"
    );
    let twenty_one = c.encrypt_path(&"y".repeat(21)).unwrap();
    assert_ne!(one.len(), twenty_one.len());
}

#[test]
fn short_names_store_alike() {
    let c = cipher();
    for len in 1..=20 {
        for parent in ["", "dir", "dir/sub"] {
            let stored = c.encrypt_component(&"x".repeat(len), parent).unwrap();
            assert_eq!(base91::decode(&stored).unwrap().len(), PAD_BLOCK);
            assert!((37..=40).contains(&stored.len()));
        }
    }
    // How many characters base91 takes for a block hangs on the ciphertext.
    assert_eq!(c.encrypt_component("a", "").unwrap().len(), 40);
    assert_eq!(c.encrypt_component("f0", "").unwrap().len(), 39);
}

#[test]
fn exact_block_multiple_round_trips() {
    let c = cipher();
    let name = "z".repeat(32);
    let enc = c.encrypt_path(&name).unwrap();
    assert_eq!(c.decrypt_path(&enc).as_deref(), Some(name.as_str()));
}

#[test]
fn ciphertext_is_length_preserving() {
    let c = cipher();
    for len in [1, 20, 21, 32, 100] {
        let name = "m".repeat(len);
        let enc = c.encrypt_path(&name).unwrap();
        let decoded = base91::decode(&enc).unwrap();
        assert_eq!(decoded.len(), encrypt_input_len(len).unwrap());
    }
}

#[test]
fn long_names_skip_padding_and_round_trip() {
    let c = cipher();
    let name = "n".repeat(194);
    let enc = c.encrypt_path(&name).unwrap();
    assert!(enc.len() <= NAME_MAX);
    let decoded = base91::decode(&enc).unwrap();
    assert_eq!(decoded.len(), 194 + MIN_ZERO_PAD, "exact-length branch, no bucketing");
    assert_eq!(c.decrypt_path(&enc).as_deref(), Some(name.as_str()));
}

#[test]
fn name_length_limits() {
    let c = cipher();
    assert!(c.check_name_len(&"a".repeat(194)).is_ok());
    assert_eq!(c.check_name_len(&"a".repeat(195)), Err(PathError::NameTooLong));
    // The longest accepted name still encodes within NAME_MAX.
    assert!(c.encrypt_path(&"a".repeat(194)).unwrap().len() <= NAME_MAX);
}

#[test]
fn rejects_invalid_names() {
    let c = cipher();
    assert_eq!(c.check_name_len(""), Err(PathError::InvalidName));
    assert_eq!(c.check_name_len("a\0b"), Err(PathError::InvalidName));
    assert_eq!(c.check_name_len("a/b"), Err(PathError::InvalidName));
}

#[test]
fn drops_undecryptable_components() {
    let c = cipher();
    // Authentic ciphertext shape but random content: the zero-pad check fails.
    let garbage = base91::encode(&[0xa7u8; PAD_BLOCK]);
    assert_eq!(c.decrypt_path(&garbage), None);
}

#[test]
fn rejects_short_or_garbage_inputs() {
    let c = cipher();
    // Decoded length below one pad block is rejected before decryption.
    let short = base91::encode(&[0x55u8; PAD_BLOCK - 1]);
    assert_eq!(c.decrypt_path(&short), None);
    // Invalid base91 is rejected by the decoder.
    assert_eq!(c.decrypt_path("not valid base91 \u{20ac}"), None);
    assert_eq!(c.decrypt_path("'"), None);
}

#[test]
fn tampering_any_ciphertext_byte_is_detected() {
    let c = cipher();
    let enc = c.encrypt_path("important.txt").unwrap();
    let ciphertext = base91::decode(&enc).unwrap();
    for i in 0..ciphertext.len() {
        let mut tampered = ciphertext.clone();
        tampered[i] ^= 1;
        let stored = base91::encode(&tampered);
        assert_eq!(c.decrypt_path(&stored), None, "flipped byte {i} must not decrypt");
    }
}

/// Hand-encrypt one padded top-level component, bypassing the validation of
/// names, so decrypt-side rejection of names that could never have been produced
/// legitimately can be exercised.
fn encrypt_raw(name: &[u8]) -> String {
    let mut buf = vec![0u8; PAD_BLOCK];
    buf[PAD_BLOCK - name.len()..].copy_from_slice(name);
    let mut ciphertext = vec![0u8; PAD_BLOCK];
    hctr2_rs::Hctr2_128::new(&key()).encrypt(&buf, b"", &mut ciphertext).unwrap();
    base91::encode(&ciphertext)
}

#[test]
fn interior_nul_is_rejected() {
    let c = cipher();
    assert_eq!(c.decrypt_path(&encrypt_raw(b"ab\0cd")), None);
}

#[test]
fn decrypted_slash_is_rejected() {
    // A component that decrypts to a name containing '/' would alter the
    // plaintext path structure; decrypt must drop it even though the
    // padding authenticates.
    let c = cipher();
    assert_eq!(c.decrypt_path(&encrypt_raw(b"a/b")), None);
}

#[test]
fn components_are_hctr2_ciphertexts() {
    let c = cipher();
    assert_eq!(c.encrypt_path("plain").unwrap(), encrypt_raw(b"plain"));
    assert_eq!(c.decrypt_path(&encrypt_raw(b"plain")).as_deref(), Some("plain"));
    // The parent is the tweak.
    assert_eq!(c.encrypt_component("plain", "").unwrap(), encrypt_raw(b"plain"));
    assert_ne!(c.encrypt_component("plain", "dir").unwrap(), encrypt_raw(b"plain"));
    assert_eq!(c.decrypt_component(&encrypt_raw(b"plain"), "dir"), None);
    let under = c.encrypt_component("plain", "dir").unwrap();
    assert_eq!(c.decrypt_component(&under, "dir").as_deref(), Some("plain"));
}

#[test]
fn names_are_padded_in_front() {
    let block = pad_name("abc").unwrap();
    assert_eq!(block.len(), 32);
    assert!(block[..29].iter().all(|&b| b == 0));
    assert_eq!(&block[29..], b"abc");
    assert_eq!(name_from_block(&block).as_deref(), Some("abc"));
    assert_eq!(pad_name("a/b"), Err(PathError::InvalidName));
    assert_eq!(pad_name(&"a".repeat(195)), Err(PathError::NameTooLong));
    // Too little padding, no name at all, not text.
    assert_eq!(name_from_block(&[1; 32]), None);
    assert_eq!(name_from_block(&[0; 32]), None);
    let mut bad = [0u8; 32];
    bad[31] = 0xff;
    assert_eq!(name_from_block(&bad), None);
}

#[test]
fn lengths_of_padded_names() {
    assert_eq!(encrypt_input_len(1), Some(32));
    assert_eq!(encrypt_input_len(20), Some(32));
    assert_eq!(encrypt_input_len(21), Some(64));
    assert_eq!(encrypt_input_len(180), Some(192));
    assert_eq!(encrypt_input_len(181), Some(193));
    assert_eq!(encrypt_input_len(194), Some(206));
    assert_eq!(encrypt_input_len(195), None);
    assert_eq!(encrypt_input_len(usize::MAX), None);
    assert!(encoded_fits(206));
    assert!(!encoded_fits(207));
}

#[test]
fn small_path_helpers() {
    assert_eq!(validate_name("ok"), Ok(()));
    assert_eq!(validate_name(""), Err(PathError::InvalidName));
    assert_eq!(strip_leading_nuls(&[0, 0, 1, 0]), &[1, 0]);
    assert_eq!(strip_leading_nuls(&[0, 0]), &[] as &[u8]);
    let mut path = String::new();
    push_component(&mut path, "a");
    push_component(&mut path, "b");
    assert_eq!(path, "a/b");
    assert_eq!(PathError::InvalidName.to_string(), "invalid file name");
    assert_eq!(PathError::NameTooLong.to_string(), "file name too long once encrypted");
}

#[test]
fn invalid_paths_do_not_encrypt() {
    let c = cipher();
    assert_eq!(c.encrypt_path("a//b"), Err(PathError::InvalidName));
    assert_eq!(c.encrypt_path("a\0/b"), Err(PathError::InvalidName));
    assert_eq!(c.encrypt_path(&format!("a/{}", "b".repeat(195))), Err(PathError::NameTooLong));
}
