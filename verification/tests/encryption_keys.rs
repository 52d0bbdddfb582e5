use ct_codecs::{Encoder, Hex};
use hf_mount::encryption::content::ALG_AEGIS_128X2;
use hf_mount::encryption::{
    algorithm_byte, Encryptor, KeyError, MasterKey, CONTENT_KEY_LEN, ENC_ROOT,
};

#[test]
fn raw_32_bytes_load_verbatim() {
    let raw: Vec<u8> = (0..32).collect();
    let mk = MasterKey::from_bytes(&raw).unwrap();
    assert_eq!(&mk.0[..], raw.as_slice());
}

#[test]
fn hex_with_trailing_newline_loads() {
    let hex = "000102030405060708090a0b0c0d0e0f101112131415161718191a1b1c1d1e1f\n";
    let mk = MasterKey::from_bytes(hex.as_bytes()).unwrap();
    let expect: Vec<u8> = (0..32).collect();
    assert_eq!(&mk.0[..], expect.as_slice());
}

#[test]
fn rejects_short_hex() {
    assert!(matches!(
        MasterKey::from_bytes(b"00112233"),
        Err(KeyError::BadLength(_))
    ));
}

#[test]
fn rejects_non_hex() {
    let bad = "zz".repeat(20);
    assert!(matches!(
        MasterKey::from_bytes(bad.as_bytes()),
        Err(KeyError::InvalidHex)
    ));
}

// Pinned against an independent Python HKDF-SHA256 implementation
// (master key = bytes 0x00..0x1f).
#[test]
fn derive_keys_matches_reference_vector() {
    let master: Vec<u8> = (0..32).collect();
    let keys = MasterKey::from_bytes(&master).unwrap().derive_keys();
    assert_eq!(
        Hex::encode_to_string(keys.path_key).unwrap(),
        "0ed68542acb5efef937a12fc2f7ded66"
    );
    assert_eq!(
        Hex::encode_to_string(keys.content_key).unwrap(),
        "17df83bd274d533ca474fd675c5c5387"
    );
    // The two labels must produce different key material.
    assert_ne!(&keys.path_key[..CONTENT_KEY_LEN], &keys.content_key[..]);
}

#[test]
fn hex_keys_in_either_case() {
    let upper = "0F".repeat(32);
    assert_eq!(MasterKey::from_bytes(upper.as_bytes()).unwrap().0, [0x0f; 32]);
    let lower = format!("  {}\r\n", "a5".repeat(32));
    assert_eq!(MasterKey::from_bytes(lower.as_bytes()).unwrap().0, [0xa5; 32]);
}

#[test]
fn key_lengths_that_are_refused() {
    assert!(matches!(MasterKey::from_bytes(&[]), Err(KeyError::BadLength(0))));
    let long = "00".repeat(33);
    assert!(matches!(MasterKey::from_bytes(long.as_bytes()), Err(KeyError::InvalidHex)));
    let short = "00".repeat(31);
    assert!(matches!(MasterKey::from_bytes(short.as_bytes()), Err(KeyError::BadLength(62))));
    let odd = "0".repeat(63);
    assert!(matches!(MasterKey::from_bytes(odd.as_bytes()), Err(KeyError::InvalidHex)));
    assert!(matches!(MasterKey::from_bytes(&[0xff; 64]), Err(KeyError::InvalidHex)));
}

#[test]
fn key_error_messages() {
    assert_eq!(
        KeyError::Io("gone".to_string()).to_string(),
        "reading encryption key file: gone"
    );
    assert_eq!(
        KeyError::BadLength(5).to_string(),
        "encryption key must be 32 raw bytes or 64 hex characters, got 5 bytes"
    );
    assert_eq!(KeyError::InvalidHex.to_string(), "encryption key is not valid hexadecimal");
}

#[test]
fn encryptors_hold_the_derived_keys() {
    let master = MasterKey([3; 32]);
    let keys = master.derive_keys();
    let encryptor = Encryptor::from_master_key(&master, ALG_AEGIS_128X2);
    assert_eq!(encryptor.content_key, keys.content_key);
    assert_eq!(encryptor.algorithm, 2);
    let other = hf_mount::encryption::path::PathCipher::new(keys.path_key);
    assert_eq!(
        encryptor.path_cipher.encrypt_path("a/b").unwrap(),
        other.encrypt_path("a/b").unwrap()
    );
}

#[test]
fn algorithm_names() {
    assert_eq!(ENC_ROOT, ".enc");
    assert_eq!(algorithm_byte("aegis-128x2"), Some(ALG_AEGIS_128X2));
    assert_eq!(algorithm_byte("aegis-256"), None);
}
