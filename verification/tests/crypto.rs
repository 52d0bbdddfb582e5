use hf_mount::crypto::{
    build_info, check_ciphertext_size, check_key_len, check_plaintext_size, derive_filename_key,
    derive_key, extract_prk, format_content_type, next_copy_len, parse_content_type,
    parse_master_key, select_master_key, Algorithm, EncryptedFileInfo, EncryptionConfig,
    CONTENT_TYPE_PREFIX, COPY_BUF_SIZE, DEFAULT_CHUNK_SIZE, MASTER_KEY_LEN,
};
use hf_mount::error::Error;

const TEST_MASTER_KEY: [u8; MASTER_KEY_LEN] = [0x42u8; MASTER_KEY_LEN];
const TEST_SOURCE: &str = "bucket/test";

const ALL: [Algorithm; 6] = [
    Algorithm::Aegis128L,
    Algorithm::Aegis128X2,
    Algorithm::Aegis128X4,
    Algorithm::Aegis256,
    Algorithm::Aegis256X2,
    Algorithm::Aegis256X4,
];

#[test]
fn parse_non_encrypted() {
    assert!(parse_content_type("application/octet-stream").unwrap().is_none());
    assert!(parse_content_type("text/plain").unwrap().is_none());
}

#[test]
fn format_and_parse_roundtrip() {
    let info = EncryptedFileInfo {
        algorithm: Algorithm::Aegis128X2,
        plaintext_size: 1048576,
        ciphertext_size: 1049600,
        chunk_size: 65536,
    };
    let ct = format_content_type(&info);
    let parsed = parse_content_type(&ct).unwrap().unwrap();
    assert_eq!(parsed, info);
}

#[test]
fn format_and_parse_all_algorithms() {
    for alg in [
        Algorithm::Aegis128L,
        Algorithm::Aegis128X2,
        Algorithm::Aegis128X4,
        Algorithm::Aegis256,
        Algorithm::Aegis256X2,
        Algorithm::Aegis256X4,
    ] {
        let info = EncryptedFileInfo {
            algorithm: alg,
            plaintext_size: 100,
            ciphertext_size: 200,
            chunk_size: 4096,
        };
        let ct = format_content_type(&info);
        let parsed = parse_content_type(&ct).unwrap().unwrap();
        assert_eq!(parsed.algorithm, alg);
    }
}

#[test]
fn parse_malformed() {
    for ct in [
        "application/vnd.hf-mount+enc; chunk=65536; size=100; stored=200", // missing scheme
        "application/vnd.hf-mount+enc; scheme=aegis-128x2-raf; chunk=65536; stored=200", // missing size
        "application/vnd.hf-mount+enc; scheme=aegis-128x2-raf; chunk=65536; size=100", // missing stored
        "application/vnd.hf-mount+enc; scheme=chacha20-raf; chunk=65536; size=100; stored=200", // unknown scheme
        "application/vnd.hf-mount+enc; scheme=aegis-128x2-raf; chunk=65536; size=abc; stored=200", // bad number
    ] {
        assert!(parse_content_type(ct).is_err(), "should reject: {ct}");
    }
}

#[test]
fn algorithm_display_and_parse() {
    for alg in [
        Algorithm::Aegis128L,
        Algorithm::Aegis128X2,
        Algorithm::Aegis128X4,
        Algorithm::Aegis256,
        Algorithm::Aegis256X2,
        Algorithm::Aegis256X4,
    ] {
        let s = alg.to_string();
        let parsed: Algorithm = s.parse().unwrap();
        assert_eq!(parsed, alg);
    }
}

#[test]
fn algorithm_parse_unknown() {
    assert!("aes-gcm".parse::<Algorithm>().is_err());
}

#[test]
fn key_loading_raw() {
    let key = parse_master_key(&[0xABu8; 32]).unwrap();
    assert_eq!(key, [0xABu8; 32]);
}

#[test]
fn key_loading_base64() {
    // 32 bytes of 0xAB base64-encoded
    let b64 = "q6urq6urq6urq6urq6urq6urq6urq6urq6urq6urq6s=";
    let key = parse_master_key(b64.as_bytes()).unwrap();
    assert_eq!(key, [0xABu8; 32]);
}

#[test]
fn key_loading_wrong_size() {
    assert!(parse_master_key(&[0xABu8; 16]).is_err());
}

#[test]
fn content_type_default_chunk_size() {
    let ct = "application/vnd.hf-mount+enc; scheme=aegis-128x2-raf; size=100; stored=200";
    let info = parse_content_type(ct).unwrap().unwrap();
    assert_eq!(info.chunk_size, DEFAULT_CHUNK_SIZE);
}

#[test]
fn hkdf_properties() {
    let prk = extract_prk(&TEST_MASTER_KEY);
    // Deterministic
    let k1 = derive_key(&prk, TEST_SOURCE, Algorithm::Aegis128X2);
    assert_eq!(k1, derive_key(&prk, TEST_SOURCE, Algorithm::Aegis128X2));
    // Source separation
    assert_ne!(
        derive_key(&prk, "bucket/alice/data", Algorithm::Aegis128X2),
        derive_key(&prk, "bucket/bob/data", Algorithm::Aegis128X2)
    );
    // Namespace separation
    assert_ne!(
        derive_key(&prk, "bucket/user/foo", Algorithm::Aegis128X2),
        derive_key(&prk, "model/user/foo", Algorithm::Aegis128X2)
    );
    // Algorithm separation
    assert_ne!(k1, derive_key(&prk, TEST_SOURCE, Algorithm::Aegis256));
    // Correct output length per algorithm
    for alg in ALL {
        assert_eq!(derive_key(&prk, TEST_SOURCE, alg).len(), alg.key_len());
    }
    // Non-identity (derived key differs from master key)
    assert_ne!(
        &derive_key(&prk, TEST_SOURCE, Algorithm::Aegis256)[..],
        &TEST_MASTER_KEY[..]
    );
}

#[test]
fn algorithm_tables() {
    let schemes = [
        "aegis-128l-raf",
        "aegis-128x2-raf",
        "aegis-128x4-raf",
        "aegis-256-raf",
        "aegis-256x2-raf",
        "aegis-256x4-raf",
    ];
    let lens = [16, 16, 16, 32, 32, 32];
    for i in 0..6 {
        assert_eq!(ALL[i].scheme(), schemes[i]);
        assert_eq!(Algorithm::from_scheme(schemes[i]), Some(ALL[i]));
        assert_eq!(ALL[i].key_len(), lens[i]);
    }
    assert_eq!(Algorithm::from_scheme("aegis-128x2"), None);
    assert_eq!(Algorithm::Aegis128X2.to_string(), "aegis-128x2");
    assert_eq!(Algorithm::from_name("aegis-256").unwrap(), Algorithm::Aegis256);
    assert!(matches!(Algorithm::from_name("aes-gcm"), Err(Error::Encryption(_))));
}

#[test]
fn content_type_text() {
    let info = EncryptedFileInfo {
        algorithm: Algorithm::Aegis256,
        plaintext_size: 7,
        ciphertext_size: 65702,
        chunk_size: 4096,
    };
    let ct = format_content_type(&info);
    assert_eq!(
        ct,
        "application/vnd.hf-mount+enc; scheme=aegis-256-raf; chunk=4096; size=7; stored=65702"
    );
    assert!(ct.starts_with(CONTENT_TYPE_PREFIX));
    // Order and blanks do not matter, what is not known is passed over, and the
    // last of several values counts.
    let loose = "application/vnd.hf-mount+enc ;stored=65702;x=y; size = 6 ;;size=7;flag;chunk=4096; scheme=aegis-256-raf";
    assert_eq!(parse_content_type(loose).unwrap(), Some(info));
}

#[test]
fn content_types_are_what_their_parameters_give() {
    let info = EncryptedFileInfo {
        algorithm: Algorithm::Aegis256,
        plaintext_size: 1,
        ciphertext_size: 2,
        chunk_size: 4096,
    };
    for params in [
        "; scheme=aegis-256-raf; chunk=4096; size=1; stored=2",
        "; stored=2; size=1; chunk=4096; scheme=aegis-256-raf",
        ";scheme = aegis-256-raf ;\tchunk= 4096; size =1 ;stored=2 ",
        ";; scheme=aegis-256-raf; flag; chunk=4096; note=x=y; size=1;; stored=2;",
    ] {
        let ct = format!("application/vnd.hf-mount+enc{params}");
        assert_eq!(parse_content_type(&ct).unwrap(), Some(info), "{ct}");
    }
    for params in ["; stored=2; size=1", "; size=1; flag; stored=2"] {
        let ct = format!("application/vnd.hf-mount+enc{params}");
        assert!(parse_content_type(&ct).is_err(), "{ct}");
    }
}

fn encryption_message(ct: &str) -> String {
    match parse_content_type(ct) {
        Err(Error::Encryption(message)) => message,
        other => panic!("unexpected: {other:?}"),
    }
}

#[test]
fn content_type_errors() {
    let all = "application/vnd.hf-mount+enc; scheme=aegis-256-raf; size=1; stored=2; ";
    assert_eq!(
        encryption_message("application/vnd.hf-mount+enc; scheme=x"),
        "unknown encryption scheme: x"
    );
    assert_eq!(encryption_message(&format!("{all}chunk=4294967296")), "invalid chunk size: 4294967296");
    assert_eq!(encryption_message(&format!("{all}size=-1")), "invalid plaintext size: -1");
    assert_eq!(encryption_message(&format!("{all}stored=")), "invalid ciphertext size: ");
    assert_eq!(
        encryption_message("application/vnd.hf-mount+enc"),
        "missing scheme in encryption metadata"
    );
    assert_eq!(
        encryption_message("application/vnd.hf-mount+enc; scheme=aegis-256-raf"),
        "missing size in encryption metadata"
    );
    assert_eq!(
        encryption_message("application/vnd.hf-mount+enc; scheme=aegis-256-raf; size=+3"),
        "missing stored size in encryption metadata"
    );
}

#[test]
fn master_key_text_forms() {
    // A trailing newline is cut off before the text is decoded.
    let padded = "q6urq6urq6urq6urq6urq6urq6urq6urq6urq6urq6s=\n";
    assert_eq!(parse_master_key(padded.as_bytes()).unwrap(), [0xAB; 32]);
    // 32 bytes of 0xFB: the two alphabets differ.
    let standard = "+/v7+/v7+/v7+/v7+/v7+/v7+/v7+/v7+/v7+/v7+/s=";
    let url_safe = "-_v7-_v7-_v7-_v7-_v7-_v7-_v7-_v7-_v7-_v7-_s";
    assert_eq!(parse_master_key(standard.as_bytes()).unwrap(), [0xFB; 32]);
    assert_eq!(parse_master_key(url_safe.as_bytes()).unwrap(), [0xFB; 32]);
    assert!(matches!(parse_master_key(b"not base64 at all!"), Err(Error::Encryption(_))));
    assert!(matches!(parse_master_key(&[0xFF; 40]), Err(Error::Encryption(_))));
}

#[test]
fn master_key_selection() {
    // Raw bytes of the right length win over what they decode to.
    assert_eq!(select_master_key(&[1; 32], Some(vec![2; 32])).unwrap(), [1; 32]);
    assert_eq!(select_master_key(&[1; 5], Some(vec![2; 32])).unwrap(), [2; 32]);
    assert!(select_master_key(&[1; 5], Some(vec![2; 31])).is_err());
    assert!(select_master_key(&[1; 5], None).is_err());
}

#[test]
fn hkdf_info_layout() {
    let info = build_info("ab", Algorithm::Aegis256);
    let mut want = b"hf-mount-derive-v1".to_vec();
    want.extend_from_slice(&[0, 2]);
    want.extend_from_slice(b"ab");
    want.extend_from_slice(&[0, 13]);
    want.extend_from_slice(b"aegis-256-raf");
    assert_eq!(info, want);
    // The length is cut off at two bytes.
    let long = build_info(&"x".repeat(65537), Algorithm::Aegis256);
    assert_eq!(&long[18..20], &[0, 1]);
}

#[test]
fn keys_come_from_hkdf() {
    // What the HKDF of another crate path gives for the same inputs.
    let prk = hmac_sha256::HKDF::extract(b"hf-mount-v1", TEST_MASTER_KEY);
    assert_eq!(extract_prk(&TEST_MASTER_KEY), prk);
    let mut want = [0u8; 16];
    hmac_sha256::HKDF::expand(&mut want, prk, build_info(TEST_SOURCE, Algorithm::Aegis128L));
    assert_eq!(derive_key(&prk, TEST_SOURCE, Algorithm::Aegis128L), want);
    let config = EncryptionConfig {
        prk,
        source_context: TEST_SOURCE.to_string(),
        algorithm: Algorithm::Aegis128L,
        chunk_size: DEFAULT_CHUNK_SIZE,
        filename_key: [0; 16],
    };
    assert_eq!(config.derive_key(Algorithm::Aegis128L), want);
    let mut info = b"hf-mount-filename-v1".to_vec();
    info.extend_from_slice(&[0, TEST_SOURCE.len() as u8]);
    info.extend_from_slice(TEST_SOURCE.as_bytes());
    hmac_sha256::HKDF::expand(&mut want, prk, info);
    assert_eq!(derive_filename_key(&prk, TEST_SOURCE), want);
    // Names and contents never share a key.
    assert_ne!(
        derive_key(&prk, TEST_SOURCE, Algorithm::Aegis128L),
        derive_filename_key(&prk, TEST_SOURCE)
    );
}

#[test]
fn file_checks() {
    assert!(check_key_len(&[0; 16], Algorithm::Aegis128X2).is_ok());
    assert!(check_key_len(&[0; 32], Algorithm::Aegis128X2).is_err());
    assert!(check_key_len(&[0; 32], Algorithm::Aegis256X4).is_ok());
    let info = EncryptedFileInfo {
        algorithm: Algorithm::Aegis128X2,
        plaintext_size: 10,
        ciphertext_size: 20,
        chunk_size: 4096,
    };
    assert!(check_plaintext_size(10, &info).is_ok());
    assert!(matches!(check_plaintext_size(11, &info), Err(Error::Encryption(_))));
    assert!(check_ciphertext_size(20, &info).is_ok());
    assert!(matches!(check_ciphertext_size(10, &info), Err(Error::Encryption(_))));
    assert_eq!(next_copy_len(10, 0), 10);
    assert_eq!(next_copy_len(1 << 20, 0), COPY_BUF_SIZE);
    assert_eq!(next_copy_len((1 << 20) + 1, 1 << 20), 1);
    assert_eq!(next_copy_len(10, 10), 0);
}

#[test]
fn key_infos_differ() {
    let mut seen: Vec<Vec<u8>> = Vec::new();
    for source in ["", "a", "b", "bucket/test", "bucket/test\0"] {
        for alg in ALL {
            let info = build_info(source, alg);
            assert!(!seen.contains(&info));
            seen.push(info);
        }
    }
}
