use hf_mount::encryption::url::encode_path_segments;

#[test]
fn escapes_reserved_keeps_separators() {
    assert_eq!(encode_path_segments("a?b#c%d"), "a%3Fb%23c%25d");
    assert_eq!(encode_path_segments("dir/na me"), "dir/na%20me");
    assert_eq!(encode_path_segments("a/b/c"), "a/b/c");
}

#[test]
fn leaves_unreserved_untouched() {
    assert_eq!(encode_path_segments("AZaz09-._~"), "AZaz09-._~");
}

#[test]
fn escapes_every_byte_of_a_character() {
    assert_eq!(encode_path_segments("\u{20ac}"), "%E2%82%AC");
    assert_eq!(encode_path_segments(""), "");
}

/// The percent-decoding of `s`.
fn unescape(s: &str) -> String {
    let bytes = s.as_bytes();
    let mut out = Vec::new();
    let mut i = 0;
    while i < bytes.len() {
        if bytes[i] == b'%' {
            out.push(u8::from_str_radix(&s[i + 1..i + 3], 16).unwrap());
            i += 3;
        } else {
            out.push(bytes[i]);
            i += 1;
        }
    }
    String::from_utf8(out).unwrap()
}

#[test]
fn escaping_can_be_undone() {
    for path in ["a b/c%d", "100%25", "\u{fc}ber/\u{1f600}", "plain"] {
        let url = encode_path_segments(path);
        assert_eq!(unescape(&url), path);
        assert!(url.chars().all(|c| c.is_ascii_alphanumeric() || "-._~/%".contains(c)));
    }
}
