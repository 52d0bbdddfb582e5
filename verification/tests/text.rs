use hf_mount::text::{
    contains, contains_char, eq, is_whitespace, join_with, parse_u32, parse_u64, push_decimal,
    split_on, starts_with, strip_prefix, trim, trim_end_matches, trim_matches,
};
use hf_mount::time::Span;

#[test]
fn splitting_and_joining() {
    for s in ["", "/", "a", "a/b", "/a//b/", "\u{fc}/\u{1f600}"] {
        let parts = split_on(s, '/');
        let want: Vec<&str> = s.split('/').collect();
        assert_eq!(parts, want);
        assert_eq!(join_with(&parts, '/'), s);
    }
}

#[test]
fn trimming() {
    for s in ["", " ", " a b ", "\u{2003}x\u{85}", "\n\tx\u{200b}"] {
        assert_eq!(trim(s), s.trim());
    }
    for code in 0..0x3100u32 {
        if let Some(c) = char::from_u32(code) {
            assert_eq!(is_whitespace(c), c.is_whitespace(), "{code:x}");
        }
    }
    assert_eq!(trim_end_matches("a///", '/'), "a");
    assert_eq!(trim_matches("\"\"a\"b\"", '"'), "a\"b");
}

#[test]
fn numbers() {
    for s in ["0", "007", "+5", "18446744073709551615", "18446744073709551616", "", "+", "-1", "1 ", "\u{0661}"] {
        assert_eq!(parse_u64(s), s.parse::<u64>().ok(), "{s:?}");
        assert_eq!(parse_u32(s), s.parse::<u32>().ok(), "{s:?}");
    }
    let mut out = "n=".to_string();
    push_decimal(&mut out, 0);
    push_decimal(&mut out, u64::MAX);
    assert_eq!(out, "n=018446744073709551615");
}

#[test]
fn parts_of_texts() {
    assert!(starts_with("abc", "ab") && !starts_with("ab", "abc"));
    assert_eq!(strip_prefix("abc", "ab").as_deref(), Some("c"));
    assert_eq!(strip_prefix("abc", "b"), None);
    assert!(contains("abc", "bc") && contains("abc", "") && !contains("abc", "ac"));
    assert!(contains_char("abc", 'b') && !contains_char("abc", 'd'));
    assert!(eq("a", "a") && !eq("a", "b") && !eq("a", "aa"));
}

#[test]
fn spans_of_time() {
    assert_eq!(Span::from_millis(1500), Span { secs: 1, nanos: 500_000_000 });
    assert!(Span::from_secs(2).at_least(&Span::from_millis(2000)));
    assert!(!Span::from_millis(1999).at_least(&Span::from_secs(2)));
    assert_eq!(Span::from_millis(1500).saturating_mul(4), Span::from_secs(6));
    let longest = Span { secs: u64::MAX, nanos: 999_999_999 };
    assert_eq!(Span::from_secs(u64::MAX).saturating_mul(2), longest);
}
