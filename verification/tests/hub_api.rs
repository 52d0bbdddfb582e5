use hf_mount::encryption::path::PathCipher;
use hf_mount::encryption::url::encode_path_segments;
use hf_mount::encryption::ENC_ROOT;
use hf_mount::error::{is_retryable_status, Error};
use hf_mount::hub_api::client::token_kind;
use hf_mount::hub_api::http::{
    after_send, check_link, download_failure, etag_path, head_failure, head_file_info, if_none_match,
    initial_token, mtime_from_seconds, status_error, tag_to_keep, token_from_file, Header,
    SendOutcome, SendStep, TokenCache, MAX_RETRIES, TOKEN_FILE_REFRESH_SECS,
};
use hf_mount::hub_api::requests::{
    bucket_failure, ndjson_body, next_probe, probe_matches, probed_repo_type, resolve_context,
    source_info_url, user_agent, TreePages,
};
use hf_mount::hub_api::{
    mtime_from_http_date, mtime_from_str, parse_link_next, parse_repo_id, parse_retry_delay,
    retry_delay, split_path_prefix, BatchOp, HubApiClient, RepoTreeEntry, RepoType, RevisionProbe,
    SourceKind, TokenKind, TreeEntry,
};
use hf_mount::time::Span;
use std::sync::Arc;

const UNIX_EPOCH: Span = Span { secs: 0, nanos: 0 };

#[test]
fn test_parse_link_next_picks_next_relation() {
    let header = r#"<https://api.example.com/page=1>; rel="prev", <https://api.example.com/page=3>; rel="next""#;
    assert_eq!(
        parse_link_next(header),
        Some("https://api.example.com/page=3".to_string())
    );
}

#[test]
fn test_parse_link_next_returns_none_when_missing() {
    let header = r#"<https://api.example.com/page=1>; rel="prev", <https://api.example.com/page=2>; rel="last""#;
    assert_eq!(parse_link_next(header), None);
}

#[test]
fn test_mtime_parsers_fallback_to_unix_epoch_on_invalid_input() {
    assert_eq!(mtime_from_str("not-a-date"), UNIX_EPOCH);
    assert_eq!(mtime_from_http_date("still-not-a-date"), UNIX_EPOCH);
}

#[test]
fn test_mtime_parsers_support_valid_formats() {
    let rfc3339 = mtime_from_str("2026-02-28T14:52:39Z");
    let http_date = mtime_from_http_date("Sat, 28 Feb 2026 14:52:39 GMT");
    assert!(rfc3339.secs > UNIX_EPOCH.secs);
    assert!(http_date.secs > UNIX_EPOCH.secs);
    assert_eq!(rfc3339, http_date);
}

#[test]
fn test_repo_type_from_str() {
    assert_eq!("model".parse::<RepoType>().unwrap(), RepoType::Model);
    assert_eq!("dataset".parse::<RepoType>().unwrap(), RepoType::Dataset);
    assert_eq!("space".parse::<RepoType>().unwrap(), RepoType::Space);
    assert!("unknown".parse::<RepoType>().is_err());
}

#[test]
fn test_repo_type_api_prefix() {
    assert_eq!(RepoType::Model.api_prefix(), "models");
    assert_eq!(RepoType::Dataset.api_prefix(), "datasets");
    assert_eq!(RepoType::Space.api_prefix(), "spaces");
}

#[test]
fn test_repo_type_resolve_prefix() {
    assert_eq!(RepoType::Model.resolve_prefix(), "");
    assert_eq!(RepoType::Dataset.resolve_prefix(), "datasets/");
    assert_eq!(RepoType::Space.resolve_prefix(), "spaces/");
}

// ── split_path_prefix tests ───────────────────────────────────────

#[test]
fn test_split_path_prefix_bucket_no_subfolder() {
    let (id, prefix) = split_path_prefix("user/bucket").unwrap();
    assert_eq!(id, "user/bucket");
    assert_eq!(prefix, "");
}

#[test]
fn test_split_path_prefix_bucket_with_subfolder() {
    let (id, prefix) = split_path_prefix("user/bucket/a/b").unwrap();
    assert_eq!(id, "user/bucket");
    assert_eq!(prefix, "a/b");
}

#[test]
fn test_split_path_prefix_bucket_single_subfolder() {
    let (id, prefix) = split_path_prefix("user/bucket/checkpoints").unwrap();
    assert_eq!(id, "user/bucket");
    assert_eq!(prefix, "checkpoints");
}

#[test]
fn test_split_path_prefix_single_segment() {
    let (id, prefix) = split_path_prefix("gpt2").unwrap();
    assert_eq!(id, "gpt2");
    assert_eq!(prefix, "");
}

#[test]
fn test_split_path_prefix_repo_with_subfolder() {
    let (id, prefix) = split_path_prefix("user/model/ckpt/v2").unwrap();
    assert_eq!(id, "user/model");
    assert_eq!(prefix, "ckpt/v2");
}

#[test]
fn test_split_path_prefix_trailing_slash() {
    let (id, prefix) = split_path_prefix("user/bucket/checkpoints/").unwrap();
    assert_eq!(id, "user/bucket");
    assert_eq!(prefix, "checkpoints");
}

#[test]
fn test_split_path_prefix_rejects_dotdot() {
    assert!(split_path_prefix("user/bucket/../other").is_err());
}

#[test]
fn test_split_path_prefix_rejects_dot() {
    assert!(split_path_prefix("user/bucket/./foo").is_err());
}

// ── prefixed_path / strip_path_prefix tests ───────────────────────

fn make_test_client(prefix: &str) -> HubApiClient {
    HubApiClient {
        endpoint: "https://huggingface.co".to_string(),
        token: Some("static-token".to_string()),
        source: SourceKind::Bucket {
            bucket_id: "user/bucket".to_string(),
        },
        last_modified: UNIX_EPOCH,
        path_prefix: prefix.to_string(),
        path_cipher: None,
    }
}

#[test]
fn test_prefixed_path_empty_prefix() {
    let c = make_test_client("");
    assert_eq!(c.prefixed_path("file.txt").unwrap().as_body(), "file.txt");
    assert_eq!(c.prefixed_path("a/b").unwrap().as_body(), "a/b");
    assert_eq!(c.prefixed_path("").unwrap().as_body(), "");
}

#[test]
fn test_prefixed_path_with_prefix() {
    let c = make_test_client("sub/dir");
    assert_eq!(c.prefixed_path("file.txt").unwrap().as_body(), "sub/dir/file.txt");
    assert_eq!(c.prefixed_path("a/b").unwrap().as_body(), "sub/dir/a/b");
    assert_eq!(c.prefixed_path("").unwrap().as_body(), "sub/dir");
}

#[test]
fn plaintext_paths_pass_through_url_unchanged() {
    // A non-encrypted client must not alter or percent-encode paths.
    let c = make_test_client("");
    let rp = c.prefixed_path("a b?c.txt").unwrap();
    assert_eq!(rp.as_body(), "a b?c.txt");
    assert_eq!(rp.as_url(), "a b?c.txt");
}

fn encrypted_client(prefix: &str) -> HubApiClient {
    let mut c = make_test_client(prefix);
    c.path_cipher = Some(Arc::new(PathCipher::new([0x11u8; 16])));
    c
}

/// Assert the stored path carries the `.enc/` wrapper and return what's
/// underneath it.
fn strip_enc_root(path: &str) -> &str {
    path.strip_prefix(ENC_ROOT)
        .and_then(|p| p.strip_prefix('/'))
        .unwrap_or_else(|| panic!("stored path must start with {ENC_ROOT}/, got: {path}"))
}

fn entry(path: &str) -> TreeEntry {
    TreeEntry {
        path: path.to_string(),
        entry_type: "file".to_string(),
        size: Some(10),
        xet_hash: None,
        oid: None,
        mtime: None,
    }
}

#[test]
fn outgoing_path_is_ciphertext_and_round_trips() {
    let c = encrypted_client("");
    let cipher = c.path_cipher.clone().unwrap();
    let rp = c.prefixed_path("dir/super-secret.txt").unwrap();
    // The JSON body form starts with .enc/ and is ciphertext — no plaintext leak.
    assert!(!rp.as_body().contains("secret"));
    assert!(!rp.as_body().contains("dir"));
    // Strip the wrapper, then decrypt back to the bucket-absolute plaintext path.
    let stored = strip_enc_root(rp.as_body());
    assert_eq!(cipher.decrypt_path(stored), Some("dir/super-secret.txt".to_string()));
}

#[test]
fn prefix_is_encrypted_into_the_bucket_absolute_path() {
    let c = encrypted_client("sub/dir");
    let cipher = c.path_cipher.clone().unwrap();
    let rp = c.prefixed_path("a.txt").unwrap();
    let stored = strip_enc_root(rp.as_body());
    assert_eq!(cipher.decrypt_path(stored), Some("sub/dir/a.txt".to_string()));
}

#[test]
fn empty_path_maps_to_enc_root() {
    let c = encrypted_client("");
    let rp = c.prefixed_path("").unwrap();
    assert_eq!(rp.as_body(), ENC_ROOT);
    assert!(!rp.is_empty());
}

#[test]
fn url_form_is_encoded_and_leak_free() {
    let c = encrypted_client("");
    let rp = c.prefixed_path("super-secret-config.json").unwrap();
    let url = rp.as_url();
    assert!(!url.contains("secret"));
    // Only URL-safe bytes reach the request URL.
    assert!(
        url.bytes()
            .all(|b| b.is_ascii_alphanumeric() || matches!(b, b'-' | b'.' | b'_' | b'~' | b'/' | b'%')),
        "url contains unescaped reserved characters: {url}"
    );
}

#[test]
fn listing_decrypts_known_and_drops_the_rest() {
    let c = encrypted_client("");
    let cipher = c.path_cipher.clone().unwrap();
    let encrypted = cipher.encrypt_path("dir/file.txt").unwrap();
    let stored_path = format!("{ENC_ROOT}/{encrypted}");
    let mut entries = vec![
        entry(&stored_path),               // valid ciphertext under .enc → decrypted
        entry(ENC_ROOT),                   // bare .enc directory → dropped (no trailing /)
        entry("plaintext.txt"),            // plaintext at root → dropped
        entry("AAAAAAAAAAAAAAAAAAAAAAAA"), // garbage outside .enc → dropped
    ];
    c.decrypt_listing(&mut entries);
    let paths: Vec<&str> = entries.iter().map(|e| e.path.as_str()).collect();
    assert_eq!(paths, vec!["dir/file.txt"]);
}

#[test]
fn listing_drops_ciphertext_outside_enc() {
    let c = encrypted_client("");
    let cipher = c.path_cipher.clone().unwrap();
    // A valid ciphertext component that lives outside .enc should be dropped.
    let encrypted = cipher.encrypt_path("secret.txt").unwrap();
    let mut entries = vec![
        entry(&format!("{ENC_ROOT}/{encrypted}")), // inside .enc → kept
        entry(&encrypted),                         // at root (outside .enc) → dropped
    ];
    c.decrypt_listing(&mut entries);
    assert_eq!(entries.len(), 1);
    assert_eq!(entries[0].path, "secret.txt");
}

#[test]
fn non_encrypted_client_omits_enc_prefix() {
    let c = make_test_client("");
    assert!(c.path_cipher.is_none());
    let rp = c.prefixed_path("file.txt").unwrap();
    assert_eq!(rp.as_body(), "file.txt");

    let rp_root = c.prefixed_path("").unwrap();
    assert!(rp_root.is_empty());
}

// ── 404→empty listing tests ─────────────

#[test]
fn encrypted_client_404_on_root_becomes_empty() {
    // .enc/ doesn't exist → API returns 404 for /tree/.enc, which the
    // root listing maps to empty (all three guard legs true).
    let c = encrypted_client("");
    let entries = c.finish_listing("", Err(Error::hub_status(404, "gone"))).unwrap();
    assert!(entries.is_empty());
}

#[test]
fn encrypted_client_404_on_subdir_still_errors() {
    // A non-root prefix also gets a 404 → must NOT be mapped to empty.
    let c = encrypted_client("");
    assert!(c.finish_listing("some-dir", Err(Error::hub_status(404, "gone"))).is_err());
}

#[test]
fn encrypted_subfolder_mount_404_not_swallowed() {
    // A subfolder mount listing "" must get its 404 propagated so that a
    // missing subfolder can be detected: path_prefix is non-empty, so the 404
    // guard's third leg fails → error.
    let c = encrypted_client("sub/dir");
    assert!(c.finish_listing("", Err(Error::hub_status(404, "gone"))).is_err());
}

#[test]
fn test_strip_path_prefix_empty_prefix() {
    let c = make_test_client("");
    assert_eq!(c.strip_path_prefix("file.txt"), Some("file.txt"));
    assert_eq!(c.strip_path_prefix("a/b/c"), Some("a/b/c"));
}

#[test]
fn test_strip_path_prefix_with_prefix() {
    let c = make_test_client("sub/dir");
    assert_eq!(c.strip_path_prefix("sub/dir/file.txt"), Some("file.txt"));
    assert_eq!(c.strip_path_prefix("sub/dir/a/b"), Some("a/b"));
    // The prefix directory itself → empty string
    assert_eq!(c.strip_path_prefix("sub/dir"), Some(""));
    // Unrelated path → None
    assert_eq!(c.strip_path_prefix("other/file.txt"), None);
}

// ── token file cache tests ────────────────────────────────────────

/// Reads the file when it is due and says which token is sent.
fn auth(cache: &mut TokenCache, now: Span, file: Option<&str>) -> String {
    if cache.needs_refresh(now) {
        cache.store(now, file);
    }
    cache.bearer(Some("static-token")).unwrap().to_string()
}

#[test]
fn token_file_populates_cache_on_first_auth() {
    let mut cache = TokenCache::new();
    assert_eq!(auth(&mut cache, Span::from_secs(100), Some("file-token\n")), "file-token");
    assert_eq!(cache.cached(), Some("file-token"));
}

#[test]
fn token_file_cache_reused_within_ttl() {
    let mut cache = TokenCache::new();
    auth(&mut cache, Span::from_secs(100), Some("token-v1"));
    assert_eq!(cache.cached(), Some("token-v1"));

    // The file has changed, but the cache should still serve the old value.
    auth(&mut cache, Span::from_secs(101), Some("token-v2"));
    assert_eq!(cache.cached(), Some("token-v1"));
}

#[test]
fn token_file_refreshes_after_ttl() {
    let mut cache = TokenCache::new();
    auth(&mut cache, Span::from_secs(100), Some("token-v1"));
    let later = Span::from_secs(100 + TOKEN_FILE_REFRESH_SECS + 1);
    auth(&mut cache, later, Some("token-v2"));
    assert_eq!(cache.cached(), Some("token-v2"));
}

#[test]
fn token_file_missing_falls_back_to_static() {
    let mut cache = TokenCache::new();
    assert_eq!(auth(&mut cache, Span::from_secs(100), None), "static-token");
    assert!(cache.cached().is_none());
}

// ── retry / error helpers ─────────────────────────────────────────

#[test]
fn retry_delay_exponential_backoff() {
    assert_eq!(retry_delay(1), Span::from_millis(500));
    assert_eq!(retry_delay(2), Span::from_millis(1000));
    assert_eq!(retry_delay(3), Span::from_millis(2000));
}

#[test]
fn is_retryable_status_covers_expected_codes() {
    assert!(is_retryable_status(408));
    assert!(is_retryable_status(429));
    assert!(is_retryable_status(500));
    assert!(is_retryable_status(502));
    assert!(is_retryable_status(503));
    assert!(is_retryable_status(504));
    assert!(!is_retryable_status(200));
    assert!(!is_retryable_status(301));
    assert!(!is_retryable_status(400));
    assert!(!is_retryable_status(401));
    assert!(!is_retryable_status(403));
    assert!(!is_retryable_status(404));
}

#[test]
fn parse_retry_delay_extracts_t_value() {
    let duration = parse_retry_delay(Some(r#""hub_api";r=0;t=45"#)).unwrap();
    assert_eq!(duration, Span::from_secs(30)); // capped
}

#[test]
fn parse_retry_delay_small_value() {
    let duration = parse_retry_delay(Some(r#""hub_api";r=0;t=5"#)).unwrap();
    assert_eq!(duration, Span::from_secs(5));
}

#[test]
fn parse_retry_delay_missing_header() {
    assert!(parse_retry_delay(None).is_none());
}

#[test]
fn parse_retry_delay_no_t_param() {
    assert!(parse_retry_delay(Some(r#""hub_api";r=50"#)).is_none());
}

#[test]
fn error_hub_constructors() {
    let err = Error::hub("test error");
    assert!(matches!(err, Error::Hub { status: None, .. }));
    assert!(err.to_string().contains("test error"));

    let err = Error::hub_status(404, "not found");
    assert!(matches!(err, Error::Hub { status: Some(404), .. }));
    assert!(err.to_string().contains("404"));
    assert!(err.to_string().contains("not found"));
}

// ── sending with retries ─────────────────────────────

/// Sends a request to a server that answers with these statuses in turn.
fn send_with_retry(replies: Vec<u16>, accept_redirects: bool) -> Result<u16, Error> {
    let mut attempt = 0;
    for status in replies {
        attempt += 1;
        let outcome = SendOutcome::Reply { status, ratelimit: None };
        match after_send(&outcome, attempt, accept_redirects) {
            SendStep::Accept => return Ok(status),
            SendStep::Retry(d) => assert_eq!(d, retry_delay(attempt)),
            SendStep::RejectStatus(s) => return Err(status_error("test", s, "body")),
            SendStep::RejectFailure => panic!("there was a reply"),
        }
    }
    panic!("one request too many")
}

#[test]
fn send_with_retry_success_on_first_try() {
    assert_eq!(send_with_retry(vec![200], false).unwrap(), 200);
}

#[test]
fn send_with_retry_retries_on_503_then_succeeds() {
    assert_eq!(send_with_retry(vec![503, 200], false).unwrap(), 200);
}

#[test]
fn send_with_retry_retries_on_429_then_succeeds() {
    assert_eq!(send_with_retry(vec![429, 200], false).unwrap(), 200);
}

#[test]
fn send_with_retry_gives_up_after_max_retries() {
    let result = send_with_retry(vec![503, 503, 503], false);
    assert!(result.is_err());
    let err = result.unwrap_err();
    assert!(matches!(err, Error::Hub { status: Some(503), .. }));
}

#[test]
fn send_with_retry_no_retry_on_404() {
    let result = send_with_retry(vec![404], false);
    assert!(result.is_err());
    assert!(matches!(result.unwrap_err(), Error::Hub { status: Some(404), .. }));
}

#[test]
fn send_with_retry_304_returned_as_error() {
    let result = send_with_retry(vec![304], false);
    assert!(result.is_err());
    assert!(matches!(result.unwrap_err(), Error::Hub { status: Some(304), .. }));
}

#[test]
fn send_with_retry_accepts_redirects_when_enabled() {
    assert_eq!(send_with_retry(vec![302], true).unwrap(), 302);
}

#[test]
fn send_with_retry_rejects_redirects_when_disabled() {
    let result = send_with_retry(vec![302], false);
    assert!(result.is_err());
    assert!(matches!(result.unwrap_err(), Error::Hub { status: Some(302), .. }));
}

#[test]
fn lost_connections_are_retried() {
    assert_eq!(after_send(&SendOutcome::NoConnection, 2, false), SendStep::Retry(retry_delay(2)));
    assert_eq!(
        after_send(&SendOutcome::NoConnection, MAX_RETRIES + 1, false),
        SendStep::RejectFailure
    );
    assert_eq!(after_send(&SendOutcome::Failed, 1, false), SendStep::RejectFailure);
    let limited = SendOutcome::Reply {
        status: 429,
        ratelimit: Some("t=7".to_string()),
    };
    assert_eq!(after_send(&limited, 1, false), SendStep::Retry(Span::from_secs(7)));
}

// ── trying an id as each kind of repository ──────────────────────────────

#[test]
fn probe_repo_identifies_model() {
    // /api/models comes first → 200 means it's a model.
    assert_eq!(probed_repo_type(&vec![Some(200)]), Some(RepoType::Model));
}

#[test]
fn probe_repo_falls_through_to_dataset() {
    // models 404 → datasets 200 → identified as dataset.
    assert_eq!(probed_repo_type(&vec![Some(404), Some(200)]), Some(RepoType::Dataset));
}

#[test]
fn probe_repo_returns_none_when_no_endpoint_matches() {
    // All three repo endpoints return 404 → not a repo.
    assert_eq!(probed_repo_type(&vec![Some(404), Some(404), Some(404)]), None);
    assert_eq!(next_probe(3), None);
    assert!(!probe_matches(None));
    assert!(!probe_matches(Some(204)));
    assert!(probe_matches(Some(200)));
}

/// The boundary at the level of requests: an encrypted GET URL carries `.enc/` +
/// percent-encoded ciphertext, while batch operations carry the raw stored path
/// (`.enc/` + raw ciphertext) — and neither ever carries the plaintext.
#[test]
fn http_get_url_is_encoded_ciphertext_and_batch_body_is_raw() {
    let cipher = Arc::new(PathCipher::new([0x11u8; 16]));
    let encrypted = cipher.encrypt_path("secret-dir/secret.txt").unwrap();
    let stored = format!("{ENC_ROOT}/{encrypted}");
    // `.enc` is all URI-unreserved characters, so the encoded form keeps it
    // verbatim: ".enc/" + percent-encoded ciphertext.
    let url_form = encode_path_segments(&stored);
    assert!(url_form.starts_with(&format!("{ENC_ROOT}/")));

    let client = HubApiClient::new("http://hub", Some("tok"), "user/bucket").with_path_cipher(cipher);

    // The resolve URL path is `.enc/` + percent-encoded ciphertext.
    let path = client.prefixed_path("secret-dir/secret.txt").unwrap();
    let url = client.resolve_url(&path);
    assert_eq!(url, format!("http://hub/buckets/user/bucket/resolve/{url_form}"));
    assert!(!url.contains("secret"), "no plaintext name in the request");

    // Batch operations carry the raw stored path, not URL-encoded.
    let ops = client
        .remote_ops(&vec![BatchOp::AddFile {
            path: "secret-dir/secret.txt".to_string(),
            xet_hash: "deadbeef".to_string(),
            mtime: 0,
            content_type: None,
        }])
        .unwrap();
    assert_eq!(ops.len(), 1);
    match &ops[0] {
        BatchOp::AddFile { path, xet_hash, mtime, content_type } => {
            assert_eq!(path, &stored, "batch path must be the raw .enc/ + ciphertext");
            assert_eq!(xet_hash, "deadbeef");
            assert_eq!(*mtime, 0);
            assert!(content_type.is_none());
        }
        other => panic!("unexpected: {other:?}"),
    }
}

#[test]
fn dates_are_seconds_since_the_epoch() {
    assert_eq!(mtime_from_str("2026-02-28T14:52:39Z"), Span::from_secs(1_772_290_359));
    assert_eq!(mtime_from_str("1970-01-01T01:00:00+01:00"), UNIX_EPOCH);
    assert_eq!(mtime_from_http_date("Thu, 01 Jan 1970 00:01:40 GMT"), Span::from_secs(100));
    // Before the epoch.
    assert_eq!(mtime_from_str("1969-12-31T23:59:59Z"), UNIX_EPOCH);
    assert_eq!(mtime_from_seconds(Some(-1)), UNIX_EPOCH);
    assert_eq!(mtime_from_seconds(Some(5)), Span::from_secs(5));
    assert_eq!(mtime_from_seconds(None), UNIX_EPOCH);
}

#[test]
fn link_headers() {
    assert!(check_link("<a>; rel=\"next\""));
    assert!(check_link("no link"));
    assert!(!check_link(">a<; rel=\"next\""));
    assert_eq!(parse_link_next(""), None);
    assert_eq!(parse_link_next("rel=\"next\""), None);
}

#[test]
fn repo_ids() {
    assert_eq!(parse_repo_id("gpt2"), (RepoType::Model, "gpt2".to_string()));
    assert_eq!(
        parse_repo_id("datasets/user/data"),
        (RepoType::Dataset, "user/data".to_string())
    );
    assert_eq!(parse_repo_id("spaces/user/app"), (RepoType::Space, "user/app".to_string()));
    for t in [RepoType::Model, RepoType::Dataset, RepoType::Space] {
        assert_eq!(RepoType::from_name(&t.to_string()).unwrap(), t);
        assert_eq!(
            parse_repo_id(&format!("{}user/x", t.resolve_prefix())),
            (t, "user/x".to_string())
        );
    }
}

#[test]
fn head_replies() {
    let text = |s: &str| Header::Text(s.to_string());
    let info = head_file_info(
        text("hash"),
        text("12"),
        text("5"),
        text("\"linked\""),
        text("\"own\""),
        text("today"),
    );
    assert_eq!(info.xet_hash.as_deref(), Some("hash"));
    assert_eq!(info.size, Some(12));
    assert_eq!(info.etag.as_deref(), Some("linked"));
    assert_eq!(info.last_modified.as_deref(), Some("today"));
    let info = head_file_info(
        Header::Absent,
        Header::Absent,
        text("5"),
        Header::Absent,
        text("own"),
        Header::Opaque,
    );
    assert_eq!(info.xet_hash, None);
    assert_eq!(info.size, Some(5));
    assert_eq!(info.etag.as_deref(), Some("own"));
    assert_eq!(info.last_modified, None);
    // A header that is there but cannot be read is not passed over.
    let info = head_file_info(
        Header::Absent,
        Header::Opaque,
        text("5"),
        text("x"),
        Header::Absent,
        Header::Absent,
    );
    assert_eq!(info.size, None);
    assert!(head_failure(Error::hub_status(404, "x")).unwrap().is_none());
    assert!(head_failure(Error::hub_status(500, "x")).is_err());
}

#[test]
fn downloads_are_conditional() {
    assert_eq!(if_none_match(true, Some(" abc\n")).as_deref(), Some("\"abc\""));
    assert_eq!(if_none_match(false, Some("abc")), None);
    assert_eq!(if_none_match(true, None), None);
    assert!(download_failure(Error::hub_status(304, "x")).is_ok());
    assert!(download_failure(Error::hub_status(404, "x")).is_err());
    let kept = tag_to_keep(Header::Text("\"abc\"".to_string())).unwrap();
    assert_eq!(kept, "abc");
    assert_eq!(if_none_match(true, Some(&kept)).as_deref(), Some("\"abc\""));
    assert_eq!(tag_to_keep(Header::Opaque), None);
}

#[test]
fn tags_are_kept_beside_their_file() {
    assert_eq!(etag_path("cache/model.bin"), "cache/model.bin.etag");
    assert_ne!(etag_path("cache/model.bin"), etag_path("cache/model.txt"));
}

#[test]
fn tokens_of_files() {
    assert_eq!(token_from_file(Some(" hf_x \n")).as_deref(), Some("hf_x"));
    assert_eq!(token_from_file(Some(" \n")), None);
    assert_eq!(initial_token(Some("given"), Some("file\n")).as_deref(), Some("file"));
    assert_eq!(initial_token(Some("given"), Some(" \n")).as_deref(), Some("given"));
    assert_eq!(initial_token(Some("given"), None).as_deref(), Some("given"));
    assert_eq!(initial_token(None, Some("file")).as_deref(), Some("file"));
    assert_eq!(initial_token(None, None), None);
}

fn repo_client() -> HubApiClient {
    let source = SourceKind::Repo {
        repo_id: "alias".to_string(),
        repo_type: RepoType::Dataset,
        revision: "main".to_string(),
    };
    HubApiClient::from_info(
        "https://hub/",
        None,
        source,
        String::new(),
        Some("user/data"),
        Some("1970-01-01T00:00:09Z"),
    )
    .unwrap()
}

#[test]
fn addresses_of_requests() {
    let c = repo_client();
    assert!(c.is_repo());
    assert_eq!(c.default_mtime(), Span::from_secs(9));
    assert_eq!(c.revision_url(), "https://hub/api/datasets/user/data");
    let root = c.prefixed_path("").unwrap();
    let dir = c.prefixed_path("a/b").unwrap();
    assert_eq!(c.tree_url(&root), "https://hub/api/datasets/user/data/tree/main?expand=true&limit=1000");
    assert_eq!(c.tree_url(&dir), "https://hub/api/datasets/user/data/tree/main/a/b?expand=true&limit=1000");
    assert_eq!(c.resolve_url(&dir), "https://hub/datasets/user/data/resolve/main/a/b");
    assert_eq!(
        c.cas_token_url(),
        "https://hub/api/datasets/user/data/xet-read-token/main"
    );
    assert!(c.cas_write_token_url().is_err());
    assert!(c.token_url(TokenKind::Write).is_err());
    assert!(c.batch_url().is_err());
    let b = make_test_client("sub");
    let base = "https://huggingface.co/api/buckets/user/bucket";
    assert_eq!(source_info_url(&b.endpoint, b.source()), base);
    assert_eq!(
        b.tree_url(&b.prefixed_path("").unwrap()),
        format!("{base}/tree/sub?recursive=false&limit=5000")
    );
    assert_eq!(b.token_url(TokenKind::Read).unwrap(), format!("{base}/xet-read-token"));
    assert_eq!(b.token_url(TokenKind::Write).unwrap(), format!("{base}/xet-write-token"));
    assert_eq!(b.batch_url().unwrap(), format!("{base}/batch"));
    assert_eq!(b.path_prefix(), "sub");
    assert_eq!(resolve_context(b.source()), "resolve bucket user/bucket");
    assert_eq!(resolve_context(c.source()), "resolve repo user/data");
    assert_eq!(token_kind(true), TokenKind::Read);
    assert_eq!(token_kind(false), TokenKind::Write);
    assert_eq!(user_agent("1.2", "fuse"), "hf-mount/1.2; fs/fuse");
}

#[test]
fn repositories_need_an_id() {
    let source = SourceKind::Repo {
        repo_id: "x".to_string(),
        repo_type: RepoType::Model,
        revision: "main".to_string(),
    };
    let r = HubApiClient::from_info("https://hub", None, source, String::new(), None, None);
    assert!(matches!(r, Err(Error::Hub { status: None, .. })));
}

#[test]
fn revisions_of_sources() {
    let probe = |sha: Option<&str>, modified: Option<&str>, updated: Option<&str>| RevisionProbe {
        sha: sha.map(str::to_string),
        last_modified: modified.map(str::to_string),
        updated_at: updated.map(str::to_string),
    };
    let c = repo_client();
    assert_eq!(c.select_revision(probe(Some("s"), Some("m"), Some("u"))).unwrap(), "s");
    assert_eq!(c.select_revision(probe(None, Some("m"), Some("u"))).unwrap(), "m");
    assert!(c.select_revision(probe(None, None, Some("u"))).is_err());
    let b = make_test_client("");
    assert_eq!(b.select_revision(probe(Some("s"), Some("m"), Some("u"))).unwrap(), "u");
    assert!(b.select_revision(probe(Some("s"), Some("m"), None)).is_err());
}

#[test]
fn listings_lose_the_subfolder() {
    let c = make_test_client("sub");
    let shown = c
        .finish_listing("", Ok(vec![entry("sub/a"), entry("sub"), entry("other"), entry("sub/b/c")]))
        .unwrap();
    let paths: Vec<&str> = shown.iter().map(|e| e.path.as_str()).collect();
    assert_eq!(paths, vec!["a", "b/c"]);
}

#[test]
fn subfolders_must_exist() {
    let c = make_test_client("sub");
    assert!(c.check_path_prefix(Ok(vec![entry("a")])).is_ok());
    let empty = c.check_path_prefix(Ok(vec![])).unwrap_err();
    assert!(empty.to_string().contains("'sub' is empty or does not exist in"));
    let missing = c.check_path_prefix(Err(Error::hub("gone"))).unwrap_err();
    assert!(missing.to_string().contains("gone"));
    assert!(make_test_client("").check_path_prefix(Ok(vec![])).is_ok());
}

#[test]
fn names_that_cannot_be_encrypted_are_refused() {
    let c = encrypted_client("");
    let long = "a".repeat(195);
    assert!(matches!(c.prefixed_path(&long), Err(Error::Hub { .. })));
    let ops = vec![
        BatchOp::DeleteFile { path: "ok".to_string() },
        BatchOp::DeleteFile { path: long },
    ];
    assert!(c.remote_ops(&ops).is_err());
}

#[test]
fn encrypted_listings_round_trip() {
    let c = encrypted_client("sub");
    let sent = c.prefixed_path("dir/x.txt").unwrap();
    let shown = c.finish_listing("", Ok(vec![entry(sent.as_body())])).unwrap();
    assert_eq!(shown[0].path, "dir/x.txt");
}

#[test]
fn repo_entries_are_unified() {
    let raw = |lfs: Option<u64>| RepoTreeEntry {
        path: "p".to_string(),
        entry_type: "file".to_string(),
        size: Some(130),
        oid: Some("o".to_string()),
        xet_hash: None,
        lfs_size: lfs,
        last_commit_date: Some("d".to_string()),
    };
    let e = raw(Some(9000)).into_tree_entry();
    assert_eq!(e.size, Some(9000));
    assert_eq!(e.mtime.as_deref(), Some("d"));
    assert_eq!(raw(None).into_tree_entry().size, Some(130));
}

#[test]
fn bodies_hold_one_value_per_line() {
    assert_eq!(ndjson_body(&vec!["{}".to_string(), "[1]".to_string()]), "{}\n[1]\n");
    assert_eq!(ndjson_body(&vec![]), "");
}

#[test]
fn buckets_that_are_repositories() {
    let hint = bucket_failure("user/x", Some(RepoType::Dataset), Error::hub("no"));
    assert!(hint.to_string().contains("user/x is not a bucket, but it exists as a dataset"));
    assert!(matches!(bucket_failure("user/x", None, Error::Io("e".to_string())), Error::Io(_)));
}

#[test]
fn transient_errors() {
    assert!(Error::hub_status(503, "x").is_transient());
    assert!(!Error::hub_status(404, "x").is_transient());
    assert!(!Error::hub("x").is_transient());
    assert_eq!(Error::hub_status(503, "x").status(), Some(503));
    assert_eq!(Error::Xet("x".to_string()).status(), None);
}

#[test]
fn listings_come_page_by_page() {
    let mut pages = TreePages::new("https://hub/tree".to_string());
    assert_eq!(pages.url(), "https://hub/tree");
    let more = pages.add_page(Some("<https://hub/tree?page=2>; rel=\"next\""), vec![entry("a")]);
    assert!(more);
    assert_eq!(pages.url(), "https://hub/tree?page=2");
    assert!(!pages.add_page(Some("<https://hub/tree>; rel=\"prev\""), vec![entry("b"), entry("c")]));
    assert!(!pages.add_page(None, vec![]));
    let paths: Vec<String> = pages.into_entries().into_iter().map(|e| e.path).collect();
    assert_eq!(paths, vec!["a", "b", "c"]);
}
