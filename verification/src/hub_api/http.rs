//! What is decided around HTTP requests: retries, pagination, response
//! headers, tokens and conditional downloads.

use vstd::arithmetic::power2::{lemma2_to64, pow2};
use vstd::prelude::*;

use crate::error::{is_retryable_status, Error, Result};
use crate::text;
use crate::time::Span;

verus! {

/// How often a request is repeated after a transient failure.
pub const MAX_RETRIES: u32 = 2;

/// Longest wait that a rate limit can ask for, in seconds.
pub const MAX_RATE_LIMIT_SECS: u64 = 30;

/// How long a token that was read from a file is used before the file is read
/// again, in seconds.
pub const TOKEN_FILE_REFRESH_SECS: u64 = 30;

/// How long to wait before retry `attempt`: half a second, then twice as long
/// each time.
pub fn retry_delay(attempt: u32) -> (d: Span)
    requires
        0 < attempt <= 56,
    ensures
        d.wf(),
        d.total() == 500_000_000 * pow2((attempt - 1) as nat),
{
    let mut millis: u64 = 500;
    let mut i: u32 = 1;
    proof {
        lemma2_to64();
    }
    while i < attempt
        invariant
            1 <= i <= attempt <= 56,
            millis == 500 * pow2((i - 1) as nat),
        decreases attempt - i,
    {
        proof {
            lemma2_to64();
            vstd::arithmetic::power2::lemma_pow2_unfold(i as nat);
            if i < 55 {
                vstd::arithmetic::power2::lemma_pow2_strictly_increases(i as nat, 55);
            }
            lemma_pow2_55();
        }
        millis = millis * 2;
        i = i + 1;
    }
    Span::from_millis(millis)
}

proof fn lemma_pow2_55()
    ensures
        pow2(55) == 0x80_0000_0000_0000,
{
    lemma2_to64();
    vstd::arithmetic::power2::lemma_pow2_adds(32, 23);
}

/// Each wait is twice as long as the one before it.
pub proof fn law_retry_delay_doubles(attempt: nat)
    requires
        attempt > 0,
    ensures
        500_000_000 * pow2(attempt) == 2 * (500_000_000 * pow2((attempt - 1) as nat)),
{
    vstd::arithmetic::power2::lemma_pow2_unfold(attempt);
}

/// The seconds that one parameter of a rate limit gives, if it is `t=<number>`.
pub open spec fn reset_param(param: Seq<char>) -> Option<nat> {
    let p = text::trimmed(param);
    if "t="@.is_prefix_of(p) {
        text::parsed(p.skip("t="@.len() as int), u64::MAX as nat)
    } else {
        None
    }
}

/// The seconds that the first such parameter gives.
pub open spec fn first_reset(params: Seq<Seq<char>>) -> Option<nat>
    decreases params.len(),
{
    if params.len() == 0 {
        None
    } else if reset_param(params[0]) is Some {
        reset_param(params[0])
    } else {
        first_reset(params.drop_first())
    }
}

/// How long a rate limit asks to wait, in seconds and short of the cap.
pub open spec fn rate_limit_secs(header: Seq<char>) -> Option<nat> {
    match first_reset(text::split(header, ';')) {
        Some(n) => Some(
            if n < MAX_RATE_LIMIT_SECS {
                n
            } else {
                MAX_RATE_LIMIT_SECS as nat
            },
        ),
        None => None,
    }
}

/// Parse the IETF `RateLimit` header for `t=<seconds>` (time until window
/// reset), capped at 30s. Format:
/// `"resource_type";r=<remaining>;t=<seconds_until_reset>`.
pub fn parse_retry_delay(ratelimit: Option<&str>) -> (r: Option<Span>)
    ensures
        match ratelimit {
            None => r is None,
            Some(header) => {
                &&& r is Some <==> rate_limit_secs(header@) is Some
                &&& r matches Some(d) ==> d.wf() && d.total() == rate_limit_secs(header@)->0
                    * 1_000_000_000
            },
        },
{
    let header: &str = match ratelimit {
        Some(h) => h,
        None => {
            return None;
        },
    };
    let parts: Vec<String> = text::split_on(header, ';');
    let ghost params = text::split(header@, ';');
    let mut i: usize = 0;
    assert(params.skip(0) =~= params);
    while i < parts.len()
        invariant
            i <= parts@.len(),
            params == text::views(parts@),
            params == text::split(header@, ';'),
            ratelimit == Some(header),
            first_reset(params) == first_reset(params.skip(i as int)),
        decreases parts@.len() - i,
    {
        let part: String = text::trim(parts[i].as_str());
        proof {
            assert(params.skip(i as int)[0] == parts@[i as int]@);
            assert(params.skip(i as int).drop_first() =~= params.skip(i + 1));
        }
        match text::strip_prefix(part.as_str(), "t=") {
            Some(secs) => {
                match text::parse_u64(secs.as_str()) {
                    Some(n) => {
                        let capped: u64 = if n < MAX_RATE_LIMIT_SECS {
                            n
                        } else {
                            MAX_RATE_LIMIT_SECS
                        };
                        return Some(Span::from_secs(capped));
                    },
                    None => {},
                }
            },
            None => {},
        }
        i = i + 1;
    }
    None
}

/// A rate limit never asks for more than the cap.
pub proof fn law_rate_limit_is_capped(header: Seq<char>)
    ensures
        rate_limit_secs(header) matches Some(n) ==> n <= MAX_RATE_LIMIT_SECS,
{
}

/// How one attempt to send a request went.
pub enum SendOutcome {
    /// A reply came, with this status and this `RateLimit` header.
    Reply { status: u16, ratelimit: Option<String> },
    /// The attempt timed out or no connection was made.
    NoConnection,
    /// The attempt failed in another way.
    Failed,
}

/// What to do after an attempt.
#[derive(Debug, Clone, Copy, PartialEq, Eq, Structural)]
pub enum SendStep {
    /// Hand the reply on.
    Accept,
    /// Wait and send the request again.
    Retry(Span),
    /// Give up on this status.
    RejectStatus(u16),
    /// Give up: there is no reply.
    RejectFailure,
}

/// Whether a status says that the request succeeded.
pub open spec fn success(status: u16) -> bool {
    200 <= status <= 299
}

/// Whether a status redirects elsewhere.
pub open spec fn redirection(status: u16) -> bool {
    300 <= status <= 399
}

/// How long to wait before the next attempt: as long as the reply asks for,
/// else longer with every attempt.
pub open spec fn wait_nanos(ratelimit: Option<Seq<char>>, attempt: u32) -> nat {
    let asked = match ratelimit {
        Some(h) => rate_limit_secs(h),
        None => None,
    };
    match asked {
        Some(n) => n * 1_000_000_000,
        None => 500_000_000 * pow2((attempt - 1) as nat),
    }
}

/// What to do after attempt number `attempt`. Success, and where they are
/// wanted redirections, are accepted; timeouts, rate limits and server errors
/// are retried while attempts are left; anything else ends the request.
pub fn after_send(outcome: &SendOutcome, attempt: u32, accept_redirects: bool) -> (step: SendStep)
    requires
        attempt > 0,
    ensures
        match *outcome {
            SendOutcome::Reply { status, ratelimit } => {
                if success(status) || (accept_redirects && redirection(status)) {
                    step == SendStep::Accept
                } else if crate::error::retryable(status) && attempt <= MAX_RETRIES {
                    step matches SendStep::Retry(d) && d.wf() && d.total() == wait_nanos(
                        match ratelimit {
                            Some(h) => Some(h@),
                            None => None,
                        },
                        attempt,
                    )
                } else {
                    step == SendStep::RejectStatus(status)
                }
            },
            SendOutcome::NoConnection => {
                if attempt <= MAX_RETRIES {
                    step matches SendStep::Retry(d) && d.wf() && d.total() == wait_nanos(
                        None,
                        attempt,
                    )
                } else {
                    step == SendStep::RejectFailure
                }
            },
            SendOutcome::Failed => step == SendStep::RejectFailure,
        },
        attempt > MAX_RETRIES ==> !(step is Retry),
{
    match outcome {
        SendOutcome::Reply { status, ratelimit } => {
            let status: u16 = *status;
            if (200 <= status && status <= 299) || (accept_redirects && 300 <= status && status
                <= 399) {
                return SendStep::Accept;
            }
            if is_retryable_status(status) && attempt <= MAX_RETRIES {
                let header: Option<&str> = match ratelimit {
                    Some(h) => Some(h.as_str()),
                    None => None,
                };
                return match parse_retry_delay(header) {
                    Some(d) => SendStep::Retry(d),
                    None => SendStep::Retry(retry_delay(attempt)),
                };
            }
            SendStep::RejectStatus(status)
        },
        SendOutcome::NoConnection => if attempt <= MAX_RETRIES {
            SendStep::Retry(retry_delay(attempt))
        } else {
            SendStep::RejectFailure
        },
        SendOutcome::Failed => SendStep::RejectFailure,
    }
}

/// The error for a reply that was not accepted.
pub fn status_error(context: &str, status: u16, body: &str) -> (e: Error)
    ensures
        e matches Error::Hub { status: s, message } && s == Some(status) && message@ == context@
            + ": "@ + text::decimal(status as nat) + " "@ + body@,
{
    let mut message: String = context.to_owned();
    message.push_str(": ");
    text::push_decimal(&mut message, status as u64);
    message.push_str(" ");
    message.push_str(body);
    Error::Hub { status: Some(status), message }
}

/// Whether one part of a `Link` header gives the next page.
pub open spec fn is_next_link(part: Seq<char>) -> bool {
    let p = text::trimmed(part);
    &&& text::has_part(p, "rel=\"next\""@)
    &&& p.contains('<')
    &&& p.contains('>')
}

/// The part of a `Link` header that gives the next page.
pub open spec fn next_link(parts: Seq<Seq<char>>) -> Option<Seq<char>>
    decreases parts.len(),
{
    if parts.len() == 0 {
        None
    } else if is_next_link(parts[0]) {
        Some(text::trimmed(parts[0]))
    } else {
        next_link(parts.drop_first())
    }
}

/// Whether the link to the next page, if there is one, opens before it closes.
pub open spec fn link_is_well_formed(header: Seq<char>) -> bool {
    next_link(text::split(header, ',')) matches Some(p) ==> text::find(p, '<') < text::find(p, '>')
}

/// The address of the next page.
pub open spec fn next_page(header: Seq<char>) -> Option<Seq<char>> {
    match next_link(text::split(header, ',')) {
        Some(p) => Some(p.subrange(text::find(p, '<') as int + 1, text::find(p, '>') as int)),
        None => None,
    }
}

/// The part of a `Link` header that gives the next page.
fn find_next_link(header: &str) -> (r: Option<String>)
    ensures
        r is Some <==> next_link(text::split(header@, ',')) is Some,
        r matches Some(p) ==> next_link(text::split(header@, ',')) == Some(p@) && p@.contains('<')
            && p@.contains('>'),
{
    let parts: Vec<String> = text::split_on(header, ',');
    let ghost pieces = text::split(header@, ',');
    let mut i: usize = 0;
    assert(pieces.skip(0) =~= pieces);
    while i < parts.len()
        invariant
            i <= parts@.len(),
            pieces == text::views(parts@),
            pieces == text::split(header@, ','),
            next_link(pieces) == next_link(pieces.skip(i as int)),
        decreases parts@.len() - i,
    {
        let part: String = text::trim(parts[i].as_str());
        proof {
            assert(pieces.skip(i as int)[0] == parts@[i as int]@);
            assert(pieces.skip(i as int).drop_first() =~= pieces.skip(i + 1));
        }
        if text::contains(part.as_str(), "rel=\"next\"") && text::contains_char(part.as_str(), '<')
            && text::contains_char(part.as_str(), '>') {
            return Some(part);
        }
        i = i + 1;
    }
    None
}

/// Whether the link to the next page, if there is one, opens before it closes.
pub fn check_link(header: &str) -> (r: bool)
    ensures
        r == link_is_well_formed(header@),
{
    match find_next_link(header) {
        Some(p) => {
            let v: Vec<char> = text::chars_of(p.as_str());
            assert(v@.skip(0) =~= v@);
            text::find_from(&v, 0, '<') < text::find_from(&v, 0, '>')
        },
        None => true,
    }
}

/// Parse `Link` header to extract the URL with `rel="next"`.
/// Format: `<https://example.com/page2>; rel="next", <...>; rel="prev"`
pub fn parse_link_next(header: &str) -> (r: Option<String>)
    requires
        link_is_well_formed(header@),
    ensures
        r is Some <==> next_page(header@) is Some,
        r matches Some(url) ==> next_page(header@) == Some(url@),
{
    match find_next_link(header) {
        Some(p) => {
            let v: Vec<char> = text::chars_of(p.as_str());
            assert(v@.skip(0) =~= v@);
            let start: usize = text::find_from(&v, 0, '<');
            let end: usize = text::find_from(&v, 0, '>');
            Some(text::string_of(&v, start + 1, end))
        },
        None => None,
    }
}

/// The Unix time in seconds that an RFC 3339 date and time gives.
pub uninterp spec fn rfc3339_seconds(text: Seq<char>) -> Option<i64>;

/// The Unix time in seconds that an RFC 2822 date and time gives.
pub uninterp spec fn rfc2822_seconds(text: Seq<char>) -> Option<i64>;

/// `DateTime::parse_from_rfc3339` and the `timestamp` of what it gives: they
/// depend on the text alone.
#[verifier::external_body]
fn parse_rfc3339(text: &str) -> (r: Option<i64>)
    ensures
        r == rfc3339_seconds(text@),
{
    chrono::DateTime::parse_from_rfc3339(text).ok().map(|t| t.timestamp())
}

/// `DateTime::parse_from_rfc2822` and the `timestamp` of what it gives: they
/// depend on the text alone.
#[verifier::external_body]
fn parse_rfc2822(text: &str) -> (r: Option<i64>)
    ensures
        r == rfc2822_seconds(text@),
{
    chrono::DateTime::parse_from_rfc2822(text).ok().map(|t| t.timestamp())
}

/// The modification time for a parsed timestamp: the epoch where there is none
/// or it lies before the epoch.
pub open spec fn mtime_of(seconds: Option<i64>) -> Span {
    match seconds {
        Some(s) => if s >= 0 {
            Span { secs: s as u64, nanos: 0 }
        } else {
            Span { secs: 0, nanos: 0 }
        },
        None => Span { secs: 0, nanos: 0 },
    }
}

/// The modification time for a parsed timestamp: the epoch where there is none
/// or it lies before the epoch.
pub fn mtime_from_seconds(seconds: Option<i64>) -> (t: Span)
    ensures
        t == mtime_of(seconds),
        t.wf(),
{
    match seconds {
        Some(s) => if s >= 0 {
            Span { secs: s as u64, nanos: 0 }
        } else {
            Span { secs: 0, nanos: 0 }
        },
        None => Span { secs: 0, nanos: 0 },
    }
}

/// Parse an RFC 3339 modification time, as listings and repo info give it.
pub fn mtime_from_str(s: &str) -> (t: Span)
    ensures
        t == mtime_of(rfc3339_seconds(s@)),
        t.wf(),
{
    mtime_from_seconds(parse_rfc3339(s))
}

/// Parse HTTP-date format (e.g. "Sat, 28 Feb 2026 14:52:39 GMT") from
/// Last-Modified header.
pub fn mtime_from_http_date(s: &str) -> (t: Span)
    ensures
        t == mtime_of(rfc2822_seconds(s@)),
        t.wf(),
{
    mtime_from_seconds(parse_rfc2822(s))
}

/// The value of a response header.
pub enum Header {
    Absent,
    /// The value is not text.
    Opaque,
    Text(String),
}

impl Header {
    /// The text of this value, if it is present and text.
    pub open spec fn value(self) -> Option<Seq<char>> {
        match self {
            Header::Text(s) => Some(s@),
            _ => None,
        }
    }
}

/// The first of two headers that is present.
pub open spec fn first_present(a: Header, b: Header) -> Header {
    if a is Absent {
        b
    } else {
        a
    }
}

/// Metadata returned by HEAD on the resolve endpoint
#[derive(Debug, Clone)]
pub struct HeadFileInfo {
    pub xet_hash: Option<String>,
    pub etag: Option<String>,
    pub size: Option<u64>,
    pub last_modified: Option<String>,
}

/// The texts of optional strings.
pub open spec fn opt_view(s: Option<String>) -> Option<Seq<char>> {
    match s {
        Some(s) => Some(s@),
        None => None,
    }
}

/// A copy of an optional string.
pub(crate) fn clone_opt(s: &Option<String>) -> (r: Option<String>)
    ensures
        r == *s,
{
    match s {
        Some(s) => Some(s.clone()),
        None => None,
    }
}

/// An entity tag without its quotes.
pub open spec fn unquoted(s: Seq<char>) -> Seq<char> {
    text::trim_end_char(text::trim_start_char(s, '"'), '"')
}

/// The text of a header.
fn header_text(h: Header) -> (r: Option<String>)
    ensures
        opt_view(r) == h.value(),
{
    match h {
        Header::Text(s) => Some(s),
        _ => None,
    }
}

/// The first of two headers that is present.
fn present(a: Header, b: Header) -> (h: Header)
    ensures
        h == first_present(a, b),
{
    match a {
        Header::Absent => b,
        other => other,
    }
}

/// What the headers of a HEAD reply say of a file. The size is that of the
/// linked blob if the reply names one (LFS pointer's true blob size), else the
/// content length; likewise for the entity tag.
pub fn head_file_info(
    xet_hash: Header,
    linked_size: Header,
    content_length: Header,
    linked_etag: Header,
    etag: Header,
    last_modified: Header,
) -> (info: HeadFileInfo)
    ensures
        opt_view(info.xet_hash) == xet_hash.value(),
        opt_view(info.last_modified) == last_modified.value(),
        opt_view(info.etag) == match first_present(linked_etag, etag).value() {
            Some(s) => Some(unquoted(s)),
            None => None,
        },
        match first_present(linked_size, content_length).value() {
            Some(s) => {
                &&& info.size is Some <==> text::parsed(s, u64::MAX as nat) is Some
                &&& info.size matches Some(n) ==> text::parsed(s, u64::MAX as nat) == Some(n as nat)
            },
            None => info.size is None,
        },
{
    let size: Option<u64> = match header_text(present(linked_size, content_length)) {
        Some(s) => text::parse_u64(s.as_str()),
        None => None,
    };
    let tag: Option<String> = match header_text(present(linked_etag, etag)) {
        Some(s) => Some(text::trim_matches(s.as_str(), '"')),
        None => None,
    };
    HeadFileInfo {
        xet_hash: header_text(xet_hash),
        etag: tag,
        size,
        last_modified: header_text(last_modified),
    }
}

/// What a failed HEAD request means: a file that is not there, or the error.
pub fn head_failure(e: Error) -> (r: Result<Option<HeadFileInfo>>)
    ensures
        match r {
            Ok(info) => e.spec_status() == Some(404u16) && info is None,
            Err(f) => e.spec_status() != Some(404u16) && f == e,
        },
{
    match e.status() {
        Some(status) => if status == 404 {
            Ok(None)
        } else {
            Err(e)
        },
        None => Err(e),
    }
}

/// The `If-None-Match` header of a download: the tag that was kept beside the
/// file, in quotes, but only where the file itself is there. A tag without its
/// file could otherwise make the server answer that nothing has changed.
pub fn if_none_match(dest_exists: bool, kept_tag: Option<&str>) -> (r: Option<String>)
    ensures
        match kept_tag {
            Some(tag) => {
                &&& r is Some <==> dest_exists
                &&& r matches Some(h) ==> h@ == "\""@ + text::trimmed(tag@) + "\""@
            },
            None => r is None,
        },
{
    match kept_tag {
        Some(tag) => if dest_exists {
            let mut h: String = "\"".to_owned();
            h.push_str(text::trim(tag).as_str());
            h.push_str("\"");
            Some(h)
        } else {
            None
        },
        None => None,
    }
}

/// Where the tag of a downloaded file is kept, beside the file itself.
pub fn etag_path(dest: &str) -> (s: String)
    ensures
        s@ == dest@ + ".etag"@,
{
    let mut s: String = dest.to_owned();
    s.push_str(".etag");
    s
}

/// What a failed download request means: the file that is there is current, or
/// the error.
pub fn download_failure(e: Error) -> (r: Result<()>)
    ensures
        match r {
            Ok(_) => e.spec_status() == Some(304u16),
            Err(f) => e.spec_status() != Some(304u16) && f == e,
        },
{
    match e.status() {
        Some(status) => if status == 304 {
            Ok(())
        } else {
            Err(e)
        },
        None => Err(e),
    }
}

/// The tag to keep beside a downloaded file: that of the reply, without its
/// quotes. Where there is none, a tag that was kept before is removed.
pub fn tag_to_keep(etag: Header) -> (r: Option<String>)
    ensures
        opt_view(r) == match etag.value() {
            Some(s) => Some(unquoted(s)),
            None => None,
        },
{
    match header_text(etag) {
        Some(s) => Some(text::trim_matches(s.as_str(), '"')),
        None => None,
    }
}

/// The tag that was kept, sent back, is the tag that the server gave, in
/// quotes, if it holds no white space at its ends.
pub proof fn law_kept_tag_is_sent_back(etag: Seq<char>)
    requires
        unquoted(etag).len() > 0 ==> !text::is_space(unquoted(etag)[0]) && !text::is_space(
            unquoted(etag).last(),
        ),
    ensures
        text::trimmed(unquoted(etag)) == unquoted(etag),
{
    text::lemma_trim_identity(unquoted(etag));
}

/// The token that a token file holds: its content without white space around
/// it, if anything is left.
pub open spec fn token_in(contents: Seq<char>) -> Option<Seq<char>> {
    if text::trimmed(contents).len() > 0 {
        Some(text::trimmed(contents))
    } else {
        None
    }
}

/// The token that a token file holds.
pub fn token_from_file(contents: Option<&str>) -> (r: Option<String>)
    ensures
        opt_view(r) == match contents {
            Some(c) => token_in(c@),
            None => None,
        },
{
    match contents {
        Some(c) => {
            let t: String = text::trim(c);
            if t.as_str().is_empty() {
                None
            } else {
                Some(t)
            }
        },
        None => None,
    }
}

/// The token to use while a client is set up: the one in the token file, which
/// takes precedence when the file exists and is not empty, else the one given.
pub fn initial_token(token: Option<&str>, file_contents: Option<&str>) -> (r: Option<String>)
    ensures
        opt_view(r) == match file_contents {
            Some(c) if token_in(c@) is Some => token_in(c@),
            _ => match token {
                Some(t) => Some(t@),
                None => None,
            },
        },
{
    match token_from_file(file_contents) {
        Some(t) => Some(t),
        None => match token {
            Some(t) => Some(t.to_owned()),
            None => None,
        },
    }
}

/// A token that was read from a file, and when.
pub struct TokenCache {
    /// The clock reading at the time of the read, and the token.
    entry: Option<(Span, String)>,
}

impl TokenCache {
    /// The token that was read last.
    pub closed spec fn token(self) -> Option<Seq<char>> {
        match self.entry {
            Some((_, t)) => Some(t@),
            None => None,
        }
    }

    /// The clock reading when it was read.
    pub closed spec fn read_at(self) -> Option<Span> {
        match self.entry {
            Some((at, _)) => Some(at),
            None => None,
        }
    }

    /// Whether the clock reading is a proper one.
    pub open spec fn wf(self) -> bool {
        self.read_at() matches Some(at) ==> at.wf()
    }

    /// No token was read yet.
    pub fn new() -> (c: TokenCache)
        ensures
            c.wf(),
            c.token() is None,
            c.read_at() is None,
    {
        TokenCache { entry: None }
    }

    /// Whether the file is due to be read: nothing was read yet, or longer ago
    /// than the refresh interval.
    pub fn needs_refresh(&self, now: Span) -> (r: bool)
        requires
            self.wf(),
            now.wf(),
        ensures
            r == match self.read_at() {
                Some(at) => now.total() >= at.total() + TOKEN_FILE_REFRESH_SECS * 1_000_000_000,
                None => true,
            },
    {
        match &self.entry {
            Some((at, _)) => {
                if at.secs > u64::MAX - TOKEN_FILE_REFRESH_SECS {
                    assert(now.total() < at.total() + 30 * 1_000_000_000);
                    false
                } else {
                    let due: Span = Span {
                        secs: at.secs + TOKEN_FILE_REFRESH_SECS,
                        nanos: at.nanos,
                    };
                    now.at_least(&due)
                }
            },
            None => true,
        }
    }

    /// Takes in what a read of the file gave. A file that cannot be read or
    /// holds no token leaves the cache as it is.
    pub fn store(&mut self, now: Span, contents: Option<&str>)
        requires
            old(self).wf(),
            now.wf(),
        ensures
            final(self).wf(),
            match contents {
                Some(c) => match token_in(c@) {
                    Some(t) => final(self).token() == Some(t) && final(self).read_at() == Some(now),
                    None => *final(self) == *old(self),
                },
                None => *final(self) == *old(self),
            },
    {
        match token_from_file(contents) {
            Some(t) => {
                self.entry = Some((now, t));
            },
            None => {},
        }
    }

    /// The token to send: the one from the file if there is one, else the one
    /// given.
    pub fn bearer<'a>(&'a self, token: Option<&'a str>) -> (r: Option<&'a str>)
        ensures
            match r {
                Some(t) => match self.token() {
                    Some(cached) => t@ == cached,
                    None => token matches Some(given) && t@ == given@,
                },
                None => self.token() is None && token is None,
            },
    {
        match &self.entry {
            Some((_, t)) => Some(t.as_str()),
            None => token,
        }
    }

    /// The token that was read last.
    pub fn cached(&self) -> (r: Option<&str>)
        ensures
            match r {
                Some(t) => self.token() == Some(t@),
                None => self.token() is None,
            },
    {
        match &self.entry {
            Some((_, t)) => Some(t.as_str()),
            None => None,
        }
    }
}

/// The first retry comes after half a second, and each further one after twice as
/// long as the one before it.
pub proof fn law_retry_delays(attempt: u32, d: Span, later: Span)
    requires
        0 < attempt < 56,
        call_ensures(retry_delay, (attempt,), d),
        call_ensures(retry_delay, ((attempt + 1) as u32,), later),
    ensures
        attempt == 1 ==> d.secs == 0 && d.nanos == 500_000_000,
        later.total() == 2 * d.total(),
{
    lemma2_to64();
    law_retry_delay_doubles(attempt as nat);
}

/// A reply is accepted if it says that the request succeeded, and a redirection
/// where it is wanted; nothing else is.
pub proof fn law_success_is_accepted(
    outcome: SendOutcome,
    attempt: u32,
    redirects: bool,
    step: SendStep,
    status: u16,
    ratelimit: Option<String>,
)
    requires
        attempt > 0,
        call_ensures(after_send, (&outcome, attempt, redirects), step),
        outcome == (SendOutcome::Reply { status, ratelimit }),
    ensures
        step == SendStep::Accept <==> (200 <= status < 300) || (300 <= status < 400 && redirects),
{
}

/// Timeouts, rate limits and server errors are tried again twice, and no more; any
/// other refusal ends the request at once, with the status that came.
pub proof fn law_refusals_are_retried_twice(
    outcome: SendOutcome,
    attempt: u32,
    redirects: bool,
    step: SendStep,
    status: u16,
    ratelimit: Option<String>,
)
    requires
        attempt > 0,
        call_ensures(after_send, (&outcome, attempt, redirects), step),
        outcome == (SendOutcome::Reply { status, ratelimit }),
        status >= 400 || status < 200 || (300 <= status < 400 && !redirects),
    ensures
        step is Retry <==> attempt <= 2 && (status == 408 || status == 429 || 500 <= status < 600),
        !(step is Retry) ==> step == SendStep::RejectStatus(status),
{
}

/// Without a reply a request is tried again twice, if it got nowhere, and ends at
/// once if it failed in another way.
pub proof fn law_lost_requests_are_retried_twice(
    outcome: SendOutcome,
    attempt: u32,
    redirects: bool,
    step: SendStep,
)
    requires
        attempt > 0,
        call_ensures(after_send, (&outcome, attempt, redirects), step),
        !(outcome is Reply),
    ensures
        outcome is NoConnection && attempt <= 2 ==> step is Retry,
        outcome is NoConnection && attempt > 2 ==> step == SendStep::RejectFailure,
        outcome is Failed ==> step == SendStep::RejectFailure,
{
}

/// A retry waits for as long as the rate limit asks for, if it does, else for half a
/// second the first time and for a second the next.
pub proof fn law_retries_wait(
    outcome: SendOutcome,
    attempt: u32,
    redirects: bool,
    wait: Span,
)
    requires
        attempt > 0,
        call_ensures(after_send, (&outcome, attempt, redirects), SendStep::Retry(wait)),
    ensures
        ({
            let asked = match outcome {
                SendOutcome::Reply { status, ratelimit: Some(h) } => rate_limit_secs(h@),
                _ => None,
            };
            match asked {
                Some(n) => wait.secs == n && wait.nanos == 0,
                None => (attempt == 1 && wait.secs == 0 && wait.nanos == 500_000_000) || (attempt
                    == 2 && wait.secs == 1 && wait.nanos == 0),
            }
        }),
{
    lemma2_to64();
}

proof fn lemma_first_reset(params: Seq<Seq<char>>, k: int)
    requires
        0 <= k < params.len(),
        reset_param(params[k]) is Some,
        forall|j: int| 0 <= j < k ==> reset_param(#[trigger] params[j]) is None,
    ensures
        first_reset(params) == reset_param(params[k]),
    decreases params.len(),
{
    if k > 0 {
        let rest = params.drop_first();
        assert(reset_param(params[0]) is None);
        assert(rest[k - 1] == params[k]);
        assert forall|j: int| 0 <= j < k - 1 implies reset_param(#[trigger] rest[j]) is None by {
            assert(rest[j] == params[j + 1]);
        }
        lemma_first_reset(rest, k - 1);
    }
}

proof fn lemma_no_reset(params: Seq<Seq<char>>)
    requires
        forall|j: int| 0 <= j < params.len() ==> reset_param(#[trigger] params[j]) is None,
    ensures
        first_reset(params) is None,
    decreases params.len(),
{
    if params.len() > 0 {
        let rest = params.drop_first();
        assert(reset_param(params[0]) is None);
        assert forall|j: int| 0 <= j < rest.len() implies reset_param(#[trigger] rest[j]) is None by {
            assert(rest[j] == params[j + 1]);
        }
        lemma_no_reset(rest);
    }
}

/// The first parameter `t=` of a rate limit says in seconds how long to wait, with
/// or without space around it and wherever it stands, but never longer than half a
/// minute.
pub proof fn law_rate_limit_gives_the_wait(
    params: Seq<Seq<char>>,
    k: int,
    before: Seq<char>,
    n: nat,
    after: Seq<char>,
)
    requires
        0 <= k < params.len(),
        forall|j: int| 0 <= j < params.len() ==> !(#[trigger] params[j]).contains(';'),
        params[k] == before + seq!['t', '='] + text::decimal(n) + after,
        text::all_space(before),
        text::all_space(after),
        n <= u64::MAX,
        forall|j: int|
            0 <= j < k ==> !seq!['t', '='].is_prefix_of(text::trimmed(#[trigger] params[j])),
    ensures
        rate_limit_secs(text::join(params, ';')) == Some(
            if n <= 30 {
                n
            } else {
                30
            },
        ),
{
    reveal_strlit("t=");
    assert("t="@ =~= seq!['t', '=']);
    text::lemma_split_join(params, ';');
    let value = seq!['t', '='] + text::decimal(n);
    assert(params[k] =~= before + value + after);
    text::lemma_trim_around(before, value, after);
    text::lemma_decimal(n);
    assert(text::is_digit(text::decimal(n).last()));
    assert(value.last() == text::decimal(n).last());
    text::lemma_trim_identity(value);
    assert(value.skip(2) =~= text::decimal(n));
    assert(value.subrange(0, 2) =~= "t="@);
    text::lemma_parse_decimal(n, u64::MAX as nat);
    assert(reset_param(params[k]) == Some(n));
    assert forall|j: int| 0 <= j < k implies reset_param(#[trigger] params[j]) is None by {}
    lemma_first_reset(params, k);
}

/// Without such a parameter a rate limit asks for nothing.
pub proof fn law_rate_limit_without_a_wait(params: Seq<Seq<char>>)
    requires
        params.len() > 0,
        forall|j: int|
            0 <= j < params.len() ==> !(#[trigger] params[j]).contains(';')
                && !seq!['t', '='].is_prefix_of(text::trimmed(params[j])),
    ensures
        rate_limit_secs(text::join(params, ';')) is None,
{
    reveal_strlit("t=");
    assert("t="@ =~= seq!['t', '=']);
    text::lemma_split_join(params, ';');
    assert forall|j: int| 0 <= j < params.len() implies reset_param(
        #[trigger] params[j],
    ) is None by {
        assert(!params[j].contains(';'));
    }
    lemma_no_reset(params);
}

proof fn lemma_first_next(parts: Seq<Seq<char>>, k: int)
    requires
        0 <= k < parts.len(),
        is_next_link(parts[k]),
        forall|j: int| 0 <= j < k ==> !is_next_link(#[trigger] parts[j]),
    ensures
        next_link(parts) == Some(text::trimmed(parts[k])),
    decreases parts.len(),
{
    if k > 0 {
        let rest = parts.drop_first();
        assert(!is_next_link(parts[0]));
        assert(rest[k - 1] == parts[k]);
        assert forall|j: int| 0 <= j < k - 1 implies !is_next_link(#[trigger] rest[j]) by {
            assert(rest[j] == parts[j + 1]);
        }
        lemma_first_next(rest, k - 1);
    }
}

proof fn lemma_no_next(parts: Seq<Seq<char>>)
    requires
        forall|j: int| 0 <= j < parts.len() ==> !is_next_link(#[trigger] parts[j]),
    ensures
        next_link(parts) is None,
    decreases parts.len(),
{
    if parts.len() > 0 {
        let rest = parts.drop_first();
        assert(!is_next_link(parts[0]));
        assert forall|j: int| 0 <= j < rest.len() implies !is_next_link(#[trigger] rest[j]) by {
            assert(rest[j] == parts[j + 1]);
        }
        lemma_no_next(rest);
    }
}

/// The next page is at the address in angle brackets of the first link that says
/// so, wherever it stands among the others.
pub proof fn law_next_link_is_followed(
    parts: Seq<Seq<char>>,
    k: int,
    before: Seq<char>,
    url: Seq<char>,
)
    requires
        0 <= k < parts.len(),
        forall|j: int| 0 <= j < parts.len() ==> !(#[trigger] parts[j]).contains(','),
        parts[k] == before + seq!['<'] + url + ">; rel=\"next\""@,
        text::all_space(before),
        !url.contains('<'),
        !url.contains('>'),
        forall|j: int|
            0 <= j < k ==> !text::has_part(text::trimmed(#[trigger] parts[j]), "rel=\"next\""@),
    ensures
        link_is_well_formed(text::join(parts, ',')),
        next_page(text::join(parts, ',')) == Some(url),
{
    reveal_strlit(">; rel=\"next\"");
    reveal_strlit("rel=\"next\"");
    text::lemma_split_join(parts, ',');
    let tail = ">; rel=\"next\""@;
    let link = seq!['<'] + url + tail;
    assert(parts[k] =~= before + link + Seq::<char>::empty());
    text::lemma_trim_around(before, link, Seq::empty());
    assert(link.last() == '"');
    text::lemma_trim_identity(link);
    let n = url.len() as int;
    assert(link[n + 1] == '>');
    assert(link[0] == '<');
    assert(link.contains('<') && link.contains('>'));
    let rel = "rel=\"next\""@;
    assert(link.subrange(n + 4, n + 4 + rel.len()) =~= rel);
    assert(text::has_part(link, rel));
    assert(is_next_link(parts[k]));
    assert forall|j: int| 0 <= j < k implies !is_next_link(#[trigger] parts[j]) by {}
    lemma_first_next(parts, k);
    text::lemma_find_unique(link, '<', 0);
    assert forall|j: int| 0 <= j < n + 1 implies link[j] != '>' by {
        if j > 0 {
            assert(link[j] == url[j - 1]);
        }
    }
    text::lemma_find_unique(link, '>', n + 1);
    assert(link.subrange(1, n + 1) =~= url);
}

/// Without a link that says so there is no next page.
pub proof fn law_last_page_has_no_next(parts: Seq<Seq<char>>)
    requires
        parts.len() > 0,
        forall|j: int|
            0 <= j < parts.len() ==> !(#[trigger] parts[j]).contains(',') && !text::has_part(
                text::trimmed(parts[j]),
                "rel=\"next\""@,
            ),
    ensures
        next_page(text::join(parts, ',')) is None,
{
    text::lemma_split_join(parts, ',');
    assert forall|j: int| 0 <= j < parts.len() implies !is_next_link(#[trigger] parts[j]) by {
        assert(!parts[j].contains(','));
    }
    lemma_no_next(parts);
}

/// A time after the epoch is kept to the second, and anything else is the epoch.
pub proof fn law_times_are_kept_to_the_second(seconds: Option<i64>, t: Span)
    requires
        call_ensures(mtime_from_seconds, (seconds,), t),
    ensures
        t.nanos == 0,
        seconds matches Some(s) ==> t.secs == if s >= 0 {
            s as int
        } else {
            0
        },
        seconds is None ==> t.secs == 0,
{
}

/// A later time is not taken for an earlier one.
pub proof fn law_times_keep_their_order(a: i64, b: i64)
    requires
        a <= b,
    ensures
        mtime_of(Some(a)).total() <= mtime_of(Some(b)).total(),
        0 <= a < b ==> mtime_of(Some(b)).total() - mtime_of(Some(a)).total() == (b - a)
            * 1_000_000_000,
{
}

/// Quotes around a tag are taken off; a tag without quotes stays as it is.
pub proof fn law_quotes_are_taken_off(tag: Seq<char>)
    requires
        tag.len() > 0 ==> tag[0] != '"' && tag.last() != '"',
    ensures
        unquoted(seq!['"'] + tag + seq!['"']) == tag,
        unquoted(tag) == tag,
{
    let q = seq!['"'] + tag + seq!['"'];
    assert(q.drop_first() =~= tag + seq!['"']);
    if tag.len() == 0 {
        assert(tag + seq!['"'] =~= seq!['"']);
        assert(seq!['"'].drop_first() =~= tag);
        assert(text::trim_start_char(seq!['"'], '"') == text::trim_start_char(tag, '"'));
        assert(text::trim_start_char(q, '"') == text::trim_start_char(q.drop_first(), '"'));
    } else {
        let end = tag + seq!['"'];
        assert(end[0] == tag[0]);
        assert(text::trim_start_char(end, '"') == end);
        assert(text::trim_start_char(q, '"') == end);
        assert(end.last() == '"');
        assert(end.drop_last() =~= tag);
        assert(text::trim_end_char(tag, '"') == tag);
        assert(text::trim_end_char(end, '"') == text::trim_end_char(tag, '"'));
    }
}

/// What a HEAD reply says of the linked blob goes before what it says of the
/// pointer to it, each for itself; where it says nothing of the blob, the pointer
/// counts.
pub proof fn law_linked_blob_goes_first(
    xet_hash: Header,
    linked_size: Header,
    content_length: Header,
    linked_etag: Header,
    etag: Header,
    last_modified: Header,
    info: HeadFileInfo,
    n: u64,
    tag: Seq<char>,
)
    requires
        call_ensures(
            head_file_info,
            (xet_hash, linked_size, content_length, linked_etag, etag, last_modified),
            info,
        ),
        tag.len() > 0 ==> tag[0] != '"' && tag.last() != '"',
    ensures
        linked_size.value() == Some(text::decimal(n as nat)) ==> info.size == Some(n),
        linked_size is Absent && content_length.value() == Some(text::decimal(n as nat))
            ==> info.size == Some(n),
        linked_size is Absent && content_length.value() is None ==> info.size is None,
        linked_size is Opaque ==> info.size is None,
        linked_etag.value() == Some(seq!['"'] + tag + seq!['"']) ==> opt_view(info.etag) == Some(
            tag,
        ),
        linked_etag is Absent && etag.value() == Some(seq!['"'] + tag + seq!['"']) ==> opt_view(
            info.etag,
        ) == Some(tag),
        linked_etag is Absent && etag.value() is None ==> info.etag is None,
        xet_hash matches Header::Text(h) ==> opt_view(info.xet_hash) == Some(h@),
        last_modified matches Header::Text(m) ==> opt_view(info.last_modified) == Some(m@),
        xet_hash is Absent ==> info.xet_hash is None,
        last_modified is Absent ==> info.last_modified is None,
{
    text::lemma_parse_decimal(n as nat, u64::MAX as nat);
    law_quotes_are_taken_off(tag);
}

/// A tag is sent only for a file that is there, and in quotes, as it was kept.
pub proof fn law_tags_are_sent_for_files_that_are_there(
    dest_exists: bool,
    kept: Option<&str>,
    r: Option<String>,
)
    requires
        call_ensures(if_none_match, (dest_exists, kept), r),
        kept matches Some(tag) ==> tag@.len() > 0 && !text::is_space(tag@[0]) && !text::is_space(
            tag@.last(),
        ),
    ensures
        !dest_exists ==> r is None,
        kept is None ==> r is None,
        dest_exists ==> (kept matches Some(tag) ==> opt_view(r) == Some(
            seq!['"'] + tag@ + seq!['"'],
        )),
{
    reveal_strlit("\"");
    assert("\""@ =~= seq!['"']);
    if let Some(tag) = kept {
        text::lemma_trim_identity(tag@);
    }
}

/// A token file gives the token in it, with or without white space around it; one
/// with nothing but white space gives none.
pub proof fn law_token_files_give_their_token(
    before: Seq<char>,
    token: Seq<char>,
    after: Seq<char>,
)
    requires
        text::all_space(before),
        text::all_space(after),
        token.len() > 0 ==> !text::is_space(token[0]) && !text::is_space(token.last()),
    ensures
        token.len() > 0 ==> token_in(before + token + after) == Some(token),
        token.len() == 0 ==> token_in(before + token + after) is None,
{
    text::lemma_trim_around(before, token, after);
    text::lemma_trim_identity(token);
}

/// A token in the token file goes before the one that was given, which is used where
/// the file is missing or holds none.
pub proof fn law_token_file_goes_first(
    given: Option<&str>,
    contents: Option<&str>,
    r: Option<String>,
)
    requires
        call_ensures(initial_token, (given, contents), r),
    ensures
        contents matches Some(c) ==> (token_in(c@) is Some ==> opt_view(r) == token_in(c@)),
        contents is None ==> (given matches Some(t) ==> opt_view(r) == Some(t@)),
        contents is None && given is None ==> r is None,
        contents matches Some(c) ==> (text::trimmed(c@).len() == 0 ==> match given {
            Some(t) => opt_view(r) == Some(t@),
            None => r is None,
        }),
{
}

/// A missing file is no failure of a HEAD request, and an unchanged one none of a
/// download; every other failure is handed on as it is.
pub proof fn law_failures_are_handed_on(
    e: Error,
    head: Result<Option<HeadFileInfo>>,
    download: Result<()>,
)
    requires
        call_ensures(head_failure, (e,), head),
        call_ensures(download_failure, (e,), download),
    ensures
        head is Ok <==> e.spec_status() == Some(404u16),
        head is Ok ==> head->Ok_0 is None,
        head is Err ==> head->Err_0 == e,
        download is Ok <==> e.spec_status() == Some(304u16),
        download is Err ==> download->Err_0 == e,
{
}

/// A token that was read is used for half a minute, and one that was not read yet is
/// due at once.
pub proof fn law_tokens_are_read_again(cache: TokenCache, now: Span, due: bool)
    requires
        cache.wf(),
        now.wf(),
        call_ensures(TokenCache::needs_refresh, (&cache, now), due),
    ensures
        cache.read_at() is None ==> due,
        cache.read_at() matches Some(at) ==> due == (now.total() >= at.total() + 30_000_000_000),
{
}

/// The token that is sent is the one from the file, where one was read, else the one
/// that was given.
pub proof fn law_token_that_is_sent(cache: TokenCache, given: Option<&str>, sent: Option<&str>)
    requires
        call_ensures(TokenCache::bearer, (&cache, given), sent),
    ensures
        cache.token() is Some ==> sent is Some && Some(sent->0@) == cache.token(),
        cache.token() is None ==> sent is Some == given is Some,
        cache.token() is None && given is Some ==> sent->0@ == given->0@,
{
}

/// The tag that is kept is that of the reply without its quotes; a reply without one
/// leaves none.
pub proof fn law_tag_that_is_kept(etag: Header, r: Option<String>, tag: Seq<char>)
    requires
        call_ensures(tag_to_keep, (etag,), r),
        tag.len() > 0 ==> tag[0] != '"' && tag.last() != '"',
    ensures
        etag.value() == Some(seq!['"'] + tag + seq!['"']) ==> opt_view(r) == Some(tag),
        etag.value() == Some(tag) ==> opt_view(r) == Some(tag),
        etag is Absent || etag is Opaque ==> r is None,
{
    law_quotes_are_taken_off(tag);
}

/// The error for a reply has its status, and says what was asked, the status and
/// what came.
pub proof fn law_reply_errors_keep_the_status(context: &str, status: u16, body: &str, e: Error)
    requires
        call_ensures(status_error, (context, status, body), e),
    ensures
        e.spec_status() == Some(status),
        e matches Error::Hub { status: s, message } && message@ == context@ + ": "@ + text::decimal(
            status as nat,
        ) + " "@ + body@,
{
}

} // verus!
