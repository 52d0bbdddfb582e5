//! The client's view of a source: which paths it asks for, and what it makes
//! of listings.

use std::sync::Arc;

use vstd::prelude::*;
use vstd::string::StrSliceExecFns;
use vstd::utf8::encode_utf8;

use crate::encryption::path;
use crate::encryption::path::PathCipher;
use crate::encryption::url;
use crate::encryption::ENC_ROOT;
use crate::error::{Error, Result};
use crate::hctr2;
use crate::hub_api::http;
use crate::hub_api::source::{RepoType, SourceKind};
use crate::text;
use crate::time::Span;

verus! {

/// Unified tree entry exposed to the rest of the codebase.
#[derive(Debug, Clone)]
pub struct TreeEntry {
    pub path: String,
    pub entry_type: String,
    pub size: Option<u64>,
    pub xet_hash: Option<String>,
    /// Git blob OID (same value as ETag on resolve endpoint).
    pub oid: Option<String>,
    pub mtime: Option<String>,
}

/// The contents of a tree entry.
#[verifier::ext_equal]
pub struct EntryView {
    pub path: Seq<char>,
    pub entry_type: Seq<char>,
    pub size: Option<u64>,
    pub xet_hash: Option<Seq<char>>,
    pub oid: Option<Seq<char>>,
    pub mtime: Option<Seq<char>>,
}

impl View for TreeEntry {
    type V = EntryView;

    open spec fn view(&self) -> EntryView {
        EntryView {
            path: self.path@,
            entry_type: self.entry_type@,
            size: self.size,
            xet_hash: http::opt_view(self.xet_hash),
            oid: http::opt_view(self.oid),
            mtime: http::opt_view(self.mtime),
        }
    }
}

/// The contents of a list of tree entries.
pub open spec fn entry_views(entries: Seq<TreeEntry>) -> Seq<EntryView> {
    entries.map_values(|e: TreeEntry| e@)
}

/// The same entry under another path.
pub open spec fn at_path(e: EntryView, path: Seq<char>) -> EntryView {
    EntryView { path, ..e }
}

/// The entries whose path `f` maps to another, under that path.
pub open spec fn kept(
    f: spec_fn(Seq<char>) -> Option<Seq<char>>,
    entries: Seq<EntryView>,
) -> Seq<EntryView>
    decreases entries.len(),
{
    if entries.len() == 0 {
        Seq::empty()
    } else {
        match f(entries.last().path) {
            Some(path) => kept(f, entries.drop_last()).push(at_path(entries.last(), path)),
            None => kept(f, entries.drop_last()),
        }
    }
}

/// Keeping by one map and then by another is keeping by both in turn.
proof fn lemma_kept_twice(
    f: spec_fn(Seq<char>) -> Option<Seq<char>>,
    g: spec_fn(Seq<char>) -> Option<Seq<char>>,
    h: spec_fn(Seq<char>) -> Option<Seq<char>>,
    entries: Seq<EntryView>,
)
    requires
        forall|p: Seq<char>|
            #![trigger h(p)]
            h(p) == match f(p) {
                Some(q) => g(q),
                None => None,
            },
    ensures
        kept(g, kept(f, entries)) == kept(h, entries),
    decreases entries.len(),
{
    if entries.len() > 0 {
        let rest = entries.drop_last();
        let e = entries.last();
        lemma_kept_twice(f, g, h, rest);
        assert(h(e.path) == h(e.path));
        match f(e.path) {
            Some(q) => {
                let once = kept(f, rest).push(at_path(e, q));
                assert(once.drop_last() =~= kept(f, rest));
                assert(once.last() == at_path(e, q));
                match g(q) {
                    Some(r) => {
                        assert(at_path(at_path(e, q), r) == at_path(e, r));
                    },
                    None => {},
                }
            },
            None => {},
        }
    }
}

impl TreeEntry {
    /// The same entry under another path.
    pub fn with_path(&self, path: String) -> (e: TreeEntry)
        ensures
            e@ == at_path(self@, path@),
    {
        TreeEntry {
            path,
            entry_type: self.entry_type.clone(),
            size: self.size,
            xet_hash: http::clone_opt(&self.xet_hash),
            oid: http::clone_opt(&self.oid),
            mtime: http::clone_opt(&self.mtime),
        }
    }
}

/// Raw tree entry from the repo `/tree` API (different shape from bucket
/// tree). Large files carry the size of their blob apart from that of the
/// pointer, and the date of the last commit stands for the modification time.
#[derive(Debug, Clone)]
pub struct RepoTreeEntry {
    pub path: String,
    pub entry_type: String,
    pub size: Option<u64>,
    pub oid: Option<String>,
    pub xet_hash: Option<String>,
    pub lfs_size: Option<u64>,
    pub last_commit_date: Option<String>,
}

impl RepoTreeEntry {
    /// The unified form of this entry.
    pub fn into_tree_entry(self) -> (e: TreeEntry)
        ensures
            e.path == self.path,
            e.entry_type == self.entry_type,
            e.size == match self.lfs_size {
                Some(n) => Some(n),
                None => self.size,
            },
            e.xet_hash == self.xet_hash,
            e.oid == self.oid,
            e.mtime == self.last_commit_date,
    {
        let size: Option<u64> = match self.lfs_size {
            Some(n) => Some(n),
            None => self.size,
        };
        TreeEntry {
            path: self.path,
            entry_type: self.entry_type,
            size,
            xet_hash: self.xet_hash,
            oid: self.oid,
            mtime: self.last_commit_date,
        }
    }
}

/// A change to a bucket.
#[derive(Debug, Clone)]
pub enum BatchOp {
    AddFile { path: String, xet_hash: String, mtime: u64, content_type: Option<String> },
    DeleteFile { path: String },
}

impl BatchOp {
    /// The path that this change is about.
    pub open spec fn path(self) -> Seq<char> {
        match self {
            BatchOp::AddFile { path, xet_hash, mtime, content_type } => path@,
            BatchOp::DeleteFile { path } => path@,
        }
    }

    /// Whether `other` is this change at another path.
    pub open spec fn same_change(self, other: BatchOp) -> bool {
        match (self, other) {
            (
                BatchOp::AddFile { path: _, xet_hash, mtime, content_type },
                BatchOp::AddFile { path: _, xet_hash: x, mtime: m, content_type: c },
            ) => xet_hash == x && mtime == m && content_type == c,
            (BatchOp::DeleteFile { path: _ }, BatchOp::DeleteFile { path: _ }) => true,
            _ => false,
        }
    }
}

/// A token for the content store.
#[derive(Debug, Clone)]
pub struct CasTokenInfo {
    pub cas_url: String,
    pub exp: u64,
    pub access_token: String,
}

/// Fields read from `/api/{type}/{id}` for the cheap-probe path. For repos,
/// `sha` is the commit head and changes on every push; `last_modified` is a
/// fallback when `sha` is absent (older Hub responses). For buckets,
/// `updated_at` is the only signal.
#[derive(Debug, Clone)]
pub struct RevisionProbe {
    pub sha: Option<String>,
    pub last_modified: Option<String>,
    pub updated_at: Option<String>,
}

/// Which kind of token the content store is accessed with.
#[derive(Debug, Clone, Copy, PartialEq, Eq, Structural)]
pub enum TokenKind {
    Read,
    Write,
}

/// The kind of token for a mount: write tokens can also read.
pub fn token_kind(read_only: bool) -> (k: TokenKind)
    ensures
        k == if read_only {
            TokenKind::Read
        } else {
            TokenKind::Write
        },
{
    if read_only {
        TokenKind::Read
    } else {
        TokenKind::Write
    }
}

/// A bucket-absolute path on its way to the remote.
///
/// The only way to build one is [`HubApiClient::prefixed_path`], which encrypts
/// it whenever a path cipher is configured. Request builders accept *only* this
/// type, so a plaintext name cannot reach a URL or request body by accident.
pub struct RemotePath {
    path: String,
    /// True when `path` is ciphertext and must be percent-encoded for URLs.
    encrypted: bool,
}

impl RemotePath {
    /// The path as it travels in a request body.
    pub closed spec fn body(self) -> Seq<char> {
        self.path@
    }

    /// Whether the path is ciphertext.
    pub closed spec fn is_encrypted(self) -> bool {
        self.encrypted
    }

    /// The path as it travels in a URL.
    pub open spec fn url(self) -> Seq<char> {
        if self.is_encrypted() {
            url::escaped(encode_utf8(self.body()))
        } else {
            self.body()
        }
    }

    /// The path as it travels in a JSON request body: raw, not URL-escaped.
    pub fn as_body(&self) -> (s: &str)
        ensures
            s@ == self.body(),
    {
        self.path.as_str()
    }

    /// The path interpolated into a request URL. Encrypted paths are
    /// percent-encoded per segment; plaintext paths are left untouched to
    /// preserve existing behavior.
    pub fn as_url(&self) -> (s: String)
        ensures
            s@ == self.url(),
    {
        if self.encrypted {
            url::encode_path_segments(self.path.as_str())
        } else {
            self.path.clone()
        }
    }

    /// Returns `true` when the stored path is empty.
    ///
    /// For encrypted clients this is always `false` because `prefixed_path`
    /// prepends `.enc/`, so even the bucket root yields a non-empty result.
    /// This is intentional: tree listings branch on this flag to choose between
    /// the bare `/tree` URL (empty) and the path-ful `/tree/{path}` variant —
    /// encrypted clients must always take the latter.
    pub fn is_empty(&self) -> (r: bool)
        ensures
            r == (self.body().len() == 0),
    {
        self.path.as_str().is_empty()
    }
}

/// The client's view of a source.
pub struct HubApiClient {
    pub endpoint: String,
    pub token: Option<String>,
    pub source: SourceKind,
    /// Last modification time (from repo/bucket info endpoint). Used as default
    /// mtime when per-file mtime is unavailable.
    pub last_modified: Span,
    /// Optional subfolder prefix. When non-empty, all API calls transparently
    /// prepend this to outgoing paths and strip it from incoming TreeEntry
    /// paths.
    pub path_prefix: String,
    /// When set, every outgoing path is encrypted and every incoming listing
    /// path is decrypted at this boundary, so plaintext names never reach the
    /// remote.
    pub path_cipher: Option<Arc<PathCipher>>,
}

/// `path` below the subfolder `prefix`.
pub open spec fn joined_path(prefix: Seq<char>, path: Seq<char>) -> Seq<char> {
    if prefix.len() == 0 {
        path
    } else if path.len() == 0 {
        prefix
    } else {
        prefix + "/"@ + path
    }
}

/// Where a stored path lies below the wrapper directory of encrypted objects.
pub open spec fn wrapped(stored: Seq<char>) -> Seq<char> {
    if stored.len() == 0 {
        ENC_ROOT@
    } else {
        ENC_ROOT@ + "/"@ + stored
    }
}

/// What lies below `dir` on the way to `full`, if `full` lies below `dir`.
pub open spec fn below(dir: Seq<char>, full: Seq<char>) -> Option<Seq<char>> {
    if dir.is_prefix_of(full) && full.len() > dir.len() && full[dir.len() as int] == '/' {
        Some(full.skip(dir.len() as int + 1))
    } else {
        None
    }
}

/// `full` as seen from the subfolder `prefix`.
pub open spec fn without_prefix(prefix: Seq<char>, full: Seq<char>) -> Option<Seq<char>> {
    if prefix.len() == 0 {
        Some(full)
    } else if full == prefix {
        Some(Seq::empty())
    } else {
        below(prefix, full)
    }
}

/// What a path in a listing of an encrypted source decrypts to.
pub open spec fn decrypted_entry(key: Seq<u8>, stored: Seq<char>) -> Option<Seq<char>> {
    match below(ENC_ROOT@, stored) {
        Some(p) => path::plain_path(key, p),
        None => None,
    }
}

/// Whether every path in a list of entries can be decrypted at all.
pub open spec fn entries_fit(entries: Seq<TreeEntry>) -> bool {
    forall|i: int| 0 <= i < entries.len() ==> hctr2::text_fits((#[trigger] entries[i]).path@)
}

/// `full` as an entry below the subfolder: neither the subfolder itself nor
/// anything elsewhere.
pub open spec fn entry_below(prefix: Seq<char>, full: Seq<char>) -> Option<Seq<char>> {
    match without_prefix(prefix, full) {
        Some(p) => if prefix.len() > 0 && p.len() == 0 {
            None
        } else {
            Some(p)
        },
        None => None,
    }
}

proof fn lemma_below_join(dir: Seq<char>, path: Seq<char>)
    ensures
        below(dir, dir + "/"@ + path) == Some(path),
{
    reveal_strlit("/");
    let full = dir + "/"@ + path;
    assert(full.subrange(0, dir.len() as int) =~= dir);
    assert(full[dir.len() as int] == '/');
    assert(full.skip(dir.len() as int + 1) =~= path);
}

proof fn lemma_below_fits(dir: Seq<char>, full: Seq<char>)
    requires
        hctr2::text_fits(full),
    ensures
        below(dir, full) matches Some(p) ==> hctr2::text_fits(p),
{
    if let Some(p) = below(dir, full) {
        let head = full.take(dir.len() as int + 1);
        assert(head + p =~= full);
        text::lemma_encode_concat(head, p);
    }
}

/// What lies below `dir` on the way to `full`.
fn strip_dir<'a>(dir: &str, full: &'a str) -> (r: Option<&'a str>)
    ensures
        match r {
            Some(p) => below(dir@, full@) == Some(p@),
            None => below(dir@, full@) is None,
        },
{
    if !text::starts_with(full, dir) {
        return None;
    }
    let n: usize = dir.unicode_len();
    let m: usize = full.unicode_len();
    if m > n && full.get_char(n) == '/' {
        let p: &'a str = full.substring_char(n + 1, m);
        assert(p@ =~= full@.skip(dir@.len() as int + 1));
        Some(p)
    } else {
        None
    }
}

/// The message for a path that cannot be encrypted.
pub open spec fn encrypt_error(e: path::PathError) -> Seq<char> {
    "encrypt path: "@ + e.message()
}

impl HubApiClient {
    /// The path key, if this client encrypts paths.
    pub open spec fn cipher_key(self) -> Option<Seq<u8>> {
        match self.path_cipher {
            Some(c) => Some(c.key()),
            None => None,
        }
    }

    /// What is sent for a path, or the message of the error.
    pub open spec fn remote_body(self, path: Seq<char>) -> core::result::Result<
        Seq<char>,
        Seq<char>,
    > {
        let joined = joined_path(self.path_prefix@, path);
        match self.cipher_key() {
            Some(key) => match path::stored_path(key, joined) {
                Ok(stored) => Ok(wrapped(stored)),
                Err(e) => Err(encrypt_error(e)),
            },
            None => Ok(joined),
        }
    }

    /// What a path in a listing stands for here: decrypted where paths are
    /// encrypted, and seen from the subfolder.
    pub open spec fn local_path(self, listed: Seq<char>) -> Option<Seq<char>> {
        let full = match self.cipher_key() {
            Some(key) => decrypted_entry(key, listed),
            None => Some(listed),
        };
        match full {
            Some(p) => entry_below(self.path_prefix@, p),
            None => None,
        }
    }

    /// A client for a bucket.
    pub fn new(endpoint: &str, token: Option<&str>, bucket_id: &str) -> (c: Self)
        ensures
            c.endpoint@ == text::trim_end_char(endpoint@, '/'),
            match token {
                Some(t) => c.token matches Some(own) && own@ == t@,
                None => c.token is None,
            },
            c.source matches SourceKind::Bucket { bucket_id: id } && id@ == bucket_id@,
            c.last_modified == (Span { secs: 0, nanos: 0 }),
            c.path_prefix@ == Seq::<char>::empty(),
            c.path_cipher is None,
    {
        HubApiClient {
            endpoint: text::trim_end_matches(endpoint, '/'),
            token: match token {
                Some(t) => Some(t.to_owned()),
                None => None,
            },
            source: SourceKind::Bucket { bucket_id: bucket_id.to_owned() },
            last_modified: Span { secs: 0, nanos: 0 },
            path_prefix: String::new(),
            path_cipher: None,
        }
    }

    /// What this client talks to.
    pub fn source(&self) -> (s: &SourceKind)
        ensures
            *s == self.source,
    {
        &self.source
    }

    /// Default mtime when per-file mtime is unavailable.
    pub fn default_mtime(&self) -> (t: Span)
        ensures
            t == self.last_modified,
    {
        self.last_modified
    }

    /// Whether the source is a repository.
    pub fn is_repo(&self) -> (r: bool)
        ensures
            r == (self.source is Repo),
    {
        match &self.source {
            SourceKind::Repo { repo_id, repo_type, revision } => true,
            SourceKind::Bucket { bucket_id } => false,
        }
    }

    /// Return the path prefix (subfolder) this client is scoped to.
    pub fn path_prefix(&self) -> (s: &str)
        ensures
            s@ == self.path_prefix@,
    {
        self.path_prefix.as_str()
    }

    /// Attach a path cipher, turning this into an encrypting client.
    pub fn with_path_cipher(self, cipher: Arc<PathCipher>) -> (c: Self)
        ensures
            c.path_cipher == Some(cipher),
            c.endpoint == self.endpoint,
            c.token == self.token,
            c.source == self.source,
            c.last_modified == self.last_modified,
            c.path_prefix == self.path_prefix,
    {
        let mut this: HubApiClient = self;
        this.path_cipher = Some(cipher);
        this
    }

    /// Join `path_prefix` and `path` into the bucket-absolute path.
    fn join_prefix(&self, path: &str) -> (s: String)
        ensures
            s@ == joined_path(self.path_prefix@, path@),
    {
        if self.path_prefix.as_str().is_empty() {
            path.to_owned()
        } else if path.is_empty() {
            self.path_prefix.clone()
        } else {
            let mut s: String = self.path_prefix.clone();
            s.push_str("/");
            s.push_str(path);
            s
        }
    }

    /// Join `path_prefix` and `path` into the bucket-absolute path, encrypting
    /// it when a path cipher is configured. This is the single chokepoint
    /// through which every outgoing path passes before it reaches a request.
    ///
    /// All ciphertext lives in one wrapper directory at the bucket root, and
    /// the empty path maps to that directory itself. What is sent stands for
    /// `path` again when a listing brings it back.
    pub fn prefixed_path(&self, path: &str) -> (r: Result<RemotePath>)
        requires
            self.path_cipher is Some ==> hctr2::text_fits(joined_path(self.path_prefix@, path@)),
        ensures
            match r {
                Ok(p) => {
                    &&& self.remote_body(path@) == Ok::<Seq<char>, Seq<char>>(p.body())
                    &&& p.is_encrypted() == (self.path_cipher is Some)
                    &&& path@.len() > 0 ==> self.local_path(p.body()) == Some(path@)
                    &&& p.is_encrypted() ==> p.body().len() > 0 && ENC_ROOT@.is_prefix_of(p.body())
                },
                Err(e) => self.remote_body(path@) matches Err(m) && e.is_hub(m),
            },
    {
        let joined: String = self.join_prefix(path);
        proof {
            reveal_strlit("/");
            reveal_strlit(".enc");
            lemma_below_join(self.path_prefix@, path@);
            if self.path_prefix@.len() > 0 && path@.len() > 0 {
                assert(joined@.len() > self.path_prefix@.len());
            }
        }
        match &self.path_cipher {
            Some(cipher) => {
                let encrypted: String = match cipher.encrypt_path(joined.as_str()) {
                    Ok(s) => s,
                    Err(e) => {
                        let mut message: String = "encrypt path: ".to_owned();
                        message.push_str(e.to_string().as_str());
                        return Err(Error::Hub { status: None, message });
                    },
                };
                let mut path_out: String = ENC_ROOT.to_owned();
                if !encrypted.as_str().is_empty() {
                    path_out.push_str("/");
                    path_out.push_str(encrypted.as_str());
                }
                proof {
                    lemma_below_join(ENC_ROOT@, encrypted@);
                    assert(path_out@ == wrapped(encrypted@));
                    assert(ENC_ROOT@ =~= path_out@.subrange(0, ENC_ROOT@.len() as int));
                    if encrypted@.len() == 0 {
                        assert(path::plain_path(cipher.key(), encrypted@) == Some(joined@));
                        assert(joined@.len() == 0);
                    }
                }
                Ok(RemotePath { path: path_out, encrypted: true })
            },
            None => Ok(RemotePath { path: joined, encrypted: false }),
        }
    }

    /// Decrypt the names in a listing back to plaintext bucket-absolute paths,
    /// dropping any entry that doesn't decrypt. No-op when no cipher is set.
    ///
    /// All stored paths live under the wrapper directory. Anything that does
    /// not is dropped, including the bare directory itself and lookalikes such
    /// as `.encrypted`.
    pub fn decrypt_listing(&self, entries: &mut Vec<TreeEntry>)
        requires
            self.path_cipher is Some ==> entries_fit(old(entries)@),
        ensures
            match self.cipher_key() {
                Some(key) => entry_views(final(entries)@) == kept(
                    |p: Seq<char>| decrypted_entry(key, p),
                    entry_views(old(entries)@),
                ),
                None => final(entries)@ == old(entries)@,
            },
    {
        let cipher: &Arc<PathCipher> = match &self.path_cipher {
            Some(c) => c,
            None => {
                return;
            },
        };
        let ghost key = cipher.key();
        let ghost f = |p: Seq<char>| decrypted_entry(key, p);
        let ghost all = entry_views(entries@);
        let mut out: Vec<TreeEntry> = Vec::new();
        let mut i: usize = 0;
        proof {
            assert(entry_views(out@) =~= Seq::empty());
            assert(all.take(0) =~= Seq::empty());
        }
        while i < entries.len()
            invariant
                i <= entries@.len(),
                key == cipher.key(),
                f == (|p: Seq<char>| decrypted_entry(key, p)),
                all == entry_views(entries@),
                entries_fit(entries@),
                *entries == *old(entries),
                entry_views(out@) == kept(f, all.take(i as int)),
            decreases entries@.len() - i,
        {
            let ghost before = out@;
            proof {
                assert(all.take(i + 1).drop_last() =~= all.take(i as int));
                assert(all.take(i + 1).last() == entries@[i as int]@);
                assert(hctr2::text_fits(entries@[i as int].path@));
                lemma_below_fits(ENC_ROOT@, entries@[i as int].path@);
            }
            match strip_dir(ENC_ROOT, entries[i].path.as_str()) {
                Some(stored) => {
                    match cipher.decrypt_path(stored) {
                        Some(plain) => {
                            out.push(entries[i].with_path(plain));
                            assert(entry_views(out@) =~= entry_views(before).push(
                                at_path(entries@[i as int]@, plain@),
                            ));
                        },
                        None => {},
                    }
                },
                None => {},
            }
            i = i + 1;
        }
        assert(all.take(all.len() as int) =~= all);
        *entries = out;
    }

    /// Strip `path_prefix` from the beginning of `full`. Returns `None` if the
    /// path doesn't start with the prefix (shouldn't happen for correctly scoped
    /// results), and an empty path for the prefix directory itself.
    pub fn strip_path_prefix<'a>(&self, full: &'a str) -> (r: Option<&'a str>)
        ensures
            match r {
                Some(p) => without_prefix(self.path_prefix@, full@) == Some(p@),
                None => without_prefix(self.path_prefix@, full@) is None,
            },
    {
        if self.path_prefix.as_str().is_empty() {
            return Some(full);
        }
        if text::eq(full, self.path_prefix.as_str()) {
            let none: &'a str = full.substring_char(0, 0);
            assert(none@ =~= Seq::empty());
            return Some(none);
        }
        strip_dir(self.path_prefix.as_str(), full)
    }

    /// Strips the subfolder from the paths of a listing, and filters out the
    /// subfolder itself and unrelated entries.
    fn strip_listing(&self, entries: Vec<TreeEntry>) -> (r: Vec<TreeEntry>)
        ensures
            entry_views(r@) == kept(
                |p: Seq<char>| entry_below(self.path_prefix@, p),
                entry_views(entries@),
            ),
    {
        let ghost g = |p: Seq<char>| entry_below(self.path_prefix@, p);
        let ghost all = entry_views(entries@);
        let mut out: Vec<TreeEntry> = Vec::new();
        let mut i: usize = 0;
        proof {
            assert(entry_views(out@) =~= Seq::empty());
            assert(all.take(0) =~= Seq::empty());
        }
        while i < entries.len()
            invariant
                i <= entries@.len(),
                g == (|p: Seq<char>| entry_below(self.path_prefix@, p)),
                all == entry_views(entries@),
                entry_views(out@) == kept(g, all.take(i as int)),
            decreases entries@.len() - i,
        {
            let ghost before = out@;
            proof {
                assert(all.take(i + 1).drop_last() =~= all.take(i as int));
                assert(all.take(i + 1).last() == entries@[i as int]@);
            }
            match self.strip_path_prefix(entries[i].path.as_str()) {
                Some(p) => {
                    if self.path_prefix.as_str().is_empty() || !p.is_empty() {
                        let plain: String = p.to_owned();
                        out.push(entries[i].with_path(plain));
                        assert(entry_views(out@) =~= entry_views(before).push(
                            at_path(entries@[i as int]@, p@),
                        ));
                    }
                },
                None => {},
            }
            i = i + 1;
        }
        assert(all.take(all.len() as int) =~= all);
        out
    }

    /// What a listing of the directory `prefix` shows, given what the Hub
    /// answered.
    ///
    /// On a fresh bucket/repo with encryption, the wrapper directory doesn't
    /// exist yet so the API returns 404. That is an empty listing — but only
    /// for the true bucket root on a top-level mount. A subfolder mount that
    /// lists its root must still get its 404, so that a missing subfolder can
    /// be detected.
    pub fn finish_listing(&self, prefix: &str, result: Result<Vec<TreeEntry>>) -> (r: Result<
        Vec<TreeEntry>,
    >)
        requires
            self.path_cipher is Some && result is Ok ==> entries_fit(result->Ok_0@),
        ensures
            match result {
                Ok(entries) => r matches Ok(shown) && entry_views(shown@) == kept(
                    |p: Seq<char>| self.local_path(p),
                    entry_views(entries@),
                ),
                Err(e) => if e.spec_status() == Some(404u16) && self.path_cipher is Some
                    && prefix@.len() == 0 && self.path_prefix@.len() == 0 {
                    r matches Ok(shown) && shown@.len() == 0
                } else {
                    r matches Err(f) && f == e
                },
            },
    {
        match result {
            Ok(found) => {
                let mut entries: Vec<TreeEntry> = found;
                let ghost all = entry_views(entries@);
                self.decrypt_listing(&mut entries);
                let shown: Vec<TreeEntry> = self.strip_listing(entries);
                proof {
                    let g = |p: Seq<char>| entry_below(self.path_prefix@, p);
                    let h = |p: Seq<char>| self.local_path(p);
                    match self.cipher_key() {
                        Some(key) => {
                            let f = |p: Seq<char>| decrypted_entry(key, p);
                            lemma_kept_twice(f, g, h, all);
                        },
                        None => {
                            assert(g =~= h);
                        },
                    }
                }
                Ok(shown)
            },
            Err(e) => {
                let missing: bool = match e.status() {
                    Some(status) => status == 404,
                    None => false,
                };
                if missing && self.path_cipher.is_some() && prefix.is_empty()
                    && self.path_prefix.as_str().is_empty() {
                    Ok(Vec::new())
                } else {
                    Err(e)
                }
            },
        }
    }
}

/// Whether the entries at the places `from` are those whose path `f` maps to
/// another, in order, and `out` is made of them, each with its own type, size,
/// hash, tag and time under that other path.
spec fn kept_from(
    f: spec_fn(Seq<char>) -> Option<Seq<char>>,
    entries: Seq<EntryView>,
    out: Seq<EntryView>,
    from: Seq<int>,
) -> bool {
    &&& from.len() == out.len()
    &&& forall|j: int|
        0 <= j < out.len() ==> {
            let i = #[trigger] from[j];
            &&& 0 <= i < entries.len()
            &&& f(entries[i].path) == Some(out[j].path)
            &&& out[j].entry_type == entries[i].entry_type
            &&& out[j].size == entries[i].size
            &&& out[j].xet_hash == entries[i].xet_hash
            &&& out[j].oid == entries[i].oid
            &&& out[j].mtime == entries[i].mtime
        }
    &&& forall|a: int, b: int| 0 <= a < b < from.len() ==> #[trigger] from[a] < #[trigger] from[b]
    &&& forall|i: int|
        0 <= i < entries.len() && f((#[trigger] entries[i]).path) is Some ==> from.contains(i)
}

proof fn lemma_kept_from(
    f: spec_fn(Seq<char>) -> Option<Seq<char>>,
    entries: Seq<EntryView>,
) -> (from: Seq<int>)
    ensures
        kept_from(f, entries, kept(f, entries), from),
    decreases entries.len(),
{
    if entries.len() == 0 {
        Seq::empty()
    } else {
        let rest = entries.drop_last();
        let last = entries.len() - 1;
        let before = lemma_kept_from(f, rest);
        assert forall|i: int| 0 <= i < rest.len() implies rest[i] == entries[i] by {}
        if f(entries.last().path) is Some {
            let from = before.push(last);
            let out = kept(f, entries);
            assert forall|j: int| 0 <= j < out.len() implies {
                let i = #[trigger] from[j];
                &&& 0 <= i < entries.len()
                &&& f(entries[i].path) == Some(out[j].path)
                &&& out[j].entry_type == entries[i].entry_type
                &&& out[j].size == entries[i].size
                &&& out[j].xet_hash == entries[i].xet_hash
                &&& out[j].oid == entries[i].oid
                &&& out[j].mtime == entries[i].mtime
            } by {
                if j < before.len() {
                    assert(from[j] == before[j]);
                    assert(entries[from[j]] == rest[before[j]]);
                }
            }
            assert forall|i: int| 0 <= i < entries.len() && f(
                (#[trigger] entries[i]).path,
            ) is Some implies from.contains(i) by {
                if i < last {
                    assert(rest[i] == entries[i]);
                    let j = choose|j: int| 0 <= j < before.len() && before[j] == i;
                    assert(from[j] == i);
                } else {
                    assert(from[before.len() as int] == i);
                }
            }
            from
        } else {
            let out = kept(f, entries);
            assert forall|j: int| 0 <= j < out.len() implies {
                let i = #[trigger] before[j];
                &&& 0 <= i < entries.len()
                &&& f(entries[i].path) == Some(out[j].path)
                &&& out[j].entry_type == entries[i].entry_type
                &&& out[j].size == entries[i].size
                &&& out[j].xet_hash == entries[i].xet_hash
                &&& out[j].oid == entries[i].oid
                &&& out[j].mtime == entries[i].mtime
            } by {
                assert(entries[before[j]] == rest[before[j]]);
            }
            assert forall|i: int| 0 <= i < entries.len() && f(
                (#[trigger] entries[i]).path,
            ) is Some implies before.contains(i) by {
                assert(rest[i] == entries[i]);
            }
            before
        }
    }
}

/// Under another path an entry keeps its type, size, content hash, tag and time.
pub proof fn law_another_path_changes_the_path_only(e: TreeEntry, path: String, shown: TreeEntry)
    requires
        call_ensures(TreeEntry::with_path, (&e, path), shown),
    ensures
        shown.path@ == path@,
        shown.entry_type@ == e.entry_type@,
        shown.size == e.size,
        http::opt_view(shown.xet_hash) == http::opt_view(e.xet_hash),
        http::opt_view(shown.oid) == http::opt_view(e.oid),
        http::opt_view(shown.mtime) == http::opt_view(e.mtime),
{
    assert(shown@.entry_type == e@.entry_type);
    assert(shown@.size == e@.size);
    assert(shown@.xet_hash == e@.xet_hash);
    assert(shown@.oid == e@.oid);
    assert(shown@.mtime == e@.mtime);
}

/// Every entry that a finished listing shows comes from an entry of the Hub's
/// answer, whose entry type, size, content hash, tag and modification time it has;
/// only the path differs, and is what the Hub's path stands for here. They come in
/// the order of the answer, each once.
pub proof fn law_listings_change_paths_only(
    c: HubApiClient,
    prefix: &str,
    entries: Vec<TreeEntry>,
    shown: Vec<TreeEntry>,
) -> (from: Seq<int>)
    requires
        call_ensures(HubApiClient::finish_listing, (&c, prefix, Ok(entries)), Ok(shown)),
    ensures
        from.len() == shown@.len(),
        forall|j: int|
            0 <= j < shown@.len() ==> {
                let i = #[trigger] from[j];
                &&& 0 <= i < entries@.len()
                &&& c.local_path(entries@[i].path@) == Some(shown@[j].path@)
                &&& shown@[j].entry_type@ == entries@[i].entry_type@
                &&& shown@[j].size == entries@[i].size
                &&& http::opt_view(shown@[j].xet_hash) == http::opt_view(entries@[i].xet_hash)
                &&& http::opt_view(shown@[j].oid) == http::opt_view(entries@[i].oid)
                &&& http::opt_view(shown@[j].mtime) == http::opt_view(entries@[i].mtime)
            },
        forall|a: int, b: int| 0 <= a < b < from.len() ==> #[trigger] from[a] < #[trigger] from[b],
        forall|i: int|
            0 <= i < entries@.len() && c.local_path((#[trigger] entries@[i]).path@) is Some
                ==> from.contains(i),
{
    let f = |p: Seq<char>| c.local_path(p);
    let all = entry_views(entries@);
    let out = entry_views(shown@);
    let from = lemma_kept_from(f, all);
    assert(out == kept(f, all));
    assert(out.len() == shown@.len());
    assert forall|j: int| 0 <= j < shown@.len() implies {
        let i = #[trigger] from[j];
        &&& 0 <= i < entries@.len()
        &&& c.local_path(entries@[i].path@) == Some(shown@[j].path@)
        &&& shown@[j].entry_type@ == entries@[i].entry_type@
        &&& shown@[j].size == entries@[i].size
        &&& http::opt_view(shown@[j].xet_hash) == http::opt_view(entries@[i].xet_hash)
        &&& http::opt_view(shown@[j].oid) == http::opt_view(entries@[i].oid)
        &&& http::opt_view(shown@[j].mtime) == http::opt_view(entries@[i].mtime)
    } by {
        assert(out[j] == shown@[j]@);
        assert(all[from[j]] == entries@[from[j]]@);
    }
    assert forall|i: int|
        0 <= i < entries@.len() && c.local_path(
            (#[trigger] entries@[i]).path@,
        ) is Some implies from.contains(i) by {
        assert(all[i] == entries@[i]@);
    }
    from
}

/// A client without encryption sends a path as it stands, below its subfolder if it
/// has one.
pub proof fn law_plain_paths_are_sent_as_they_are(c: HubApiClient, path: Seq<char>)
    requires
        c.path_cipher is None,
    ensures
        c.remote_body(path) is Ok,
        c.path_prefix@.len() == 0 ==> c.remote_body(path)->Ok_0 == path,
        c.path_prefix@.len() > 0 && path.len() == 0 ==> c.remote_body(path)->Ok_0
            == c.path_prefix@,
        c.path_prefix@.len() > 0 && path.len() > 0 ==> c.remote_body(path)->Ok_0
            == c.path_prefix@.push('/') + path,
{
    reveal_strlit("/");
    assert(c.path_prefix@ + "/"@ =~= c.path_prefix@.push('/'));
}

/// A client without encryption shows exactly what lies below its subfolder, and
/// all of the source if it has none.
pub proof fn law_plain_listings_show_the_subfolder(c: HubApiClient, listed: Seq<char>)
    requires
        c.path_cipher is None,
    ensures
        c.path_prefix@.len() == 0 ==> c.local_path(listed) == Some(listed),
        c.path_prefix@.len() > 0 ==> forall|path: Seq<char>| #[trigger]
            (c.path_prefix@.push('/') + path) == listed && path.len() > 0 ==> c.local_path(listed)
                == Some(path),
        c.path_prefix@.len() > 0 && c.local_path(listed) is Some ==> c.local_path(listed)->0.len()
            > 0 && listed == c.path_prefix@.push('/') + c.local_path(listed)->0,
{
    let prefix = c.path_prefix@;
    if prefix.len() > 0 {
        assert forall|path: Seq<char>| #[trigger]
            (prefix.push('/') + path) == listed && path.len() > 0 implies c.local_path(listed)
            == Some(path) by {
            assert(listed.subrange(0, prefix.len() as int) =~= prefix);
            assert(listed[prefix.len() as int] == '/');
            assert(listed.skip(prefix.len() as int + 1) =~= path);
        }
        if c.local_path(listed) is Some && listed != prefix {
            assert(prefix.push('/') + c.local_path(listed)->0 =~= listed) by {
                assert(prefix =~= listed.subrange(0, prefix.len() as int));
                assert forall|i: int| 0 <= i < prefix.len() implies prefix[i] == listed[i] by {
                    assert(listed.subrange(0, prefix.len() as int)[i] == listed[i]);
                }
            }
        }
    }
}

/// A client with encryption shows only what lies in the directory of encrypted
/// objects, which its name and a slash lead to.
pub proof fn law_encrypted_listings_show_encrypted_objects(c: HubApiClient, listed: Seq<char>)
    requires
        c.path_cipher is Some,
        c.local_path(listed) is Some,
    ensures
        listed.len() >= 5,
        listed[0] == '.' && listed[1] == 'e' && listed[2] == 'n' && listed[3] == 'c' && listed[4]
            == '/',
{
    reveal_strlit(".enc");
    assert forall|i: int| 0 <= i < 4 implies ENC_ROOT@[i] == listed[i] by {
        assert(listed.subrange(0, ENC_ROOT@.len() as int)[i] == listed[i]);
    }
    assert(ENC_ROOT@[0] == listed[0] && ENC_ROOT@[1] == listed[1] && ENC_ROOT@[2] == listed[2]
        && ENC_ROOT@[3] == listed[3]);
}

/// What is sent for a path is never what is sent for another: two paths that are
/// sent as the same are the same.
pub proof fn law_paths_are_sent_apart(
    c: HubApiClient,
    a: &str,
    b: &str,
    sent_a: RemotePath,
    sent_b: RemotePath,
)
    requires
        call_ensures(HubApiClient::prefixed_path, (&c, a), Ok(sent_a)),
        call_ensures(HubApiClient::prefixed_path, (&c, b), Ok(sent_b)),
        a@.len() > 0,
        b@.len() > 0,
        sent_a.body() == sent_b.body(),
    ensures
        a@ == b@,
{
}

/// No plain name leaves a client with encryption: every path that it sends lies in
/// the directory of encrypted objects and is marked as ciphertext, and one that it
/// does not encrypt is not.
pub proof fn law_encrypted_paths_are_marked(c: HubApiClient, path: &str, sent: RemotePath)
    requires
        call_ensures(HubApiClient::prefixed_path, (&c, path), Ok(sent)),
    ensures
        sent.is_encrypted() == (c.path_cipher is Some),
        c.path_cipher is Some ==> sent.body().len() >= 4 && sent.body()[0] == '.' && sent.body()[1]
            == 'e' && sent.body()[2] == 'n' && sent.body()[3] == 'c',
        c.path_cipher is Some && sent.body().len() > 4 ==> sent.body()[4] == '/',
        c.path_cipher is None && c.path_prefix@.len() == 0 ==> sent.body() == path@,
{
    reveal_strlit(".enc");
    reveal_strlit("/");
    if c.path_cipher is Some {
        let body = sent.body();
        assert forall|i: int| 0 <= i < 4 implies ENC_ROOT@[i] == body[i] by {
            assert(body.subrange(0, ENC_ROOT@.len() as int)[i] == body[i]);
        }
        assert(ENC_ROOT@[0] == body[0] && ENC_ROOT@[1] == body[1] && ENC_ROOT@[2] == body[2]
            && ENC_ROOT@[3] == body[3]);
    }
}

/// In a URL a plain path stands as it is. A ciphertext path stands in characters
/// that have no other meaning there, and percent-decoding gives it back.
pub proof fn law_url_gives_the_path_back(p: RemotePath, i: int)
    ensures
        !p.is_encrypted() ==> p.url() == p.body(),
        p.is_encrypted() ==> url::percent_decoded(p.url()) == encode_utf8(p.body()),
        p.is_encrypted() && 0 <= i < p.url().len() ==> url::is_url_path_char(p.url()[i]),
{
    url::law_percent_decode_inverts(p.body());
    url::law_escaped_is_url_safe(encode_utf8(p.body()));
}

/// Write access to the content store is asked for exactly where the mount writes.
pub proof fn law_token_kind_is_what_the_mount_needs(read_only: bool, k: TokenKind)
    requires
        call_ensures(token_kind, (read_only,), k),
    ensures
        k is Write <==> !read_only,
{
}

/// An entry of a repository has the size of its blob, not of the pointer to it, and
/// the date of its last commit for its time.
pub proof fn law_repo_entries_show_the_blob(raw: RepoTreeEntry, e: TreeEntry)
    requires
        call_ensures(RepoTreeEntry::into_tree_entry, (raw,), e),
    ensures
        raw.lfs_size is Some ==> e.size == raw.lfs_size,
        raw.lfs_size is None ==> e.size == raw.size,
        e.mtime == raw.last_commit_date,
        e.oid == raw.oid,
        e.xet_hash == raw.xet_hash,
        e.path == raw.path,
        e.entry_type == raw.entry_type,
{
}

/// Seen from a subfolder, the subfolder itself is the empty path, what a slash leads
/// to from it is what follows the slash, and nothing else can be seen. Without a
/// subfolder everything is seen as it is.
pub proof fn law_what_a_subfolder_sees(prefix: Seq<char>, rest: Seq<char>, c: char)
    ensures
        without_prefix(Seq::empty(), rest) == Some(rest),
        prefix.len() > 0 ==> without_prefix(prefix, prefix) == Some(Seq::<char>::empty()),
        prefix.len() > 0 ==> without_prefix(prefix, prefix.push('/') + rest) == Some(rest),
        prefix.len() > 0 && c != '/' ==> without_prefix(prefix, prefix.push(c) + rest) is None,
        prefix.len() > 0 && !prefix.is_prefix_of(rest) ==> without_prefix(prefix, rest) is None,
{
    reveal_strlit("/");
    assert(prefix + "/"@ + rest =~= prefix.push('/') + rest);
    lemma_below_join(prefix, rest);
    let full = prefix.push('/') + rest;
    assert(full.len() > prefix.len());
    let beside = prefix.push(c) + rest;
    assert(beside.len() > prefix.len());
    assert(beside[prefix.len() as int] == c);
    if prefix == rest {
        assert(rest.subrange(0, prefix.len() as int) =~= prefix);
    }
}

/// A listing that the Hub refuses is refused, with its error, but for one: the
/// directory of encrypted objects that a fresh source does not have yet is empty,
/// and only a listing of the root by a client without a subfolder asks for that one.
pub proof fn law_refused_listings(
    c: HubApiClient,
    prefix: &str,
    e: Error,
    r: Result<Vec<TreeEntry>>,
)
    requires
        call_ensures(HubApiClient::finish_listing, (&c, prefix, Err(e)), r),
    ensures
        e.spec_status() != Some(404u16) ==> r == Err::<Vec<TreeEntry>, Error>(e),
        prefix@.len() > 0 || c.path_prefix@.len() > 0 || c.path_cipher is None ==> r == Err::<
            Vec<TreeEntry>,
            Error,
        >(e),
        e.spec_status() == Some(404u16) && prefix@.len() == 0 && c.path_prefix@.len() == 0
            && c.path_cipher is Some ==> r is Ok && r->Ok_0@.len() == 0,
{
}

} // verus!
