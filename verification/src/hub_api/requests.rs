//! Requests to the Hub: their addresses and bodies, and what their replies
//! mean for the client.

use vstd::prelude::*;

use crate::error::{Error, Result};
use crate::hctr2;
use crate::hub_api::client;
use crate::hub_api::client::{
    BatchOp, HubApiClient, RemotePath, RevisionProbe, TokenKind, TreeEntry,
};
use crate::hub_api::http;
use crate::hub_api::source;
use crate::hub_api::source::{RepoType, SourceKind};
use crate::text;
use crate::time::Span;

verus! {

/// Appends several texts one after the other.
fn push_all(s: &mut String, a: &str, b: &str, c: &str)
    ensures
        final(s)@ == old(s)@ + a@ + b@ + c@,
{
    s.push_str(a);
    s.push_str(b);
    s.push_str(c);
}

/// The address of the information on a source.
pub open spec fn info_url(endpoint: Seq<char>, source: SourceKind) -> Seq<char> {
    match source {
        SourceKind::Bucket { bucket_id } => endpoint + "/api/buckets/"@ + bucket_id@,
        SourceKind::Repo { repo_id, repo_type, revision } => endpoint + "/api/"@ + repo_type.api()
            + "/"@ + repo_id@,
    }
}

/// The address of a listing of a single directory level. The listing of a repo
/// is expanded, so that its entries carry the date of their last commit, from
/// which their modification time comes.
pub open spec fn tree_url(endpoint: Seq<char>, source: SourceKind, path: RemotePath) -> Seq<char> {
    let tail = if path.body().len() == 0 {
        Seq::empty()
    } else {
        "/"@ + path.url()
    };
    match source {
        SourceKind::Bucket { bucket_id } => info_url(endpoint, source) + "/tree"@ + tail
            + "?recursive=false&limit=5000"@,
        SourceKind::Repo { repo_id, repo_type, revision } => info_url(endpoint, source)
            + "/tree/"@ + revision@ + tail + "?expand=true&limit=1000"@,
    }
}

/// The address of a file.
pub open spec fn resolve_url(
    endpoint: Seq<char>,
    source: SourceKind,
    path: RemotePath,
) -> Seq<char> {
    match source {
        SourceKind::Bucket { bucket_id } => endpoint + "/buckets/"@ + bucket_id@ + "/resolve/"@
            + path.url(),
        SourceKind::Repo { repo_id, repo_type, revision } => endpoint + "/"@ + repo_type.resolve()
            + repo_id@ + "/resolve/"@ + revision@ + "/"@ + path.url(),
    }
}

/// The address of read tokens for the content store.
pub open spec fn read_token_url(endpoint: Seq<char>, source: SourceKind) -> Seq<char> {
    match source {
        SourceKind::Bucket { bucket_id } => info_url(endpoint, source) + "/xet-read-token"@,
        SourceKind::Repo { repo_id, repo_type, revision } => info_url(endpoint, source)
            + "/xet-read-token/"@ + revision@,
    }
}

/// The address of the information on a source.
pub fn source_info_url(endpoint: &str, source: &SourceKind) -> (s: String)
    ensures
        s@ == info_url(endpoint@, *source),
{
    let mut s: String = endpoint.to_owned();
    match source {
        SourceKind::Bucket { bucket_id } => {
            s.push_str("/api/buckets/");
            s.push_str(bucket_id.as_str());
        },
        SourceKind::Repo { repo_id, repo_type, revision } => {
            s.push_str("/api/");
            push_all(&mut s, repo_type.api_prefix(), "/", repo_id.as_str());
        },
    }
    s
}

/// What resolving a source is called in errors.
pub fn resolve_context(source: &SourceKind) -> (s: String)
    ensures
        s@ == match *source {
            SourceKind::Bucket { bucket_id } => "resolve bucket "@ + bucket_id@,
            SourceKind::Repo { repo_id, repo_type, revision } => "resolve repo "@ + repo_id@,
        },
{
    match source {
        SourceKind::Bucket { bucket_id } => {
            let mut s: String = "resolve bucket ".to_owned();
            s.push_str(bucket_id.as_str());
            s
        },
        SourceKind::Repo { repo_id, repo_type, revision } => {
            let mut s: String = "resolve repo ".to_owned();
            s.push_str(repo_id.as_str());
            s
        },
    }
}

/// The kinds of repository in the order in which an id is tried as each.
pub open spec fn probe_order(tried: nat) -> Option<RepoType> {
    if tried == 0 {
        Some(RepoType::Model)
    } else if tried == 1 {
        Some(RepoType::Dataset)
    } else if tried == 2 {
        Some(RepoType::Space)
    } else {
        None
    }
}

/// The kind of repository to try next, after `tried` of them did not match.
pub fn next_probe(tried: usize) -> (r: Option<RepoType>)
    ensures
        r == probe_order(tried as nat),
{
    if tried == 0 {
        Some(RepoType::Model)
    } else if tried == 1 {
        Some(RepoType::Dataset)
    } else if tried == 2 {
        Some(RepoType::Space)
    } else {
        None
    }
}

/// Every kind of repository is tried, once.
pub proof fn law_probe_tries_every_kind(t: RepoType)
    ensures
        exists|n: nat| #[trigger] probe_order(n) == Some(t),
        forall|n: nat, m: nat|
            #[trigger] probe_order(n) == Some(t) && #[trigger] probe_order(m) == Some(t) ==> n == m,
{
    assert(probe_order(0) == Some(RepoType::Model));
    assert(probe_order(1) == Some(RepoType::Dataset));
    assert(probe_order(2) == Some(RepoType::Space));
}

/// The kind that an id was found as, given the status of each reply in the
/// order of the tries (`None` where no reply came).
pub open spec fn probed(statuses: Seq<Option<u16>>) -> Option<RepoType>
    decreases statuses.len(),
{
    if statuses.len() == 0 {
        None
    } else {
        match probed(statuses.drop_last()) {
            Some(t) => Some(t),
            None => if statuses.last() == Some(200u16) {
                probe_order((statuses.len() - 1) as nat)
            } else {
                None
            },
        }
    }
}

/// Whether the kind just tried is the one: its request was answered with 200.
/// Any error or other status means that it is not this kind.
pub fn probe_matches(status: Option<u16>) -> (r: bool)
    ensures
        r == (status == Some(200u16)),
{
    match status {
        Some(s) => s == 200,
        None => false,
    }
}

/// The kind that an id was found as, given the status of each reply.
pub fn probed_repo_type(statuses: &Vec<Option<u16>>) -> (r: Option<RepoType>)
    ensures
        r == probed(statuses@),
{
    let mut found: Option<RepoType> = None;
    let mut i: usize = 0;
    assert(statuses@.take(0) =~= Seq::empty());
    while i < statuses.len()
        invariant
            i <= statuses@.len(),
            found == probed(statuses@.take(i as int)),
        decreases statuses@.len() - i,
    {
        assert(statuses@.take(i + 1).drop_last() =~= statuses@.take(i as int));
        if found.is_none() && probe_matches(statuses[i]) {
            found = next_probe(i);
        }
        i = i + 1;
    }
    assert(statuses@.take(statuses@.len() as int) =~= statuses@);
    found
}

/// What is said of a bucket id that is a repository's.
pub open spec fn not_a_bucket(bucket_id: Seq<char>, t: RepoType) -> Seq<char> {
    bucket_id + " is not a bucket, but it exists as a "@ + t.name() + ". Use `repo "@ + bucket_id
        + "` (read-only) instead of `bucket "@ + bucket_id + "`."@
}

/// The error for a bucket that could not be resolved: a hint where its id is
/// that of a repository, else what went wrong.
pub fn bucket_failure(bucket_id: &str, as_repo: Option<RepoType>, e: Error) -> (r: Error)
    ensures
        match as_repo {
            Some(t) => r.is_hub(not_a_bucket(bucket_id@, t)),
            None => r == e,
        },
{
    match as_repo {
        Some(t) => {
            let mut message: String = bucket_id.to_owned();
            message.push_str(" is not a bucket, but it exists as a ");
            message.push_str(t.to_string().as_str());
            message.push_str(". Use `repo ");
            message.push_str(bucket_id);
            message.push_str("` (read-only) instead of `bucket ");
            message.push_str(bucket_id);
            message.push_str("`.");
            Error::Hub { status: None, message }
        },
        None => e,
    }
}

/// The time of the last change that the information on a source gives.
fn change_time(stamp: Option<&str>) -> (t: Span)
    ensures
        t == match stamp {
            Some(s) => http::mtime_of(http::rfc3339_seconds(s@)),
            None => Span { secs: 0, nanos: 0 },
        },
{
    match stamp {
        Some(s) => http::mtime_from_str(s),
        None => Span { secs: 0, nanos: 0 },
    }
}

impl HubApiClient {
    /// The client for a source, given the information on it: the id that a
    /// repository goes by (`id`, which an alias resolves to), and the time of
    /// its last change (`lastModified` of a repository, `updatedAt` of a
    /// bucket).
    pub fn from_info(
        endpoint: &str,
        token: Option<&str>,
        source: SourceKind,
        path_prefix: String,
        id: Option<&str>,
        changed: Option<&str>,
    ) -> (r: Result<HubApiClient>)
        ensures
            match r {
                Ok(c) => {
                    &&& c.endpoint@ == text::trim_end_char(endpoint@, '/')
                    &&& match token {
                        Some(t) => c.token matches Some(own) && own@ == t@,
                        None => c.token is None,
                    }
                    &&& c.path_prefix == path_prefix
                    &&& c.path_cipher is None
                    &&& c.last_modified == match changed {
                        Some(s) => http::mtime_of(http::rfc3339_seconds(s@)),
                        None => Span { secs: 0, nanos: 0 },
                    }
                    &&& match source {
                        SourceKind::Bucket { bucket_id } => c.source == source,
                        SourceKind::Repo { repo_id, repo_type, revision } => {
                            &&& id is Some
                            &&& c.source matches SourceKind::Repo {
                                repo_id: found,
                                repo_type: t,
                                revision: rev,
                            } && found@ == id->0@ && t == repo_type && rev == revision
                        },
                    }
                },
                Err(e) => source is Repo && id is None && e.is_hub(
                    "repo info missing 'id' field"@,
                ),
            },
    {
        let resolved: SourceKind = match source {
            SourceKind::Bucket { bucket_id } => SourceKind::Bucket { bucket_id },
            SourceKind::Repo { repo_id, repo_type, revision } => match id {
                Some(found) => SourceKind::Repo { repo_id: found.to_owned(), repo_type, revision },
                None => {
                    return Err(Error::hub("repo info missing 'id' field"));
                },
            },
        };
        Ok(
            HubApiClient {
                endpoint: text::trim_end_matches(endpoint, '/'),
                token: match token {
                    Some(t) => Some(t.to_owned()),
                    None => None,
                },
                source: resolved,
                last_modified: change_time(changed),
                path_prefix,
                path_cipher: None,
            },
        )
    }

    /// The address that revision probes ask.
    pub fn revision_url(&self) -> (s: String)
        ensures
            s@ == info_url(self.endpoint@, self.source),
    {
        source_info_url(self.endpoint.as_str(), &self.source)
    }

    /// The revision token that a probe gives. Repos: prefer `sha` (commit head)
    /// — changes on every push and only on pushes. Buckets: `updatedAt` — set by
    /// Hub on every bucket mutation. Errors if the Hub response omits the
    /// expected field.
    pub fn select_revision(&self, probe: RevisionProbe) -> (r: Result<String>)
        ensures
            match self.source {
                SourceKind::Repo { repo_id, repo_type, revision } => match r {
                    Ok(s) => match probe.sha {
                        Some(sha) => s == sha,
                        None => probe.last_modified == Some(s),
                    },
                    Err(e) => probe.sha is None && probe.last_modified is None && e.is_hub(
                        "revision probe: repo response missing sha and lastModified"@,
                    ),
                },
                SourceKind::Bucket { bucket_id } => match r {
                    Ok(s) => probe.updated_at == Some(s),
                    Err(e) => probe.updated_at is None && e.is_hub(
                        "revision probe: bucket response missing updatedAt"@,
                    ),
                },
            },
    {
        match &self.source {
            SourceKind::Repo { repo_id, repo_type, revision } => match probe.sha {
                Some(sha) => Ok(sha),
                None => match probe.last_modified {
                    Some(stamp) => Ok(stamp),
                    None => Err(
                        Error::hub("revision probe: repo response missing sha and lastModified"),
                    ),
                },
            },
            SourceKind::Bucket { bucket_id } => match probe.updated_at {
                Some(stamp) => Ok(stamp),
                None => Err(Error::hub("revision probe: bucket response missing updatedAt")),
            },
        }
    }

    /// The address of the first page of a listing (single directory level). For
    /// repos, it asks with `expand=true` for the last commit of each file (mtime);
    /// for buckets, it passes `recursive=false`.
    pub fn tree_url(&self, path: &RemotePath) -> (s: String)
        ensures
            s@ == tree_url(self.endpoint@, self.source, *path),
    {
        let mut s: String = source_info_url(self.endpoint.as_str(), &self.source);
        match &self.source {
            SourceKind::Bucket { bucket_id } => {
                s.push_str("/tree");
                if !path.is_empty() {
                    let url: String = path.as_url();
                    let ghost head = s@;
                    s.push_str("/");
                    s.push_str(url.as_str());
                    assert(s@ =~= head + ("/"@ + path.url()));
                } else {
                    assert(s@ =~= s@ + Seq::<char>::empty());
                }
                s.push_str("?recursive=false&limit=5000");
            },
            SourceKind::Repo { repo_id, repo_type, revision } => {
                s.push_str("/tree/");
                s.push_str(revision.as_str());
                if !path.is_empty() {
                    let url: String = path.as_url();
                    let ghost head = s@;
                    s.push_str("/");
                    s.push_str(url.as_str());
                    assert(s@ =~= head + ("/"@ + path.url()));
                } else {
                    assert(s@ =~= s@ + Seq::<char>::empty());
                }
                s.push_str("?expand=true&limit=1000");
            },
        }
        s
    }

    /// The address of a file. Buckets: `/buckets/{id}/resolve/{path}` (no
    /// `/api/` prefix). Repos: `/{resolve_prefix}{id}/resolve/{revision}/{path}`.
    pub fn resolve_url(&self, path: &RemotePath) -> (s: String)
        ensures
            s@ == resolve_url(self.endpoint@, self.source, *path),
    {
        let mut s: String = self.endpoint.clone();
        let url: String = path.as_url();
        match &self.source {
            SourceKind::Bucket { bucket_id } => {
                s.push_str("/buckets/");
                push_all(&mut s, bucket_id.as_str(), "/resolve/", url.as_str());
            },
            SourceKind::Repo { repo_id, repo_type, revision } => {
                s.push_str("/");
                push_all(&mut s, repo_type.resolve_prefix(), repo_id.as_str(), "/resolve/");
                push_all(&mut s, revision.as_str(), "/", url.as_str());
            },
        }
        s
    }

    /// The address of read tokens for the content store.
    pub fn cas_token_url(&self) -> (s: String)
        ensures
            s@ == read_token_url(self.endpoint@, self.source),
    {
        let mut s: String = source_info_url(self.endpoint.as_str(), &self.source);
        match &self.source {
            SourceKind::Bucket { bucket_id } => {
                s.push_str("/xet-read-token");
            },
            SourceKind::Repo { repo_id, repo_type, revision } => {
                s.push_str("/xet-read-token/");
                s.push_str(revision.as_str());
            },
        }
        s
    }

    /// The address of write tokens for the content store (buckets only).
    pub fn cas_write_token_url(&self) -> (r: Result<String>)
        ensures
            match r {
                Ok(s) => self.source is Bucket && s@ == info_url(self.endpoint@, self.source)
                    + "/xet-write-token"@,
                Err(e) => self.source is Repo && e.is_hub("write tokens not supported for repos"@),
            },
    {
        if self.is_repo() {
            return Err(Error::hub("write tokens not supported for repos"));
        }
        let mut s: String = source_info_url(self.endpoint.as_str(), &self.source);
        s.push_str("/xet-write-token");
        Ok(s)
    }

    /// The address of tokens of a kind for the content store.
    pub fn token_url(&self, kind: TokenKind) -> (r: Result<String>)
        ensures
            match r {
                Ok(s) => match kind {
                    TokenKind::Read => s@ == read_token_url(self.endpoint@, self.source),
                    TokenKind::Write => self.source is Bucket && s@ == info_url(
                        self.endpoint@,
                        self.source,
                    ) + "/xet-write-token"@,
                },
                Err(e) => kind is Write && self.source is Repo && e.is_hub(
                    "write tokens not supported for repos"@,
                ),
            },
    {
        match kind {
            TokenKind::Read => Ok(self.cas_token_url()),
            TokenKind::Write => self.cas_write_token_url(),
        }
    }

    /// The address of batch operations (buckets only).
    pub fn batch_url(&self) -> (r: Result<String>)
        ensures
            match r {
                Ok(s) => self.source is Bucket && s@ == info_url(self.endpoint@, self.source)
                    + "/batch"@,
                Err(e) => self.source is Repo && e.is_hub(
                    "batch operations not supported for repos"@,
                ),
            },
    {
        if self.is_repo() {
            return Err(Error::hub("batch operations not supported for repos"));
        }
        let mut s: String = source_info_url(self.endpoint.as_str(), &self.source);
        s.push_str("/batch");
        Ok(s)
    }

    /// The same change at the path that the remote knows it by.
    fn remote_op(&self, op: &BatchOp) -> (r: Result<BatchOp>)
        requires
            self.path_cipher is Some ==> hctr2::text_fits(
                client::joined_path(self.path_prefix@, op.path()),
            ),
        ensures
            match r {
                Ok(t) => op.same_change(t) && self.remote_body(op.path()) == Ok::<
                    Seq<char>,
                    Seq<char>,
                >(t.path()),
                Err(e) => self.remote_body(op.path()) matches Err(m) && e.is_hub(m),
            },
    {
        match op {
            BatchOp::AddFile { path, xet_hash, mtime, content_type } => {
                match self.prefixed_path(path.as_str()) {
                    Ok(p) => Ok(
                        BatchOp::AddFile {
                            path: p.as_body().to_owned(),
                            xet_hash: xet_hash.clone(),
                            mtime: *mtime,
                            content_type: match content_type {
                                Some(t) => Some(t.clone()),
                                None => None,
                            },
                        },
                    ),
                    Err(e) => Err(e),
                }
            },
            BatchOp::DeleteFile { path } => {
                match self.prefixed_path(path.as_str()) {
                    Ok(p) => Ok(BatchOp::DeleteFile { path: p.as_body().to_owned() }),
                    Err(e) => Err(e),
                }
            },
        }
    }

    /// The changes of a batch at the paths that the remote knows them by: every
    /// path goes through `prefixed_path`, which joins the subfolder prefix and
    /// encrypts when a cipher is configured. Nothing is sent if one of the paths
    /// cannot be.
    pub fn remote_ops(&self, ops: &Vec<BatchOp>) -> (r: Result<Vec<BatchOp>>)
        requires
            self.path_cipher is Some ==> forall|i: int|
                0 <= i < ops@.len() ==> hctr2::text_fits(
                    client::joined_path(self.path_prefix@, (#[trigger] ops@[i]).path()),
                ),
        ensures
            match r {
                Ok(out) => out@.len() == ops@.len() && forall|i: int|
                    0 <= i < ops@.len() ==> (#[trigger] ops@[i]).same_change(out@[i])
                        && self.remote_body(ops@[i].path()) == Ok::<Seq<char>, Seq<char>>(
                        out@[i].path(),
                    ),
                Err(e) => exists|k: int|
                    0 <= k < ops@.len() && (self.remote_body(#[trigger] ops@[k].path()) matches Err(
                        m,
                    ) && e.is_hub(m)) && forall|i: int|
                        0 <= i < k ==> self.remote_body(#[trigger] ops@[i].path()) is Ok,
            },
    {
        let mut out: Vec<BatchOp> = Vec::new();
        let mut i: usize = 0;
        while i < ops.len()
            invariant
                i <= ops@.len(),
                out@.len() == i,
                self.path_cipher is Some ==> forall|j: int|
                    0 <= j < ops@.len() ==> hctr2::text_fits(
                        client::joined_path(self.path_prefix@, (#[trigger] ops@[j]).path()),
                    ),
                forall|j: int|
                    0 <= j < i ==> (#[trigger] ops@[j]).same_change(out@[j]) && self.remote_body(
                        ops@[j].path(),
                    ) == Ok::<Seq<char>, Seq<char>>(out@[j].path()),
            decreases ops@.len() - i,
        {
            match self.remote_op(&ops[i]) {
                Ok(t) => {
                    out.push(t);
                },
                Err(e) => {
                    assert(self.remote_body(ops@[i as int].path()) is Err);
                    return Err(e);
                },
            }
            i = i + 1;
        }
        Ok(out)
    }

    /// What is said of a subfolder that could not be listed.
    pub open spec fn missing_subfolder(self, e: Error) -> Seq<char> {
        "subfolder '"@ + self.path_prefix@ + "' not found in "@ + self.source.name() + ": "@
            + e.text()
    }

    /// What is said of a subfolder that has nothing in it.
    pub open spec fn empty_subfolder(self) -> Seq<char> {
        "subfolder '"@ + self.path_prefix@ + "' is empty or does not exist in "@
            + self.source.name()
    }

    /// Whether the subfolder exists on the remote, given a listing of it. There
    /// is nothing to ask where the client is scoped to none.
    pub fn check_path_prefix(&self, listing: Result<Vec<TreeEntry>>) -> (r: Result<()>)
        ensures
            match r {
                Ok(_) => self.path_prefix@.len() == 0 || (listing matches Ok(entries)
                    && entries@.len() > 0),
                Err(f) => self.path_prefix@.len() > 0 && match listing {
                    Ok(entries) => entries@.len() == 0 && f.is_hub(self.empty_subfolder()),
                    Err(e) => f.is_hub(self.missing_subfolder(e)),
                },
            },
    {
        if self.path_prefix.as_str().is_empty() {
            return Ok(());
        }
        let mut message: String = "subfolder '".to_owned();
        message.push_str(self.path_prefix.as_str());
        let source: String = self.source.to_string();
        match listing {
            Ok(entries) => {
                if entries.len() == 0 {
                    message.push_str("' is empty or does not exist in ");
                    message.push_str(source.as_str());
                    return Err(Error::Hub { status: None, message });
                }
                Ok(())
            },
            Err(e) => {
                push_all(&mut message, "' not found in ", source.as_str(), ": ");
                message.push_str(e.to_string().as_str());
                Err(Error::Hub { status: None, message })
            },
        }
    }
}

/// A listing that comes page by page: what came so far, and where the next page
/// is.
pub struct TreePages {
    url: String,
    entries: Vec<TreeEntry>,
}

impl TreePages {
    /// The address of the page to ask for.
    pub closed spec fn address(self) -> Seq<char> {
        self.url@
    }

    /// What the pages so far hold, in order.
    pub closed spec fn listed(self) -> Seq<TreeEntry> {
        self.entries@
    }

    /// A listing whose first page is at `url`.
    pub fn new(url: String) -> (p: TreePages)
        ensures
            p.address() == url@,
            p.listed() == Seq::<TreeEntry>::empty(),
    {
        TreePages { url, entries: Vec::new() }
    }

    /// The address of the page to ask for.
    pub fn url(&self) -> (s: &str)
        ensures
            s@ == self.address(),
    {
        self.url.as_str()
    }

    /// Takes in a page and its `Link` header. Returns whether there is another
    /// page, which is then the one to ask for.
    pub fn add_page(&mut self, link: Option<&str>, page: Vec<TreeEntry>) -> (more: bool)
        requires
            link matches Some(header) ==> http::link_is_well_formed(header@),
        ensures
            final(self).listed() == old(self).listed() + page@,
            ({
                let next = match link {
                    Some(header) => http::next_page(header@),
                    None => None,
                };
                &&& more == (next is Some)
                &&& final(self).address() == match next {
                    Some(url) => url,
                    None => old(self).address(),
                }
            }),
    {
        let mut page: Vec<TreeEntry> = page;
        self.entries.append(&mut page);
        let next: Option<String> = match link {
            Some(header) => http::parse_link_next(header),
            None => None,
        };
        match next {
            Some(url) => {
                self.url = url;
                true
            },
            None => false,
        }
    }

    /// What the pages hold.
    pub fn into_entries(self) -> (entries: Vec<TreeEntry>)
        ensures
            entries@ == self.listed(),
    {
        self.entries
    }
}

/// The lines of a body, each with its line end.
pub open spec fn lines_of(lines: Seq<Seq<char>>) -> Seq<char>
    decreases lines.len(),
{
    if lines.len() == 0 {
        Seq::empty()
    } else {
        lines_of(lines.drop_last()) + lines.last().push('\n')
    }
}

/// The body that carries one JSON value per line.
pub fn ndjson_body(lines: &Vec<String>) -> (body: String)
    ensures
        body@ == lines_of(text::views(lines@)),
{
    let mut body: String = String::new();
    let ghost all = text::views(lines@);
    let mut i: usize = 0;
    assert(all.take(0) =~= Seq::empty());
    while i < lines.len()
        invariant
            i <= lines@.len(),
            all == text::views(lines@),
            body@ == lines_of(all.take(i as int)),
        decreases lines@.len() - i,
    {
        let ghost before = body@;
        body.push_str(lines[i].as_str());
        body.push('\n');
        proof {
            assert(all.take(i + 1).drop_last() =~= all.take(i as int));
            assert(all.take(i + 1).last() == lines@[i as int]@);
            assert(body@ =~= before + lines@[i as int]@.push('\n'));
        }
        i = i + 1;
    }
    assert(all.take(all.len() as int) =~= all);
    body
}

/// How the client names itself to the Hub.
pub fn user_agent(version: &str, backend: &str) -> (s: String)
    ensures
        s@ == "hf-mount/"@ + version@ + "; fs/"@ + backend@,
{
    let mut s: String = "hf-mount/".to_owned();
    push_all(&mut s, version, "; fs/", backend);
    s
}

/// Every address lies at the endpoint, and those of the API at the information on
/// the source.
pub proof fn law_addresses_lie_at_the_endpoint(
    endpoint: Seq<char>,
    source: SourceKind,
    path: RemotePath,
)
    ensures
        endpoint.push('/').is_prefix_of(info_url(endpoint, source)),
        endpoint.push('/').is_prefix_of(resolve_url(endpoint, source, path)),
        info_url(endpoint, source).push('/').is_prefix_of(tree_url(endpoint, source, path)),
        info_url(endpoint, source).push('/').is_prefix_of(read_token_url(endpoint, source)),
{
    reveal_strlit("/api/buckets/");
    reveal_strlit("/api/");
    reveal_strlit("/buckets/");
    reveal_strlit("/");
    reveal_strlit("/tree");
    reveal_strlit("/tree/");
    reveal_strlit("/xet-read-token");
    reveal_strlit("/xet-read-token/");
    let start = endpoint.push('/');
    let info = info_url(endpoint, source);
    let at = info.push('/');
    let n = start.len() as int;
    let m = at.len() as int;
    assert(info.subrange(0, n) =~= start);
    assert(resolve_url(endpoint, source, path).subrange(0, n) =~= start);
    assert(tree_url(endpoint, source, path).subrange(0, m) =~= at);
    assert(read_token_url(endpoint, source).subrange(0, m) =~= at);
}

/// Whether `url` ends with `end`.
pub open spec fn ends_with(url: Seq<char>, end: Seq<char>) -> bool {
    url.len() >= end.len() && url.skip(url.len() - end.len()) == end
}

/// The information on a source is asked for by its kind and id.
pub proof fn law_information_is_asked_for_by_id(endpoint: Seq<char>, source: SourceKind)
    ensures
        source matches SourceKind::Bucket { bucket_id } ==> ends_with(
            info_url(endpoint, source),
            "buckets/"@ + bucket_id@,
        ),
        source matches SourceKind::Repo { repo_id, repo_type, revision } ==> ends_with(
            info_url(endpoint, source),
            repo_type.name() + seq!['s', '/'] + repo_id@,
        ),
{
    reveal_strlit("/api/buckets/");
    reveal_strlit("buckets/");
    reveal_strlit("/api/");
    reveal_strlit("/");
    let url = info_url(endpoint, source);
    match source {
        SourceKind::Bucket { bucket_id } => {
            let end = "buckets/"@ + bucket_id@;
            assert(url.skip(url.len() - end.len()) =~= end);
        },
        SourceKind::Repo { repo_id, repo_type, revision } => {
            source::law_routes_go_by_the_name(repo_type);
            let end = repo_type.name() + seq!['s', '/'] + repo_id@;
            assert(url.skip(url.len() - end.len()) =~= end);
        },
    }
}

/// A listing asks for one directory level of the path, at the revision of a
/// repository, and has the entries of a repository carry their last commit.
pub proof fn law_listings_ask_for_one_level(
    endpoint: Seq<char>,
    source: SourceKind,
    path: RemotePath,
)
    ensures
        ({
            let url = tree_url(endpoint, source, path);
            let way = if path.body().len() == 0 {
                Seq::empty()
            } else {
                seq!['/'] + path.url()
            };
            match source {
                SourceKind::Bucket { bucket_id } => ends_with(
                    url,
                    bucket_id@ + "/tree"@ + way + "?recursive=false&limit=5000"@,
                ),
                SourceKind::Repo { repo_id, repo_type, revision } => ends_with(
                    url,
                    repo_id@ + "/tree/"@ + revision@ + way + "?expand=true&limit=1000"@,
                ),
            }
        }),
{
    reveal_strlit("/");
    assert("/"@ =~= seq!['/']);
    let url = tree_url(endpoint, source, path);
    let way = if path.body().len() == 0 {
        Seq::empty()
    } else {
        seq!['/'] + path.url()
    };
    match source {
        SourceKind::Bucket { bucket_id } => {
            let end = bucket_id@ + "/tree"@ + way + "?recursive=false&limit=5000"@;
            assert(url.skip(url.len() - end.len()) =~= end);
        },
        SourceKind::Repo { repo_id, repo_type, revision } => {
            let end = repo_id@ + "/tree/"@ + revision@ + way + "?expand=true&limit=1000"@;
            assert(url.skip(url.len() - end.len()) =~= end);
        },
    }
}

/// A file is asked for by its id, its revision and its path, in this order.
pub proof fn law_files_are_asked_for_by_path(
    endpoint: Seq<char>,
    source: SourceKind,
    path: RemotePath,
)
    ensures
        source matches SourceKind::Bucket { bucket_id } ==> ends_with(
            resolve_url(endpoint, source, path),
            "/buckets/"@ + bucket_id@ + "/resolve/"@ + path.url(),
        ),
        source matches SourceKind::Repo { repo_id, repo_type, revision } ==> ends_with(
            resolve_url(endpoint, source, path),
            repo_id@ + "/resolve/"@ + revision@ + seq!['/'] + path.url(),
        ) && resolve_url(endpoint, source, path).len() == endpoint.len() + 1
            + repo_type.resolve().len() + repo_id@.len() + "/resolve/"@.len() + revision@.len() + 1
            + path.url().len(),
{
    reveal_strlit("/");
    assert("/"@ =~= seq!['/']);
    let url = resolve_url(endpoint, source, path);
    match source {
        SourceKind::Bucket { bucket_id } => {
            let end = "/buckets/"@ + bucket_id@ + "/resolve/"@ + path.url();
            assert(url.skip(url.len() - end.len()) =~= end);
        },
        SourceKind::Repo { repo_id, repo_type, revision } => {
            let end = repo_id@ + "/resolve/"@ + revision@ + seq!['/'] + path.url();
            assert(url.skip(url.len() - end.len()) =~= end);
        },
    }
}

/// Different paths have different addresses, for listings and for files.
pub proof fn law_paths_have_their_own_addresses(
    endpoint: Seq<char>,
    source: SourceKind,
    a: RemotePath,
    b: RemotePath,
)
    requires
        a.body().len() > 0,
        b.body().len() > 0,
        tree_url(endpoint, source, a) == tree_url(endpoint, source, b) || resolve_url(
            endpoint,
            source,
            a,
        ) == resolve_url(endpoint, source, b),
    ensures
        a.url() == b.url(),
{
    reveal_strlit("/");
    let head = match source {
        SourceKind::Bucket { bucket_id } => info_url(endpoint, source) + "/tree"@ + "/"@,
        SourceKind::Repo { repo_id, repo_type, revision } => info_url(endpoint, source)
            + "/tree/"@ + revision@ + "/"@,
    };
    let tail = match source {
        SourceKind::Bucket { bucket_id } => "?recursive=false&limit=5000"@,
        SourceKind::Repo { repo_id, repo_type, revision } => "?expand=true&limit=1000"@,
    };
    let ta = tree_url(endpoint, source, a);
    let tb = tree_url(endpoint, source, b);
    assert(ta =~= head + a.url() + tail);
    assert(tb =~= head + b.url() + tail);
    if ta == tb {
        let n = head.len() as int;
        assert(ta.len() == n + a.url().len() + tail.len());
        assert(tb.len() == n + b.url().len() + tail.len());
        assert(a.url() =~= ta.subrange(n, ta.len() - tail.len()));
        assert(b.url() =~= tb.subrange(n, tb.len() - tail.len()));
    } else {
        let start = match source {
            SourceKind::Bucket { bucket_id } => endpoint + "/buckets/"@ + bucket_id@
                + "/resolve/"@,
            SourceKind::Repo { repo_id, repo_type, revision } => endpoint + "/"@
                + repo_type.resolve() + repo_id@ + "/resolve/"@ + revision@ + "/"@,
        };
        let ra = resolve_url(endpoint, source, a);
        let rb = resolve_url(endpoint, source, b);
        assert(ra =~= start + a.url());
        assert(rb =~= start + b.url());
        let n = start.len() as int;
        assert(a.url() =~= ra.skip(n));
        assert(b.url() =~= rb.skip(n));
    }
}

/// Read tokens are asked for at the source, for the revision of a repository.
pub proof fn law_read_tokens_are_for_the_revision(endpoint: Seq<char>, source: SourceKind)
    ensures
        source matches SourceKind::Bucket { bucket_id } ==> ends_with(
            read_token_url(endpoint, source),
            bucket_id@ + "/xet-read-token"@,
        ),
        source matches SourceKind::Repo { repo_id, repo_type, revision } ==> ends_with(
            read_token_url(endpoint, source),
            repo_id@ + "/xet-read-token/"@ + revision@,
        ),
{
    let url = read_token_url(endpoint, source);
    match source {
        SourceKind::Bucket { bucket_id } => {
            let end = bucket_id@ + "/xet-read-token"@;
            assert(url.skip(url.len() - end.len()) =~= end);
        },
        SourceKind::Repo { repo_id, repo_type, revision } => {
            let end = repo_id@ + "/xet-read-token/"@ + revision@;
            assert(url.skip(url.len() - end.len()) =~= end);
        },
    }
}

/// Nothing is written to a repository: neither a write token nor a batch has an
/// address there, while a bucket has both.
pub proof fn law_repositories_take_no_writes(
    c: HubApiClient,
    token: Result<String>,
    batch: Result<String>,
)
    requires
        call_ensures(HubApiClient::token_url, (&c, TokenKind::Write), token),
        call_ensures(HubApiClient::batch_url, (&c,), batch),
    ensures
        c.source is Repo ==> token is Err && batch is Err,
        c.source is Bucket ==> token is Ok && batch is Ok,
{
}

/// The kind of a repository is that of the first try that is answered with 200:
/// model, dataset, space, in this order.
pub proof fn law_first_match_is_the_kind(statuses: Seq<Option<u16>>, k: int)
    requires
        0 <= k < statuses.len(),
        statuses[k] == Some(200u16),
        forall|j: int| 0 <= j < k ==> #[trigger] statuses[j] != Some(200u16),
    ensures
        k == 0 ==> probed(statuses) == Some(RepoType::Model),
        k == 1 ==> probed(statuses) == Some(RepoType::Dataset),
        k == 2 ==> probed(statuses) == Some(RepoType::Space),
    decreases statuses.len(),
{
    let rest = statuses.drop_last();
    if k < rest.len() {
        assert(rest[k] == statuses[k]);
        assert forall|j: int| 0 <= j < k implies #[trigger] rest[j] != Some(200u16) by {
            assert(rest[j] == statuses[j]);
        }
        law_first_match_is_the_kind(rest, k);
    } else {
        assert forall|j: int| 0 <= j < rest.len() implies #[trigger] rest[j] != Some(200u16) by {
            assert(rest[j] == statuses[j]);
        }
        law_no_match_is_no_repository(rest);
    }
}

/// Without such an answer the id is no repository's.
pub proof fn law_no_match_is_no_repository(statuses: Seq<Option<u16>>)
    requires
        forall|j: int| 0 <= j < statuses.len() ==> #[trigger] statuses[j] != Some(200u16),
    ensures
        probed(statuses) is None,
    decreases statuses.len(),
{
    if statuses.len() > 0 {
        let rest = statuses.drop_last();
        assert forall|j: int| 0 <= j < rest.len() implies #[trigger] rest[j] != Some(200u16) by {
            assert(rest[j] == statuses[j]);
        }
        law_no_match_is_no_repository(rest);
        assert(statuses[statuses.len() - 1] != Some(200u16));
    }
}

/// A batch is sent change by change, in order: each keeps its kind, content hash,
/// time and content type, and stands at the path that the remote knows it by.
pub proof fn law_batches_keep_their_changes(
    c: HubApiClient,
    ops: Vec<BatchOp>,
    sent: Vec<BatchOp>,
    i: int,
)
    requires
        call_ensures(HubApiClient::remote_ops, (&c, &ops), Ok(sent)),
        0 <= i < ops@.len(),
    ensures
        sent@.len() == ops@.len(),
        ops@[i] matches BatchOp::AddFile { path, xet_hash, mtime, content_type } ==> (
        sent@[i] matches BatchOp::AddFile {
            path: at,
            xet_hash: hash,
            mtime: time,
            content_type: kind,
        } && hash == xet_hash && time == mtime && kind == content_type && c.remote_body(path@)
            == Ok::<Seq<char>, Seq<char>>(at@)),
        ops@[i] matches BatchOp::DeleteFile { path } ==> (sent@[i] matches BatchOp::DeleteFile {
            path: at,
        } && c.remote_body(path@) == Ok::<Seq<char>, Seq<char>>(at@)),
{
    assert(ops@[i].same_change(sent@[i]));
}

/// A body of lines gives its lines back: cut at the line ends it is the lines and
/// nothing after the last one.
pub proof fn law_lines_come_back(lines: Seq<Seq<char>>)
    requires
        forall|i: int| 0 <= i < lines.len() ==> !(#[trigger] lines[i]).contains('\n'),
    ensures
        text::split(lines_of(lines), '\n') == lines.push(Seq::empty()),
{
    let all = lines.push(Seq::empty());
    lemma_lines_joined(lines);
    assert forall|i: int| 0 <= i < all.len() implies !(#[trigger] all[i]).contains('\n') by {
        if i < lines.len() {
            assert(all[i] == lines[i]);
        }
    }
    text::lemma_split_join(all, '\n');
}

proof fn lemma_lines_joined(lines: Seq<Seq<char>>)
    ensures
        lines_of(lines) == text::join(lines.push(Seq::empty()), '\n'),
    decreases lines.len(),
{
    text::lemma_join_push(lines, Seq::empty(), '\n');
    if lines.len() > 0 {
        let rest = lines.drop_last();
        lemma_lines_joined(rest);
        text::lemma_join_push(rest, Seq::empty(), '\n');
        text::lemma_join_push(rest, lines.last(), '\n');
        assert(rest.push(lines.last()) =~= lines);
        if rest.len() == 0 {
            assert(lines_of(lines) =~= text::join(lines, '\n').push('\n') + Seq::<char>::empty());
        } else {
            assert(lines_of(rest) =~= text::join(rest, '\n').push('\n'));
            assert(lines_of(lines) =~= text::join(lines, '\n').push('\n') + Seq::<char>::empty());
        }
    } else {
        assert(lines_of(lines) =~= Seq::empty());
    }
}

/// The revision of a repository is its commit, and where the Hub gives none the time
/// of its last change; that of a bucket is the time of its last change.
pub proof fn law_revision_is_what_changes(c: HubApiClient, probe: RevisionProbe, r: Result<String>)
    requires
        call_ensures(HubApiClient::select_revision, (&c, probe), r),
    ensures
        c.source is Repo && probe.sha is Some ==> r is Ok && Some(r->Ok_0) == probe.sha,
        c.source is Repo && probe.sha is None && probe.last_modified is Some ==> r is Ok && Some(
            r->Ok_0,
        ) == probe.last_modified,
        c.source is Repo && probe.sha is None && probe.last_modified is None ==> r is Err,
        c.source is Bucket && probe.updated_at is Some ==> r is Ok && Some(r->Ok_0)
            == probe.updated_at,
        c.source is Bucket && probe.updated_at is None ==> r is Err,
{
}

/// A client is made for the id that a repository goes by, whatever it was asked for
/// as, and for a bucket as it was asked for; it can be made unless the Hub leaves
/// that id out. Slashes at the end of the endpoint do not count.
pub proof fn law_clients_are_made_for_the_source(
    endpoint: &str,
    token: Option<&str>,
    source: SourceKind,
    prefix: String,
    id: Option<&str>,
    changed: Option<&str>,
    r: Result<HubApiClient>,
)
    requires
        call_ensures(HubApiClient::from_info, (endpoint, token, source, prefix, id, changed), r),
    ensures
        r is Err <==> source is Repo && id is None,
        r matches Ok(c) ==> {
            &&& source is Bucket ==> c.source == source
            &&& source matches SourceKind::Repo { repo_id, repo_type, revision } ==> (
            c.source matches SourceKind::Repo { repo_id: i, repo_type: t, revision: v } && i@
                == id->0@ && t == repo_type && v == revision)
            &&& c.path_prefix@ == prefix@
            &&& c.path_cipher is None
            &&& c.endpoint@.len() > 0 ==> c.endpoint@.last() != '/'
            &&& c.endpoint@.is_prefix_of(endpoint@)
            &&& token is Some ==> c.token is Some && c.token->0@ == token->0@
            &&& token is None ==> c.token is None
            &&& changed is None ==> c.last_modified.secs == 0
        },
{
    text::law_trim_end_takes_all(endpoint@, '/', 0);
}

/// A subfolder exists where its listing shows something; a client without one has
/// nothing to check.
pub proof fn law_subfolders_must_show_something(
    c: HubApiClient,
    listing: Result<Vec<TreeEntry>>,
    r: Result<()>,
)
    requires
        call_ensures(HubApiClient::check_path_prefix, (&c, listing), r),
    ensures
        c.path_prefix@.len() == 0 ==> r is Ok,
        c.path_prefix@.len() > 0 ==> (r is Ok <==> listing is Ok && listing->Ok_0@.len() > 0),
{
}

/// The hint for a bucket id that is a repository's names the id and the kind; any
/// other failure is handed on as it is.
pub proof fn law_hints_name_the_repository(
    id: &str,
    kind: Option<RepoType>,
    e: Error,
    r: Error,
)
    requires
        call_ensures(bucket_failure, (id, kind, e), r),
    ensures
        kind is None ==> r == e,
        kind matches Some(t) ==> (r matches Error::Hub { status, message } && status is None
            && (id@ + " is not a bucket, but it exists as a "@ + t.name()).is_prefix_of(message@)),
{
    if let Some(t) = kind {
        let head = id@ + " is not a bucket, but it exists as a "@ + t.name();
        let all = not_a_bucket(id@, t);
        assert(all.subrange(0, head.len() as int) =~= head);
    }
}

} // verus!
