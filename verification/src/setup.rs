//! What a mount is set up with: options, sources, and the decisions that
//! follow from them.

use vstd::prelude::*;

use crate::encryption;
use crate::encryption::content;
use crate::hub_api::source;
use crate::hub_api::source::{parse_repo_id, split_path_prefix, SourceKind};
use crate::text;
use crate::time::Span;

verus! {

/// Disk cache layers.
#[derive(Copy, Clone, Debug, PartialEq, Eq, Structural)]
pub enum CacheMode {
    /// xet-core's chunk_cache: caches xorb byte ranges on disk.
    Chunk,
    /// hf-mount's whole-file cache: caches reconstructed files keyed by xet
    /// hash.
    File,
}

/// What to mount, and where.
#[derive(Debug, Clone)]
pub enum Source {
    /// Mount a HuggingFace bucket (read-write by default)
    Bucket {
        /// Bucket ID, optionally with a subfolder (e.g. "user/bucket" or
        /// "user/bucket/path/to/dir")
        bucket_id: String,
        /// Local directory where the filesystem will be mounted
        mount_point: String,
    },
    /// Mount a HuggingFace repo read-only (type auto-detected from prefix)
    Repo {
        /// Repo ID, optionally with a subfolder (e.g. "user/model",
        /// "user/model/sub/dir", "datasets/user/ds/train")
        repo_id: String,
        /// Local directory where the filesystem will be mounted
        mount_point: String,
        /// Git revision to mount
        revision: String,
    },
}

impl Source {
    /// Where the source is mounted.
    pub open spec fn mounted_at(self) -> Seq<char> {
        match self {
            Source::Bucket { bucket_id, mount_point } => mount_point@,
            Source::Repo { repo_id, mount_point, revision } => mount_point@,
        }
    }

    /// Human-readable label of the source.
    pub open spec fn label_text(self) -> Seq<char> {
        match self {
            Source::Bucket { bucket_id, mount_point } => "bucket/"@ + bucket_id@,
            Source::Repo { repo_id, mount_point, revision } => {
                let (t, id) = source::parsed_repo_id(repo_id@);
                t.name() + "/"@ + id + "/"@ + revision@
            },
        }
    }

    /// Where the source is mounted.
    pub fn mount_point(&self) -> (s: &str)
        ensures
            s@ == self.mounted_at(),
    {
        match self {
            Source::Bucket { bucket_id, mount_point } => mount_point.as_str(),
            Source::Repo { repo_id, mount_point, revision } => mount_point.as_str(),
        }
    }

    /// Human-readable label matching the format of [`SourceKind::to_string`].
    pub fn label(&self) -> (s: String)
        ensures
            s@ == self.label_text(),
    {
        match self {
            Source::Bucket { bucket_id, mount_point } => {
                let mut s: String = "bucket/".to_owned();
                s.push_str(bucket_id.as_str());
                s
            },
            Source::Repo { repo_id, mount_point, revision } => {
                let (repo_type, id) = parse_repo_id(repo_id.as_str());
                let mut s: String = repo_type.to_string();
                s.push_str("/");
                s.push_str(id.as_str());
                s.push_str("/");
                s.push_str(revision.as_str());
                s
            },
        }
    }

    /// The identifier that id and subfolder are cut from.
    pub open spec fn identifier(self) -> Seq<char> {
        match self {
            Source::Bucket { bucket_id, mount_point } => bucket_id@,
            Source::Repo { repo_id, mount_point, revision } => source::parsed_repo_id(repo_id@).1,
        }
    }
}

/// A source with its subfolder taken apart from its id.
#[derive(Debug, Clone)]
pub struct ResolvedSource {
    pub mount_point: String,
    pub kind: SourceKind,
    pub path_prefix: String,
}

/// Whether `kind` is what `s` names, with `id` for its id.
pub open spec fn is_kind_of(s: Source, kind: SourceKind, id: Seq<char>) -> bool {
    match s {
        Source::Bucket { bucket_id, mount_point } => kind matches SourceKind::Bucket {
            bucket_id: found,
        } && found@ == id,
        Source::Repo { repo_id, mount_point, revision } => kind matches SourceKind::Repo {
            repo_id: found,
            repo_type,
            revision: rev,
        } && found@ == id && repo_type == source::parsed_repo_id(repo_id@).0 && rev@ == revision@,
    }
}

/// What is said of an identifier whose subfolder is refused.
pub open spec fn refused_path(s: Source) -> Seq<char> {
    (if s is Bucket {
        "invalid bucket path: "@
    } else {
        "invalid repo path: "@
    }) + "path prefix must not contain '.' or '..' components"@
}

/// Takes the subfolder of a source apart from its id.
pub fn resolve_source(source: &Source) -> (r: Result<ResolvedSource, String>)
    ensures
        match r {
            Ok(found) => {
                &&& source::split_identifier(source.identifier()) is Some
                &&& is_kind_of(
                    *source,
                    found.kind,
                    (source::split_identifier(source.identifier())->0).0,
                )
                &&& found.path_prefix@ == (source::split_identifier(source.identifier())->0).1
                &&& found.mount_point@ == source.mounted_at()
            },
            Err(e) => source::split_identifier(source.identifier()) is None && e@ == refused_path(
                *source,
            ),
        },
{
    match source {
        Source::Bucket { bucket_id, mount_point } => match split_path_prefix(bucket_id.as_str()) {
            Ok((id, prefix)) => Ok(
                ResolvedSource {
                    mount_point: mount_point.clone(),
                    kind: SourceKind::Bucket { bucket_id: id.to_owned() },
                    path_prefix: prefix.to_owned(),
                },
            ),
            Err(e) => {
                let mut message: String = "invalid bucket path: ".to_owned();
                message.push_str(e);
                Err(message)
            },
        },
        Source::Repo { repo_id, mount_point, revision } => {
            let (repo_type, rest) = parse_repo_id(repo_id.as_str());
            match split_path_prefix(rest.as_str()) {
                Ok((id, prefix)) => Ok(
                    ResolvedSource {
                        mount_point: mount_point.clone(),
                        kind: SourceKind::Repo {
                            repo_id: id.to_owned(),
                            repo_type,
                            revision: revision.clone(),
                        },
                        path_prefix: prefix.to_owned(),
                    },
                ),
                Err(e) => {
                    let mut message: String = "invalid repo path: ".to_owned();
                    message.push_str(e);
                    Err(message)
                },
            }
        },
    }
}

/// A source without a subfolder, and without slashes at the end of its id, is
/// labelled as the source that it resolves to is named.
pub proof fn law_label_is_name(s: Source, kind: SourceKind)
    requires
        text::trim_end_char(s.identifier(), '/') == s.identifier(),
        source::split_identifier(s.identifier()) matches Some((id, prefix)) && prefix.len() == 0
            && id == s.identifier() && is_kind_of(s, kind, id),
    ensures
        s.label_text() == kind.name(),
{
}

/// Mount options shared across all binaries (FUSE, NFS, daemon).
#[derive(Debug, Clone)]
pub struct MountOptions {
    /// HuggingFace API token. Required for private repos/buckets, optional for
    /// public repos.
    pub hf_token: Option<String>,
    /// Path to a file containing the API token. Takes precedence over
    /// `hf_token` when the file exists and is non-empty.
    pub token_file: Option<String>,
    /// HuggingFace Hub endpoint URL
    pub hub_endpoint: String,
    /// Directory for on-disk caches (file chunks, staging files)
    pub cache_dir: String,
    /// Override the UID for all files and directories (defaults to current
    /// user)
    pub uid: Option<u32>,
    /// Override the GID for all files and directories (defaults to current
    /// group)
    pub gid: Option<u32>,
    /// Mount in read-only mode (no writes allowed)
    pub read_only: bool,
    /// Use staging files + async flush for writes (supports random writes and
    /// seek). Default mode is append-only with synchronous close.
    pub advanced_writes: bool,
    /// Interval in seconds for polling remote changes (0 to disable).
    pub poll_interval_secs: u64,
    /// Maximum number of concurrent tree-listing requests per poll round.
    pub poll_listing_concurrency: u32,
    /// Maximum size in bytes for the on-disk chunk cache.
    pub cache_size: u64,
    /// Maximum size in bytes for staging files (advanced writes). 0 =
    /// unlimited.
    pub max_staging_size: u64,
    /// Disable the on-disk chunk cache.
    pub no_disk_cache: bool,
    /// Disk cache layer. The two are mutually exclusive — selecting `File`
    /// disables the chunk cache.
    pub cache_mode: CacheMode,
    /// Bypass the kernel page cache.
    pub direct_io: bool,
    /// Kernel metadata cache TTL in milliseconds.
    pub metadata_ttl_ms: u64,
    /// Always HEAD on every lookup (skip in-memory TTL cache).
    pub metadata_ttl_minimal: bool,
    /// Maximum number of FUSE worker threads
    pub max_threads: usize,
    /// Flush debounce delay in milliseconds.
    pub flush_debounce_ms: u64,
    /// Maximum flush batch window in milliseconds.
    pub flush_max_batch_window_ms: u64,
    /// Maximum time (ms) the shutdown drain may spend flushing dirty data.
    pub flush_shutdown_timeout_ms: u64,
    /// Disable filtering of OS junk files (.DS_Store, Thumbs.db, etc.).
    pub no_filter_os_files: bool,
    /// Restrict mount access to the mounting user only (FUSE only).
    pub fuse_owner_only: bool,
    /// Soft cap on the number of inodes kept in memory. 0 disables the evictor
    /// (unbounded growth).
    pub inode_soft_limit: usize,
    /// Interval in milliseconds between LRU evictor sweeps.
    pub lru_sweep_interval_ms: u64,
    /// Enable overlay mode. Implies advanced writes. Writes are never pushed to
    /// remote.
    pub overlay: bool,
    /// Path to a 32-byte master key (raw bytes or 64 hex characters). When set,
    /// file contents and names are encrypted client-side. Implies advanced
    /// writes.
    pub encryption_key_file: Option<String>,
    /// Content encryption algorithm.
    pub encryption_algorithm: String,
}

/// CLI args for the foreground FUSE/NFS binaries.
#[derive(Debug, Clone)]
pub struct Args {
    pub source: Source,
    pub options: MountOptions,
}

/// What the virtual filesystem is configured with.
#[derive(Debug, Clone, Copy, PartialEq, Eq, Structural)]
pub struct VfsConfig {
    pub read_only: bool,
    pub advanced_writes: bool,
    pub uid: u32,
    pub gid: u32,
    pub poll_interval_secs: u64,
    pub poll_listing_concurrency: u32,
    pub metadata_ttl: Span,
    pub serve_lookup_from_cache: bool,
    pub filter_os_files: bool,
    pub direct_io: bool,
    pub flush_debounce: Span,
    pub flush_max_batch_window: Span,
    pub flush_shutdown_timeout: Span,
    pub inode_soft_limit: usize,
    pub lru_sweep_interval: Span,
}

/// What follows from the options for a mount.
#[derive(Debug, Clone, Copy, PartialEq, Eq, Structural)]
pub struct MountPlan {
    /// Whether the mount refuses writes.
    pub read_only: bool,
    /// Whether nothing is ever written to the remote.
    pub remote_read_only: bool,
    /// Whether writes go through staging files.
    pub advanced_writes: bool,
    /// Whether whole files are cached on disk.
    pub file_cache: bool,
    /// Whether chunks are cached on disk.
    pub chunk_cache: bool,
    /// Whether a staging directory is needed. Repos need one for the HTTP
    /// download cache, even when advanced writes are disabled.
    pub staging_dir: bool,
    pub config: VfsConfig,
}

/// Whether a mount with these options refuses writes.
pub open spec fn mounts_read_only(options: MountOptions, is_repo: bool) -> bool {
    (options.read_only || is_repo) && !options.overlay
}

/// Whether a mount with these options writes through staging files.
pub open spec fn stages_writes(
    options: MountOptions,
    is_repo: bool,
    is_nfs: bool,
    encrypted: bool,
) -> bool {
    ||| options.advanced_writes
    ||| options.overlay
    ||| is_nfs && !mounts_read_only(options, is_repo)
    ||| encrypted
}

/// Whether `s` is a span of that many milliseconds.
pub open spec fn is_millis(s: Span, millis: u64) -> bool {
    s.wf() && s.total() == millis * 1_000_000
}

/// What is said of options that ask for an overlay that cannot be written to.
pub open spec fn pointless_overlay() -> Seq<char> {
    "--overlay with --read-only is pointless: overlay enables local writes, --read-only disables them. Use --read-only alone instead."@
}

/// What a mount with these options does. `is_nfs` says which backend serves it,
/// `encrypted` whether a master key was given, and `uid` and `gid` whose the
/// files are where the options do not say.
///
/// NFS clients use inode numbers as stable file IDs; evicting an inode the
/// client still holds would surface as a stale handle on its next request, so
/// the inode limit is off there. NFS has no equivalent of direct I/O.
pub fn plan_mount(
    options: &MountOptions,
    is_repo: bool,
    is_nfs: bool,
    encrypted: bool,
    uid: u32,
    gid: u32,
) -> (r: Result<MountPlan, String>)
    ensures
        r is Err <==> options.overlay && options.read_only,
        r matches Err(e) ==> e@ == pointless_overlay(),
        r matches Ok(plan) ==> {
            &&& plan.read_only == mounts_read_only(*options, is_repo)
            &&& plan.remote_read_only == (plan.read_only || options.overlay)
            &&& plan.advanced_writes == stages_writes(*options, is_repo, is_nfs, encrypted)
            &&& options.advanced_writes ==> plan.advanced_writes && plan.config.advanced_writes
                && plan.staging_dir
            &&& plan.file_cache == (options.cache_mode == CacheMode::File
                && !options.no_disk_cache)
            &&& plan.chunk_cache == (options.cache_mode == CacheMode::Chunk
                && !options.no_disk_cache)
            &&& plan.staging_dir == (plan.advanced_writes || is_repo)
            &&& plan.config.read_only == plan.read_only
            &&& plan.config.advanced_writes == plan.advanced_writes
            &&& plan.config.uid == match options.uid {
                Some(n) => n,
                None => uid,
            }
            &&& plan.config.gid == match options.gid {
                Some(n) => n,
                None => gid,
            }
            &&& plan.config.poll_interval_secs == options.poll_interval_secs
            &&& plan.config.poll_listing_concurrency == options.poll_listing_concurrency
            &&& is_millis(plan.config.metadata_ttl, options.metadata_ttl_ms)
            &&& plan.config.serve_lookup_from_cache == !options.metadata_ttl_minimal
            &&& plan.config.filter_os_files == !options.no_filter_os_files
            &&& plan.config.direct_io == (options.direct_io && !is_nfs)
            &&& is_millis(plan.config.flush_debounce, options.flush_debounce_ms)
            &&& is_millis(plan.config.flush_max_batch_window, options.flush_max_batch_window_ms)
            &&& is_millis(plan.config.flush_shutdown_timeout, options.flush_shutdown_timeout_ms)
            &&& plan.config.inode_soft_limit == if is_nfs {
                0
            } else {
                options.inode_soft_limit
            }
            &&& is_millis(plan.config.lru_sweep_interval, options.lru_sweep_interval_ms)
        },
{
    if options.overlay && options.read_only {
        return Err(
            "--overlay with --read-only is pointless: overlay enables local writes, --read-only disables them. Use --read-only alone instead.".to_owned(),
        );
    }
    let read_only: bool = (options.read_only || is_repo) && !options.overlay;
    // Overlay: local writes allowed, but no remote write token/upload.
    let remote_read_only: bool = read_only || options.overlay;
    // Encryption needs random access to the ciphertext container, so it always
    // uses the staging-file write path.
    let advanced_writes: bool = options.advanced_writes || options.overlay || (is_nfs
        && !read_only) || encrypted;
    // The chunk cache and the whole-file cache are mutually exclusive, so that
    // disk is not paid for both layers.
    let file_cache: bool = options.cache_mode == CacheMode::File && !options.no_disk_cache;
    let chunk_cache: bool = !options.no_disk_cache && !file_cache;
    let config: VfsConfig = VfsConfig {
        read_only,
        advanced_writes,
        uid: match options.uid {
            Some(n) => n,
            None => uid,
        },
        gid: match options.gid {
            Some(n) => n,
            None => gid,
        },
        poll_interval_secs: options.poll_interval_secs,
        poll_listing_concurrency: options.poll_listing_concurrency,
        metadata_ttl: Span::from_millis(options.metadata_ttl_ms),
        serve_lookup_from_cache: !options.metadata_ttl_minimal,
        filter_os_files: !options.no_filter_os_files,
        direct_io: options.direct_io && !is_nfs,
        flush_debounce: Span::from_millis(options.flush_debounce_ms),
        flush_max_batch_window: Span::from_millis(options.flush_max_batch_window_ms),
        flush_shutdown_timeout: Span::from_millis(options.flush_shutdown_timeout_ms),
        inode_soft_limit: if is_nfs {
            0
        } else {
            options.inode_soft_limit
        },
        lru_sweep_interval: Span::from_millis(options.lru_sweep_interval_ms),
    };
    Ok(
        MountPlan {
            read_only,
            remote_read_only,
            advanced_writes,
            file_cache,
            chunk_cache,
            staging_dir: advanced_writes || is_repo,
            config,
        },
    )
}

/// Writes reach the remote only from a bucket that is mounted neither
/// read-only nor as an overlay; a repository is never written to.
pub proof fn law_remote_writes(options: MountOptions, is_repo: bool)
    ensures
        !(mounts_read_only(options, is_repo) || options.overlay) <==> !options.read_only && !is_repo
            && !options.overlay,
{
}

/// Mounts that are asked to, and encrypted, overlay and writable NFS mounts, write
/// through staging files; no other mount does.
pub proof fn law_staged_writes(
    options: MountOptions,
    is_repo: bool,
    is_nfs: bool,
    encrypted: bool,
)
    ensures
        stages_writes(options, is_repo, is_nfs, encrypted) <==> options.advanced_writes || encrypted
            || options.overlay || (is_nfs && !options.read_only && !is_repo),
{
}

/// A mount that is asked to write through staging files does so: every plan that
/// is made for it says so, configures the filesystem so, and has a staging
/// directory. So does every plan for an encrypted or an overlay mount, and for an
/// NFS mount of a bucket that may be written to.
pub proof fn law_plans_stage_writes(
    options: MountOptions,
    is_repo: bool,
    is_nfs: bool,
    encrypted: bool,
    uid: u32,
    gid: u32,
    plan: MountPlan,
)
    requires
        call_ensures(plan_mount, (&options, is_repo, is_nfs, encrypted, uid, gid), Ok(plan)),
        options.advanced_writes || encrypted || options.overlay || (is_nfs && !options.read_only
            && !is_repo),
    ensures
        plan.advanced_writes,
        plan.config.advanced_writes,
        plan.staging_dir,
{
}

/// A plan stages writes for one of these reasons only, and has a staging directory
/// only for that or for the downloads of a repository.
pub proof fn law_plans_stage_only_when_needed(
    options: MountOptions,
    is_repo: bool,
    is_nfs: bool,
    encrypted: bool,
    uid: u32,
    gid: u32,
    plan: MountPlan,
)
    requires
        call_ensures(plan_mount, (&options, is_repo, is_nfs, encrypted, uid, gid), Ok(plan)),
        !options.advanced_writes,
        !encrypted,
        !options.overlay,
        !is_nfs || options.read_only || is_repo,
    ensures
        !plan.advanced_writes,
        !plan.config.advanced_writes,
        plan.staging_dir == is_repo,
{
}

/// A plan lets the user write, to the remote or to an overlay, exactly where that
/// was asked for: a bucket that is not mounted read-only can be written to, an
/// overlay too, and only the former writes to the remote.
pub proof fn law_plans_write_where_asked(
    options: MountOptions,
    is_repo: bool,
    is_nfs: bool,
    encrypted: bool,
    uid: u32,
    gid: u32,
    plan: MountPlan,
)
    requires
        call_ensures(plan_mount, (&options, is_repo, is_nfs, encrypted, uid, gid), Ok(plan)),
    ensures
        options.overlay ==> !plan.read_only && !plan.config.read_only && plan.remote_read_only,
        options.read_only ==> plan.read_only && plan.config.read_only && plan.remote_read_only,
        is_repo ==> plan.remote_read_only,
        is_repo && !options.overlay ==> plan.read_only && plan.config.read_only,
        !is_repo && !options.overlay && !options.read_only ==> !plan.read_only
            && !plan.config.read_only && !plan.remote_read_only,
{
}

/// A plan caches on disk in at most one way: the one that was chosen, and none
/// where disk caches are off.
pub proof fn law_plans_cache_in_one_way(
    options: MountOptions,
    is_repo: bool,
    is_nfs: bool,
    encrypted: bool,
    uid: u32,
    gid: u32,
    plan: MountPlan,
)
    requires
        call_ensures(plan_mount, (&options, is_repo, is_nfs, encrypted, uid, gid), Ok(plan)),
    ensures
        !(plan.file_cache && plan.chunk_cache),
        options.no_disk_cache ==> !plan.file_cache && !plan.chunk_cache,
        !options.no_disk_cache && options.cache_mode is File ==> plan.file_cache,
        !options.no_disk_cache && options.cache_mode is Chunk ==> plan.chunk_cache,
{
}

/// Files belong to whom the options say, else to the user of the process. The
/// times in milliseconds are kept to the millisecond.
pub proof fn law_plans_follow_the_options(
    options: MountOptions,
    is_repo: bool,
    is_nfs: bool,
    encrypted: bool,
    uid: u32,
    gid: u32,
    plan: MountPlan,
)
    requires
        call_ensures(plan_mount, (&options, is_repo, is_nfs, encrypted, uid, gid), Ok(plan)),
    ensures
        options.uid is Some ==> Some(plan.config.uid) == options.uid,
        options.uid is None ==> plan.config.uid == uid,
        options.gid is Some ==> Some(plan.config.gid) == options.gid,
        options.gid is None ==> plan.config.gid == gid,
        plan.config.metadata_ttl.secs * 1000 + plan.config.metadata_ttl.nanos / 1_000_000
            == options.metadata_ttl_ms,
        plan.config.flush_debounce.secs * 1000 + plan.config.flush_debounce.nanos / 1_000_000
            == options.flush_debounce_ms,
        plan.config.flush_max_batch_window.secs * 1000 + plan.config.flush_max_batch_window.nanos
            / 1_000_000 == options.flush_max_batch_window_ms,
        plan.config.flush_shutdown_timeout.secs * 1000 + plan.config.flush_shutdown_timeout.nanos
            / 1_000_000 == options.flush_shutdown_timeout_ms,
        plan.config.lru_sweep_interval.secs * 1000 + plan.config.lru_sweep_interval.nanos
            / 1_000_000 == options.lru_sweep_interval_ms,
        is_nfs ==> plan.config.inode_soft_limit == 0 && !plan.config.direct_io,
        !is_nfs ==> plan.config.inode_soft_limit == options.inode_soft_limit
            && plan.config.direct_io == options.direct_io,
        plan.config.poll_interval_secs == options.poll_interval_secs,
        plan.config.poll_listing_concurrency == options.poll_listing_concurrency,
        plan.config.serve_lookup_from_cache <==> !options.metadata_ttl_minimal,
        plan.config.filter_os_files <==> !options.no_filter_os_files,
{
}

/// Options are refused only where they ask for an overlay that cannot be written
/// to.
pub proof fn law_plans_are_made_for_sound_options(
    options: MountOptions,
    is_repo: bool,
    is_nfs: bool,
    encrypted: bool,
    uid: u32,
    gid: u32,
    r: Result<MountPlan, String>,
)
    requires
        call_ensures(plan_mount, (&options, is_repo, is_nfs, encrypted, uid, gid), r),
    ensures
        !options.overlay ==> r is Ok,
        !options.read_only ==> r is Ok,
        options.overlay && options.read_only ==> r is Err,
{
}

/// How the mount can be accessed, in words.
pub open spec fn access_words(options: MountOptions, is_repo: bool) -> Seq<char> {
    if options.overlay {
        "overlay: remote read-only, local writes enabled"@
    } else if mounts_read_only(options, is_repo) {
        "read-only"@
    } else {
        "read-write"@
    }
}

/// How the mount can be accessed, in words.
pub fn access_mode(options: &MountOptions, is_repo: bool) -> (s: &'static str)
    ensures
        s@ == access_words(*options, is_repo),
{
    if options.overlay {
        "overlay: remote read-only, local writes enabled"
    } else if options.read_only || is_repo {
        "read-only"
    } else {
        "read-write"
    }
}

/// What the mount is said to be is what it is: an overlay where one was asked for,
/// else read-only where the options or the source allow no writes, else writable.
pub proof fn law_access_is_named_as_it_is(options: MountOptions, is_repo: bool, s: &'static str)
    requires
        call_ensures(access_mode, (&options, is_repo), s),
    ensures
        !options.overlay && (options.read_only || is_repo) ==> s@ == "read-only"@,
        !options.overlay && !options.read_only && !is_repo ==> s@ == "read-write"@,
        options.overlay ==> s@ == "overlay: remote read-only, local writes enabled"@,
{
}

/// A source resolves to itself: a bucket to a bucket, a repository to a repository of
/// the kind that its id names, at its revision, with its mount point. What follows
/// two names in its id is the subfolder.
pub proof fn law_sources_resolve_to_themselves(
    s: Source,
    found: ResolvedSource,
    owner: Seq<char>,
    name: Seq<char>,
    parts: Seq<Seq<char>>,
)
    requires
        call_ensures(resolve_source, (&s,), Ok(found)),
        !owner.contains('/'),
        !name.contains('/'),
        name.len() > 0,
        forall|i: int| 0 <= i < parts.len() ==> !(#[trigger] parts[i]).contains('/'),
        parts.len() > 0 ==> parts.last().len() > 0,
        ({
            let id = owner.push('/') + name;
            let raw = match s {
                Source::Bucket { bucket_id, mount_point } => bucket_id@,
                Source::Repo { repo_id, mount_point, revision } => source::parsed_repo_id(
                    repo_id@,
                ).1,
            };
            raw == if parts.len() == 0 {
                id
            } else {
                id.push('/') + text::join(parts, '/')
            }
        }),
    ensures
        ({
            let id = owner.push('/') + name;
            &&& found.path_prefix@ == text::join(parts, '/')
            &&& match s {
                Source::Bucket { bucket_id, mount_point } => {
                    &&& found.mount_point@ == mount_point@
                    &&& found.kind matches SourceKind::Bucket { bucket_id: b } && b@ == id
                },
                Source::Repo { repo_id, mount_point, revision } => {
                    &&& found.mount_point@ == mount_point@
                    &&& found.kind matches SourceKind::Repo {
                        repo_id: r,
                        repo_type,
                        revision: v,
                    } && r@ == id && v@ == revision@ && repo_type == source::parsed_repo_id(
                        repo_id@,
                    ).0
                },
            }
        }),
{
    let id = owner.push('/') + name;
    if parts.len() == 0 {
        source::law_two_names_are_an_id(owner, name);
        assert(text::join(parts, '/') =~= Seq::empty());
    } else {
        source::law_subfolder_follows_two_names(owner, name, parts);
    }
}

/// The label of a source names what it is, as its id gives it, and the revision of a
/// repository.
pub proof fn law_labels(s: Source)
    ensures
        s matches Source::Bucket { bucket_id, mount_point } ==> s.label_text() == "bucket/"@
            + bucket_id@,
        s matches Source::Repo { repo_id, mount_point, revision } ==> ({
            let (kind, id) = source::parsed_repo_id(repo_id@);
            s.label_text() == kind.name().push('/') + id.push('/') + revision@
        }),
{
    reveal_strlit("/");
    if let Source::Repo { repo_id, mount_point, revision } = s {
        let (kind, id) = source::parsed_repo_id(repo_id@);
        assert(s.label_text() =~= kind.name().push('/') + id.push('/') + revision@);
    }
}

/// The name of the backend.
pub fn backend_name(is_nfs: bool) -> (s: &'static str)
    ensures
        s@ == if is_nfs {
            "nfs"@
        } else {
            "fuse"@
        },
{
    if is_nfs {
        "nfs"
    } else {
        "fuse"
    }
}

/// The algorithm byte for an `--encryption-algorithm` value, or what is wrong
/// with the value.
pub fn select_algorithm(name: &str) -> (r: Result<u8, String>)
    ensures
        match r {
            Ok(b) => name@ == "aegis-128x2"@ && b == content::ALG_AEGIS_128X2,
            Err(e) => name@ != "aegis-128x2"@ && e@ == "unsupported --encryption-algorithm '"@
                + name@ + "' (supported: aegis-128x2)"@,
        },
{
    match encryption::algorithm_byte(name) {
        Some(b) => Ok(b),
        None => {
            let mut message: String = "unsupported --encryption-algorithm '".to_owned();
            message.push_str(name);
            message.push_str("' (supported: aegis-128x2)");
            Err(message)
        },
    }
}

/// How many file descriptors a mount wants to be able to open.
pub const TARGET_NOFILE: u64 = 65536;

/// The soft limit on file descriptors to set, given the current limits: as many
/// as are wanted, as far as the hard limit goes, or nothing where enough are
/// allowed already.
pub fn raised_fd_limit(soft: u64, hard: u64) -> (r: Option<u64>)
    ensures
        r == if soft >= TARGET_NOFILE {
            None
        } else if hard < TARGET_NOFILE {
            Some(hard)
        } else {
            Some(TARGET_NOFILE)
        },
{
    if soft >= TARGET_NOFILE {
        None
    } else if hard < TARGET_NOFILE {
        Some(hard)
    } else {
        Some(TARGET_NOFILE)
    }
}

/// The limit on file descriptors is raised as far as is wanted or allowed, and left
/// alone where it is high enough.
pub proof fn law_limits_are_raised(soft: u64, hard: u64, r: Option<u64>)
    requires
        call_ensures(raised_fd_limit, (soft, hard), r),
    ensures
        soft >= 65536 ==> r is None,
        soft < 65536 ==> r is Some,
        r matches Some(n) ==> n <= hard && n <= 65536 && (n == hard || n == 65536),
{
}

/// The one algorithm that is written can be chosen, and no other.
pub proof fn law_algorithms_that_can_be_chosen(name: &str, r: Result<u8, String>)
    requires
        call_ensures(select_algorithm, (name,), r),
    ensures
        name@ == "aegis-128x2"@ ==> r is Ok && r->Ok_0 == 2,
        name@ != "aegis-128x2"@ ==> r is Err,
{
}

/// A source is mounted where it was asked to be.
pub proof fn law_mount_points(s: Source, at: &str)
    requires
        call_ensures(Source::mount_point, (&s,), at),
    ensures
        s matches Source::Bucket { bucket_id, mount_point } ==> at@ == mount_point@,
        s matches Source::Repo { repo_id, mount_point, revision } ==> at@ == mount_point@,
{
}

} // verus!
