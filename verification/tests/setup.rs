use hf_mount::hub_api::{RepoType, SourceKind};
use hf_mount::setup::{
    access_mode, backend_name, plan_mount, raised_fd_limit, resolve_source, select_algorithm,
    CacheMode, MountOptions, Source, TARGET_NOFILE,
};
use hf_mount::time::Span;

fn options() -> MountOptions {
    MountOptions {
        hf_token: None,
        token_file: None,
        hub_endpoint: "https://huggingface.co".to_string(),
        cache_dir: "/tmp/hf-mount-cache".to_string(),
        uid: None,
        gid: None,
        read_only: false,
        advanced_writes: false,
        poll_interval_secs: 30,
        poll_listing_concurrency: 8,
        cache_size: 1000,
        max_staging_size: 0,
        no_disk_cache: false,
        cache_mode: CacheMode::Chunk,
        direct_io: true,
        metadata_ttl_ms: 1500,
        metadata_ttl_minimal: false,
        max_threads: 4,
        flush_debounce_ms: 2000,
        flush_max_batch_window_ms: 30000,
        flush_shutdown_timeout_ms: 0,
        no_filter_os_files: false,
        fuse_owner_only: false,
        inode_soft_limit: 100,
        lru_sweep_interval_ms: 500,
        overlay: false,
        encryption_key_file: None,
        encryption_algorithm: "aegis-128x2".to_string(),
    }
}

fn bucket(id: &str) -> Source {
    Source::Bucket {
        bucket_id: id.to_string(),
        mount_point: "/mnt/b".to_string(),
    }
}

fn repo(id: &str) -> Source {
    Source::Repo {
        repo_id: id.to_string(),
        mount_point: "/mnt/r".to_string(),
        revision: "main".to_string(),
    }
}

#[test]
fn labels_of_sources() {
    assert_eq!(bucket("user/b").label(), "bucket/user/b");
    assert_eq!(repo("datasets/user/d").label(), "dataset/user/d/main");
    assert_eq!(repo("gpt2").label(), "model/gpt2/main");
    assert_eq!(bucket("user/b").mount_point(), "/mnt/b");
    assert_eq!(repo("gpt2").mount_point(), "/mnt/r");
    // A source without a subfolder is labelled as the source it resolves to.
    for source in [bucket("user/b"), repo("spaces/user/s")] {
        let resolved = resolve_source(&source).unwrap();
        assert_eq!(resolved.kind.to_string(), source.label());
    }
}

#[test]
fn sources_are_resolved() {
    let found = resolve_source(&bucket("user/b/x/y/")).unwrap();
    assert!(matches!(&found.kind, SourceKind::Bucket { bucket_id } if bucket_id == "user/b"));
    assert_eq!(found.path_prefix, "x/y");
    assert_eq!(found.mount_point, "/mnt/b");
    let found = resolve_source(&repo("datasets/user/d/train")).unwrap();
    match &found.kind {
        SourceKind::Repo { repo_id, repo_type, revision } => {
            assert_eq!(repo_id, "user/d");
            assert_eq!(*repo_type, RepoType::Dataset);
            assert_eq!(revision, "main");
        }
        other => panic!("unexpected: {other:?}"),
    }
    assert_eq!(found.path_prefix, "train");
    assert_eq!(
        resolve_source(&bucket("user/b/../c")).unwrap_err(),
        "invalid bucket path: path prefix must not contain '.' or '..' components"
    );
    assert_eq!(
        resolve_source(&repo("user/m/./c")).unwrap_err(),
        "invalid repo path: path prefix must not contain '.' or '..' components"
    );
}

#[test]
fn buckets_are_writable() {
    let plan = plan_mount(&options(), false, false, false, 1000, 1001).unwrap();
    assert!(!plan.read_only && !plan.remote_read_only && !plan.advanced_writes);
    assert!(plan.chunk_cache && !plan.file_cache && !plan.staging_dir);
    assert_eq!(plan.config.uid, 1000);
    assert_eq!(plan.config.gid, 1001);
    assert!(plan.config.direct_io && plan.config.filter_os_files);
    assert!(plan.config.serve_lookup_from_cache);
    assert_eq!(plan.config.metadata_ttl, Span { secs: 1, nanos: 500_000_000 });
    assert_eq!(plan.config.flush_debounce, Span::from_secs(2));
    assert_eq!(plan.config.inode_soft_limit, 100);
    assert_eq!(access_mode(&options(), false), "read-write");
}

#[test]
fn repositories_are_read_only() {
    let plan = plan_mount(&options(), true, false, false, 0, 0).unwrap();
    assert!(plan.read_only && plan.remote_read_only && plan.staging_dir);
    assert_eq!(access_mode(&options(), true), "read-only");
}

#[test]
fn overlays_write_locally() {
    let mut o = options();
    o.overlay = true;
    let plan = plan_mount(&o, true, false, false, 0, 0).unwrap();
    assert!(!plan.read_only && plan.remote_read_only && plan.advanced_writes);
    assert_eq!(access_mode(&o, true), "overlay: remote read-only, local writes enabled");
    o.read_only = true;
    assert!(plan_mount(&o, false, false, false, 0, 0).unwrap_err().starts_with("--overlay with"));
}

#[test]
fn nfs_and_encryption_stage_writes() {
    let plan = plan_mount(&options(), false, true, false, 0, 0).unwrap();
    assert!(plan.advanced_writes && !plan.config.direct_io);
    assert_eq!(plan.config.inode_soft_limit, 0);
    assert!(!plan_mount(&options(), true, true, false, 0, 0).unwrap().advanced_writes);
    assert!(plan_mount(&options(), true, false, true, 0, 0).unwrap().advanced_writes);
    assert_eq!(backend_name(true), "nfs");
    assert_eq!(backend_name(false), "fuse");
}

#[test]
fn disk_caches_exclude_each_other() {
    let mut o = options();
    o.cache_mode = CacheMode::File;
    let plan = plan_mount(&o, false, false, false, 0, 0).unwrap();
    assert!(plan.file_cache && !plan.chunk_cache);
    o.no_disk_cache = true;
    let plan = plan_mount(&o, false, false, false, 0, 0).unwrap();
    assert!(!plan.file_cache && !plan.chunk_cache);
}

#[test]
fn owners_can_be_overridden() {
    let mut o = options();
    o.uid = Some(7);
    o.gid = Some(8);
    let plan = plan_mount(&o, false, false, false, 1000, 1001).unwrap();
    assert_eq!((plan.config.uid, plan.config.gid), (7, 8));
}

#[test]
fn algorithms_of_options() {
    assert_eq!(select_algorithm("aegis-128x2"), Ok(2));
    assert_eq!(
        select_algorithm("rot13"),
        Err("unsupported --encryption-algorithm 'rot13' (supported: aegis-128x2)".to_string())
    );
}

#[test]
fn descriptor_limits() {
    assert_eq!(raised_fd_limit(1024, 4096), Some(4096));
    assert_eq!(raised_fd_limit(1024, 1 << 20), Some(TARGET_NOFILE));
    assert_eq!(raised_fd_limit(TARGET_NOFILE, 1 << 20), None);
}
