use hf_mount::error::Error;
use hf_mount::hub_api::TreeEntry;
use hf_mount::time::Span;
use hf_mount::virtual_fs::backoff::Backoff;
use hf_mount::virtual_fs::inode::{
    has_parent, parent_of, InodeEntry, InodeKind, InodeTable, ROOT_INODE,
};
use hf_mount::virtual_fs::negative::NegativeCache;
use hf_mount::virtual_fs::poll::{
    apply_poll_diff, list_contains, plan_poll_diff, queue_file_invalidation, remove_remote_file,
    should_back_off, InvalKind,
};
use hf_mount::virtual_fs::round::{
    apply_probed_sizes, classify_round, Listing, PollLoop, PollStep,
};

const NOW: Span = Span { secs: 1000, nanos: 0 };

/// A remote source of files.
struct Remote(Vec<(String, u64, String)>);

impl Remote {
    fn add_file(&mut self, path: &str, size: u64, hash: &str) {
        self.remove_file(path);
        self.0.push((path.to_string(), size, hash.to_string()));
    }

    fn remove_file(&mut self, path: &str) {
        self.0.retain(|f| f.0 != path);
    }

    /// One level of the tree.
    fn list_tree(&self, prefix: &str) -> Vec<TreeEntry> {
        let mut out: Vec<TreeEntry> = Vec::new();
        for (path, size, hash) in &self.0 {
            let rest = if prefix.is_empty() {
                path.as_str()
            } else {
                match path.strip_prefix(&format!("{prefix}/")) {
                    Some(rest) => rest,
                    None => continue,
                }
            };
            match rest.split_once('/') {
                None => out.push(TreeEntry {
                    path: path.clone(),
                    entry_type: "file".to_string(),
                    size: Some(*size),
                    xet_hash: Some(hash.clone()),
                    oid: None,
                    mtime: None,
                }),
                Some((dir, _)) => {
                    let dir_path = if prefix.is_empty() {
                        dir.to_string()
                    } else {
                        format!("{prefix}/{dir}")
                    };
                    if !out.iter().any(|e| e.path == dir_path) {
                        out.push(TreeEntry {
                            path: dir_path,
                            entry_type: "directory".to_string(),
                            size: None,
                            xet_hash: None,
                            oid: None,
                            mtime: None,
                        });
                    }
                }
            }
        }
        out
    }
}

fn inode(ino: u64, parent: u64, path: &str, kind: InodeKind) -> InodeEntry {
    InodeEntry {
        inode: ino,
        parent,
        name: path.rsplit('/').next().unwrap_or("").to_string(),
        full_path: path.to_string(),
        kind,
        xet_hash: None,
        etag: None,
        size: 0,
        mtime: NOW,
        cipher_size: None,
        needs_size_probe: false,
        dirty: false,
        children_loaded: false,
        nlink: 1,
        open_handles: 0,
    }
}

fn file(ino: u64, parent: u64, path: &str, size: u64, hash: &str) -> InodeEntry {
    InodeEntry {
        size,
        xet_hash: Some(hash.to_string()),
        ..inode(ino, parent, path, InodeKind::File)
    }
}

/// A table whose root has been listed.
fn loaded_table(entries: Vec<InodeEntry>) -> InodeTable {
    let mut table = InodeTable::new(NOW);
    table.mark_children_loaded(ROOT_INODE);
    for e in entries {
        assert!(table.insert(e));
    }
    table
}

/// Lists every loaded directory and applies the difference.
fn poll(remote: &Remote, table: &mut InodeTable) -> Vec<(u64, InvalKind)> {
    let prefixes = table.loaded_dir_prefixes();
    let mut entries = Vec::new();
    for prefix in &prefixes {
        entries.extend(remote.list_tree(prefix));
    }
    apply_poll_diff(&entries, &prefixes, table, &mut NegativeCache::new(), NOW)
}

#[test]
fn inval_kind_offset_len_mapping() {
    // AttrOnly: negative offset → kernel never touches pages.
    let (off, _len) = InvalKind::AttrOnly.offset_len();
    assert!(off < 0, "AttrOnly must use a negative offset, got {}", off);

    // Pages: non-negative offset, full-file length.
    assert_eq!(InvalKind::Pages.offset_len(), (0, -1));
}

/// update_remote_file() skips dirty inodes (local writes not overwritten by poll).
#[test]
fn poll_dirty_files_skipped() {
    let mut dirty = file(2, ROOT_INODE, "dirty.txt", 100, "hash1");
    dirty.dirty = true;
    let mut table = loaded_table(vec![dirty]);
    let updated = table.update_remote_file(2, Some("new_hash".to_string()), None, 999, NOW, None);
    assert!(!updated);
    assert_eq!(table.get(2).unwrap().xet_hash.as_deref(), Some("hash1"));
    // Nor does a whole round touch it.
    let mut remote = Remote(vec![]);
    remote.add_file("dirty.txt", 999, "new_hash");
    assert!(poll(&remote, &mut table).is_empty());
    assert_eq!(table.get(2).unwrap().size, 100);
    remote.remove_file("dirty.txt");
    assert!(poll(&remote, &mut table).is_empty());
    assert!(table.get_by_path("dirty.txt").is_some());
}

/// The revision is asked for once per round, and the tree-listing fan-out is
/// skipped when the value is unchanged. When the revision advances, the listing
/// fires again. When the probe returns a non-401 error, the loop falls back to a
/// full fan-out.
#[test]
fn poll_skips_list_tree_when_revision_unchanged() {
    let mut polling = PollLoop::new(Span::from_millis(10), Some("rev-a".to_string()));
    for _ in 0..5 {
        assert_eq!(polling.on_probe(Ok("rev-a".to_string())), PollStep::Wait);
        assert_eq!(polling.delay(), Span::from_millis(10));
    }
    assert_eq!(polling.on_probe(Ok("rev-b".to_string())), PollStep::List);
    polling.on_round(false);
    assert_eq!(polling.on_probe(Ok("rev-b".to_string())), PollStep::Wait);
    assert_eq!(polling.on_probe(Err(Error::hub("simulated probe failure"))), PollStep::List);
    polling.on_round(false);
    assert_eq!(polling.delay(), Span::from_millis(10));
    // A 401 makes the loop wait longer, and a successful probe ends that.
    assert_eq!(polling.on_probe(Err(Error::hub_status(401, "x"))), PollStep::Wait);
    assert_eq!(polling.delay(), Span::from_millis(20));
    assert_eq!(polling.on_probe(Ok("rev-b".to_string())), PollStep::Wait);
    assert_eq!(polling.delay(), Span::from_millis(10));
}

/// Whatever else a probe fails with, the tree is listed: an overloaded server
/// only makes the next wait longer, until a round succeeds.
#[test]
fn probes_are_no_gate() {
    let mut polling = PollLoop::new(Span::from_millis(10), Some("rev-a".to_string()));
    assert_eq!(polling.on_probe(Err(Error::hub_status(503, "x"))), PollStep::List);
    assert_eq!(polling.delay(), Span::from_millis(20));
    polling.on_round(false);
    assert_eq!(polling.delay(), Span::from_millis(10));
    assert_eq!(polling.on_probe(Err(Error::hub_status(429, "x"))), PollStep::List);
    polling.on_round(false);
    assert_eq!(polling.on_probe(Err(Error::hub_status(404, "x"))), PollStep::List);
    assert_eq!(polling.delay(), Span::from_millis(10));
    // The revision is still the one that was seen last.
    assert_eq!(polling.on_probe(Ok("rev-a".to_string())), PollStep::Wait);
}

#[test]
fn poll_rounds_that_fail_wait_longer() {
    let mut polling = PollLoop::new(Span::from_secs(10), None);
    assert_eq!(polling.on_probe(Ok("r".to_string())), PollStep::List);
    polling.on_round(true);
    polling.on_round(true);
    assert_eq!(polling.delay(), Span::from_secs(40));
    polling.on_round(false);
    assert_eq!(polling.delay(), Span::from_secs(10));
}

/// Poll skips unloaded directories: files under unexplored dirs don't trigger invalidation.
#[test]
fn poll_skips_unloaded_directories() {
    let mut remote = Remote(vec![]);
    remote.add_file("root.txt", 10, "h1");
    remote.add_file("a/deep/file.txt", 20, "h2");
    let mut table = loaded_table(vec![
        file(2, ROOT_INODE, "root.txt", 10, "h1"),
        inode(3, ROOT_INODE, "a", InodeKind::Directory),
    ]);
    assert!(!table.is_children_loaded(3), "dir 'a' should not be loaded yet");
    assert!(table.is_children_loaded(ROOT_INODE), "root should be loaded");
    poll(&remote, &mut table);
    assert!(!table.is_children_loaded(3), "dir 'a' should still be unloaded after poll");
    assert!(
        table.is_children_loaded(ROOT_INODE),
        "root should still be loaded (no new root-level files)"
    );
}

/// Poll detects new files in loaded directories and invalidates them.
#[test]
fn poll_invalidates_loaded_dir_with_new_file() {
    let mut remote = Remote(vec![]);
    remote.add_file("file.txt", 10, "h1");
    let mut table = loaded_table(vec![file(2, ROOT_INODE, "file.txt", 10, "h1")]);
    remote.add_file("new.txt", 50, "h2");
    poll(&remote, &mut table);
    assert!(
        !table.is_children_loaded(ROOT_INODE),
        "root should be invalidated after new file detected"
    );
}

/// Poll detects a remote file update (hash change) in a loaded directory.
#[test]
fn poll_detects_file_update_in_loaded_dir() {
    let mut remote = Remote(vec![]);
    let mut table = loaded_table(vec![file(2, ROOT_INODE, "data.txt", 10, "old_hash")]);
    // Simulate remote update: same path, new hash and size.
    remote.add_file("data.txt", 99, "new_hash");
    poll(&remote, &mut table);
    let entry = table.get(2).unwrap();
    assert_eq!(entry.size, 99, "poll should update size");
    assert_eq!(entry.xet_hash.as_deref(), Some("new_hash"), "poll should update hash");
}

/// Poll calls the invalidator with the changed inode.
#[test]
fn poll_calls_invalidator_for_updated_file() {
    let mut remote = Remote(vec![]);
    let mut table = loaded_table(vec![file(2, ROOT_INODE, "data.txt", 10, "old_hash")]);
    remote.add_file("data.txt", 99, "new_hash");
    let calls = poll(&remote, &mut table);
    assert!(
        calls.iter().any(|c| c.0 == 2),
        "invalidator must be called for the updated inode (got {:?})",
        calls,
    );
}

/// Poll detects a remote file deletion in a loaded directory.
#[test]
fn poll_detects_file_deletion_in_loaded_dir() {
    let mut remote = Remote(vec![]);
    remote.add_file("ephemeral.txt", 10, "h1");
    remote.add_file("keeper.txt", 20, "h2");
    let mut table = loaded_table(vec![
        file(2, ROOT_INODE, "ephemeral.txt", 10, "h1"),
        file(3, ROOT_INODE, "keeper.txt", 20, "h2"),
    ]);
    remote.remove_file("ephemeral.txt");
    poll(&remote, &mut table);
    // ephemeral.txt should be gone, keeper.txt should remain.
    assert!(table.get_by_path("ephemeral.txt").is_none());
    assert!(table.get_by_path("keeper.txt").is_some());
}

/// Poll skips deletion of inodes with open file handles.
#[test]
fn poll_skips_deletion_with_open_handles() {
    let remote = Remote(vec![]);
    let mut open = file(2, ROOT_INODE, "open.txt", 10, "h1");
    open.open_handles = 1;
    let mut table = loaded_table(vec![open, file(3, ROOT_INODE, "closed.txt", 20, "h2")]);
    poll(&remote, &mut table);
    // closed.txt should be deleted (no open handles)
    assert!(table.get_by_path("closed.txt").is_none());
    assert!(table.get(3).is_none());
    // open.txt: inode survives as orphan (nlink=0), but path is unlinked
    let entry = table.get(2).expect("orphan inode should survive");
    assert_eq!(entry.nlink, 0, "inode should be orphaned (nlink=0)");
    assert!(
        table.get_by_path("open.txt").is_none(),
        "open.txt should not be visible by name"
    );
    // Another file can take its name.
    assert!(table.insert(file(4, ROOT_INODE, "open.txt", 1, "h3")));
}

/// A remote deletion of a file with open handles must invalidate that inode with
/// `AttrOnly` (never a blocking page drop, which would deadlock against the
/// in-flight read holding the inode's folio lock), while a file with no open
/// handles is invalidated with `Pages`. The unlinked parent directory is always
/// invalidated with `Pages`.
#[test]
fn poll_deletion_uses_attr_only_for_open_handles() {
    let remote = Remote(vec![]);
    let mut open = file(2, ROOT_INODE, "open.txt", 10, "h1");
    open.open_handles = 1;
    let mut table = loaded_table(vec![open, file(3, ROOT_INODE, "closed.txt", 20, "h2")]);
    let recorded = poll(&remote, &mut table);
    assert!(
        recorded.contains(&(2, InvalKind::AttrOnly)),
        "orphaned open inode must be invalidated AttrOnly (got {:?})",
        recorded,
    );
    assert!(
        !recorded.iter().any(|&(ino, k)| ino == 2 && k == InvalKind::Pages),
        "orphaned open inode must never get a blocking Pages drop (got {:?})",
        recorded,
    );
    assert!(
        recorded.contains(&(3, InvalKind::Pages)),
        "deleted inode without handles must be invalidated Pages (got {:?})",
        recorded,
    );
    assert!(
        recorded.contains(&(ROOT_INODE, InvalKind::Pages)),
        "unlinked parent dir must be invalidated Pages (got {:?})",
        recorded,
    );
}

/// A remote *update* of a file with open handles must also use `AttrOnly` — an
/// updated open file deadlocks the same way as a deleted one if a full page
/// invalidation races the in-flight read. A file with no open handle gets
/// `Pages` so its stale cache is dropped.
#[test]
fn poll_update_uses_attr_only_for_open_handles() {
    let mut remote = Remote(vec![]);
    let mut open = file(2, ROOT_INODE, "open.txt", 10, "old_a");
    open.open_handles = 1;
    let mut table = loaded_table(vec![open, file(3, ROOT_INODE, "closed.txt", 10, "old_b")]);
    remote.add_file("open.txt", 99, "new_a");
    remote.add_file("closed.txt", 99, "new_b");
    let recorded = poll(&remote, &mut table);
    assert!(
        recorded.contains(&(2, InvalKind::AttrOnly)),
        "updated open inode must be invalidated AttrOnly (got {:?})",
        recorded,
    );
    assert!(
        recorded.contains(&(3, InvalKind::Pages)),
        "updated inode without handles must be invalidated Pages (got {:?})",
        recorded,
    );
}

/// Poll with multiple loaded directories fetches each independently.
#[test]
fn poll_multiple_loaded_dirs() {
    let mut remote = Remote(vec![]);
    remote.add_file("root.txt", 10, "h1");
    remote.add_file("sub/nested.txt", 20, "h2");
    let mut table = loaded_table(vec![
        file(2, ROOT_INODE, "root.txt", 10, "h1"),
        inode(3, ROOT_INODE, "sub", InodeKind::Directory),
        file(4, 3, "sub/nested.txt", 20, "h2"),
    ]);
    table.mark_children_loaded(3);
    assert!(table.is_children_loaded(ROOT_INODE));
    assert!(table.is_children_loaded(3));
    // Update file in sub, add file in root.
    remote.add_file("sub/nested.txt", 99, "h2_new");
    remote.add_file("new_root.txt", 5, "h3");
    assert!(table.loaded_dir_prefixes().len() >= 2, "should poll at least 2 dirs");
    poll(&remote, &mut table);
    // sub/nested.txt should be updated.
    let entry = table.get(4).unwrap();
    assert_eq!(entry.size, 99);
    assert_eq!(entry.xet_hash.as_deref(), Some("h2_new"));
}

/// Poll with a failed prefix fetch does not spuriously delete files in that dir.
#[test]
fn poll_failed_prefix_no_spurious_deletion() {
    let mut remote = Remote(vec![]);
    remote.add_file("root.txt", 10, "h1");
    remote.add_file("sub/file.txt", 20, "h2");
    let mut table = loaded_table(vec![
        file(2, ROOT_INODE, "root.txt", 10, "h1"),
        inode(3, ROOT_INODE, "sub", InodeKind::Directory),
        file(4, 3, "sub/file.txt", 20, "h2"),
    ]);
    table.mark_children_loaded(3);
    // Simulate poll where "sub" prefix failed (only root succeeded)
    let root_entries = remote.list_tree("");
    let polled = vec!["".to_string()];
    apply_poll_diff(&root_entries, &polled, &mut table, &mut NegativeCache::new(), NOW);
    // sub/file.txt must NOT be deleted (its prefix wasn't polled)
    assert!(table.get_by_path("sub/file.txt").is_some());
}

/// Poll after invalidation does not delete files from invalidated dirs.
#[test]
fn poll_after_invalidation_no_spurious_deletion() {
    let mut remote = Remote(vec![]);
    remote.add_file("a.txt", 10, "h1");
    remote.add_file("b.txt", 20, "h2");
    let mut table = loaded_table(vec![
        file(2, ROOT_INODE, "a.txt", 10, "h1"),
        file(3, ROOT_INODE, "b.txt", 20, "h2"),
    ]);
    // First poll: add a new file → root gets invalidated
    remote.add_file("new.txt", 5, "h3");
    poll(&remote, &mut table);
    // Root is now invalidated (children_loaded=false).
    // Second poll: root is NOT in loaded_dir_prefixes anymore.
    assert!(table.loaded_dir_prefixes().is_empty());
    poll(&remote, &mut table);
    // a.txt and b.txt must still exist (not spuriously deleted)
    assert!(table.get_by_path("a.txt").is_some(), "a.txt must survive invalidation");
    assert!(table.get_by_path("b.txt").is_some(), "b.txt must survive invalidation");
}

/// When a subdirectory is deleted remotely, its files are cleaned up.
/// The parent listing no longer shows the dir, so its prefix is marked
/// as polled (deleted dir) and its files are removed.
#[test]
fn poll_detects_deleted_subdirectory() {
    let mut remote = Remote(vec![]);
    remote.add_file("root.txt", 10, "h1");
    let mut table = loaded_table(vec![
        file(2, ROOT_INODE, "root.txt", 10, "h1"),
        inode(3, ROOT_INODE, "sub", InodeKind::Directory),
        file(4, 3, "sub/child.txt", 20, "h2"),
    ]);
    table.mark_children_loaded(3);
    // Root succeeds, "sub" fails (404 → removed from Hub). The parent listing
    // (root) no longer shows "sub" as a directory.
    let round = classify_round(&vec![
        Listing {
            prefix: "sub".to_string(),
            result: Err(Error::hub_status(404, "gone")),
        },
        Listing {
            prefix: "".to_string(),
            result: Ok(remote.list_tree("")),
        },
    ]);
    assert!(round.complete && !round.saw_backoff_status);
    assert!(list_contains(&round.polled, "") && list_contains(&round.polled, "sub"));
    apply_poll_diff(&round.entries, &round.polled, &mut table, &mut NegativeCache::new(), NOW);
    // sub/child.txt should be deleted
    assert!(
        table.get_by_path("sub/child.txt").is_none(),
        "deleted dir's files must be removed"
    );
}

/// Poll must never write a ciphertext size into the plaintext `size`, must
/// refresh `cipher_size`/hash so reads target the new object, and its post-pass
/// must repair the plaintext size with what the new header says.
#[test]
fn poll_repairs_plaintext_size_after_change() {
    let object_size = 65638;
    let mut secret = file(2, ROOT_INODE, "secret.bin", 1000, "h1");
    secret.cipher_size = Some(object_size);
    let mut table = loaded_table(vec![secret]);
    let mut remote = Remote(vec![]);

    // Unchanged remote (same hash, ciphertext object size): no corruption,
    // and nothing flagged for a re-probe.
    remote.add_file("secret.bin", object_size, "h1");
    poll(&remote, &mut table);
    let e = table.get(2).unwrap();
    assert_eq!(e.size, 1000);
    assert_eq!(e.cipher_size, Some(object_size));
    assert!(!e.needs_size_probe);

    // Remote content changed (new hash, new plaintext spanning two chunks):
    // keeps the old plaintext size, refreshes cipher_size + hash, and flags a
    // re-probe.
    let new_object_size = 131206;
    remote.add_file("secret.bin", new_object_size, "h2");
    poll(&remote, &mut table);
    let e = table.get(2).unwrap();
    assert_eq!(e.size, 1000, "plaintext size must never become the ciphertext size");
    assert_eq!(e.cipher_size, Some(new_object_size));
    assert_eq!(e.xet_hash.as_deref(), Some("h2"));
    assert!(e.needs_size_probe);

    // A failed probe leaves the flag, a successful one repairs the size.
    let pending = table.pending_size_probes();
    assert_eq!(pending, vec![(2, "h2".to_string(), new_object_size)]);
    apply_probed_sizes(&mut table, &vec![(2, None)]);
    assert!(table.get(2).unwrap().needs_size_probe);
    apply_probed_sizes(&mut table, &vec![(2, Some(70_000)), (99, Some(1))]);
    let e = table.get(2).unwrap();
    assert_eq!(e.size, 70_000);
    assert!(!e.needs_size_probe);
    assert!(table.pending_size_probes().is_empty());
}

#[test]
fn deletions_cascade() {
    let failed = |prefix: &str| Listing {
        prefix: prefix.to_string(),
        result: Err(Error::hub_status(404, "gone")),
    };
    let mut remote = Remote(vec![]);
    remote.add_file("kept/file", 1, "h");
    let root = || Listing {
        prefix: "".to_string(),
        result: Ok(remote.list_tree("")),
    };
    let round = classify_round(&vec![failed("a/b/c"), root(), failed("a/b"), failed("a")]);
    assert!(round.complete);
    for p in ["", "a", "a/b", "a/b/c"] {
        assert!(list_contains(&round.polled, p));
    }
    // A directory that is still shown is not gone.
    let round = classify_round(&vec![failed("kept"), root()]);
    assert!(!round.complete && !list_contains(&round.polled, "kept"));
    // Nothing is concluded from a failed parent.
    let round = classify_round(&vec![
        Listing {
            prefix: "".to_string(),
            result: Err(Error::hub_status(503, "busy")),
        },
        failed("a"),
    ]);
    assert!(!round.complete && round.saw_backoff_status && round.polled.is_empty());
}

#[test]
fn unchanged_listings_change_nothing() {
    let mut remote = Remote(vec![]);
    remote.add_file("a", 1, "h");
    let mut table = loaded_table(vec![file(2, ROOT_INODE, "a", 1, "h")]);
    assert!(poll(&remote, &mut table).is_empty());
    assert!(table.is_children_loaded(ROOT_INODE));
    // An update settles a file.
    remote.add_file("a", 2, "h2");
    assert_eq!(poll(&remote, &mut table), vec![(2, InvalKind::Pages)]);
    assert!(poll(&remote, &mut table).is_empty());
}

#[test]
fn differences_are_planned() {
    let table = loaded_table(vec![
        file(2, ROOT_INODE, "a", 1, "h"),
        file(3, ROOT_INODE, "b", 1, "h"),
        file(4, ROOT_INODE, "c", 1, "h"),
    ]);
    let mut remote = Remote(vec![]);
    remote.add_file("a", 1, "h");
    remote.add_file("b", 5, "h2");
    let diff = plan_poll_diff(
        &table.file_snapshot(),
        &remote.list_tree(""),
        &vec!["".to_string()],
        NOW,
    );
    assert_eq!(diff.updates.len(), 1);
    assert_eq!(diff.updates[0].inode, 3);
    assert_eq!(diff.updates[0].size, 5);
    assert_eq!(diff.deletions, vec![4]);
}

#[test]
fn new_files_are_not_missing() {
    let mut remote = Remote(vec![]);
    remote.add_file("new.txt", 1, "h");
    let mut table = loaded_table(vec![]);
    let mut cache = NegativeCache::new();
    cache.insert("new.txt", NOW);
    cache.insert("sub/other", NOW);
    apply_poll_diff(&remote.list_tree(""), &vec!["".to_string()], &mut table, &mut cache, NOW);
    assert_eq!(cache.get("new.txt"), None);
}

#[test]
fn removals_and_updates_are_queued() {
    let mut open = file(2, ROOT_INODE, "open", 1, "h");
    open.open_handles = 2;
    let mut dirty = file(3, ROOT_INODE, "dirty", 1, "h");
    dirty.dirty = true;
    let mut table = loaded_table(vec![open, dirty]);
    let mut queue = Vec::new();
    queue_file_invalidation(&table, 2, &mut queue);
    queue_file_invalidation(&table, 3, &mut queue);
    assert_eq!(queue, vec![(2, InvalKind::AttrOnly), (3, InvalKind::Pages)]);
    assert!(!remove_remote_file(&mut table, 3, &mut queue));
    assert!(!remove_remote_file(&mut table, 77, &mut queue));
    assert_eq!(queue.len(), 2);
    assert!(remove_remote_file(&mut table, 2, &mut queue));
    assert_eq!(queue[2..], [(ROOT_INODE, InvalKind::Pages), (2, InvalKind::AttrOnly)]);
}

#[test]
fn listed_directories_are_named_once() {
    let mut loaded = inode(2, ROOT_INODE, "a", InodeKind::Directory);
    loaded.children_loaded = true;
    let table = loaded_table(vec![loaded, inode(3, ROOT_INODE, "b", InodeKind::Directory)]);
    let mut prefixes = table.loaded_dir_prefixes();
    prefixes.sort();
    assert_eq!(prefixes, ["", "a"]);
}

#[test]
fn nothing_lies_in_a_file() {
    let mut table = loaded_table(vec![file(2, ROOT_INODE, "a", 1, "h")]);
    assert!(!table.insert(file(3, 2, "a/b", 1, "h")));
    assert!(!table.insert(file(3, 3, "b", 1, "h")));
    // A parent that is not there yet can only be a directory.
    assert!(table.insert(file(4, 5, "d/c", 1, "h")));
    assert!(!table.insert(file(5, ROOT_INODE, "d", 1, "h")));
    assert!(table.insert(inode(5, ROOT_INODE, "d", InodeKind::Directory)));
    assert!(table.insert(file(6, 5, "d/e", 1, "h")));
}

/// No announcement of a round asks for the pages of an open file or is about a
/// dirty one, whatever happens around them.
#[test]
fn rounds_spare_open_and_dirty_files() {
    let mut remote = Remote(vec![]);
    remote.add_file("open.txt", 99, "h9");
    remote.add_file("new.txt", 1, "h1");
    let mut open = file(2, ROOT_INODE, "open.txt", 10, "h");
    open.open_handles = 1;
    let mut gone = file(3, ROOT_INODE, "gone.txt", 10, "h");
    gone.open_handles = 1;
    let mut dirty = file(4, ROOT_INODE, "dirty.txt", 10, "h");
    dirty.dirty = true;
    let mut table = loaded_table(vec![open, gone, dirty]);
    let said = poll(&remote, &mut table);
    assert_eq!(
        said,
        vec![
            (2, InvalKind::AttrOnly),
            (ROOT_INODE, InvalKind::Pages),
            (3, InvalKind::AttrOnly),
            (ROOT_INODE, InvalKind::Pages)
        ]
    );
}

#[test]
fn backoff_doubles_up_to_a_limit() {
    let mut b = Backoff::new(Span::from_secs(10));
    assert!(!b.is_backing_off());
    assert_eq!(b.delay(), Span::from_secs(10));
    assert_eq!(b.next(), Span::from_secs(10));
    assert!(b.is_backing_off());
    assert_eq!(b.delay(), Span::from_secs(20));
    for _ in 0..20 {
        b.next();
    }
    assert_eq!(b.delay(), b.max_delay());
    assert_eq!(b.next(), b.max_delay());
    b.reset();
    assert_eq!(b.delay(), Span::from_secs(10));
}

#[test]
fn failures_that_call_for_patience() {
    assert!(should_back_off(&Error::hub_status(401, "x")));
    assert!(should_back_off(&Error::hub_status(503, "x")));
    assert!(should_back_off(&Error::hub_status(429, "x")));
    assert!(!should_back_off(&Error::hub_status(404, "x")));
    assert!(!should_back_off(&Error::hub("x")));
}

#[test]
fn negative_cache_forgets() {
    let mut cache = NegativeCache::new();
    assert!(cache.is_empty());
    cache.insert("a/b/c", NOW);
    cache.insert("a/b", NOW);
    cache.insert("a/x", NOW);
    cache.insert("d", NOW);
    assert_eq!(cache.get("a/b"), Some(NOW));
    cache.forget_path("d");
    assert_eq!(cache.get("d"), None);
    cache.forget_way("a/b/c/d");
    assert_eq!(cache.get("a/b/c"), None);
    assert_eq!(cache.get("a/b"), None);
    assert_eq!(cache.get("a/x"), Some(NOW));
    cache.forget_dir("a");
    assert!(cache.is_empty());
}

#[test]
fn paths_and_parents() {
    assert_eq!(parent_of("a/b/c"), "a/b");
    assert_eq!(parent_of("a"), "");
    assert!(has_parent("a/b"));
    assert!(!has_parent("a"));
    let table = loaded_table(vec![inode(2, ROOT_INODE, "a", InodeKind::Directory)]);
    assert_eq!(table.nearest_dir_ancestor("a/b/c"), (2, "a".to_string()));
    assert_eq!(table.nearest_dir_ancestor("x/y"), (ROOT_INODE, "".to_string()));
}

#[test]
fn inode_numbers_and_names_are_unique() {
    let mut table = loaded_table(vec![file(2, ROOT_INODE, "a", 1, "h")]);
    assert!(!table.insert(file(2, ROOT_INODE, "b", 1, "h")));
    assert!(!table.insert(file(3, ROOT_INODE, "a", 1, "h")));
    table.unlink(2);
    assert!(table.get(2).is_some() && table.get_by_path("a").is_none());
    assert!(table.insert(file(3, ROOT_INODE, "a", 1, "h")));
    table.remove(3);
    assert!(table.get(3).is_none());
    table.remove(ROOT_INODE);
    assert!(table.get(ROOT_INODE).is_some());
}
