//! How the table mirrors the remote: what a poll round or a batch of pushed
//! changes makes of a file or directory, in terms of the table before it, the
//! listing and the changes alone.

use vstd::prelude::*;

use crate::hub_api::client::EntryView;
use crate::hub_api::http;
use crate::time::Span;
use crate::virtual_fs::follow;
use crate::virtual_fs::follow::{ChangeView, FollowOp};
use crate::virtual_fs::inode;
use crate::virtual_fs::inode::{InodeKind, InodeView, SnapshotView, ROOT_INODE};
use crate::virtual_fs::negative;
use crate::virtual_fs::poll;
use crate::virtual_fs::poll::InvalKind;
use crate::virtual_fs::poll_laws;

verus! {

/// Whether entry `k` is the last one of a listing for a file at `path`.
pub open spec fn listed_last(entries: Seq<EntryView>, k: int, path: Seq<char>) -> bool {
    &&& 0 <= k < entries.len()
    &&& entries[k].entry_type == "file"@
    &&& entries[k].path == path
    &&& forall|j: int|
        k < j < entries.len() ==> (#[trigger] entries[j]).entry_type != "file"@ || entries[j].path
            != path
}

/// Whether a listing shows no file at `path`.
pub open spec fn not_listed(entries: Seq<EntryView>, path: Seq<char>) -> bool {
    forall|j: int|
        0 <= j < entries.len() ==> (#[trigger] entries[j]).entry_type != "file"@ || entries[j].path
            != path
}

proof fn lemma_listed_last(entries: Seq<EntryView>, k: int, path: Seq<char>)
    requires
        listed_last(entries, k, path),
    ensures
        poll::remote_file(entries, path) == Some(entries[k]),
    decreases entries.len(),
{
    let last = entries.len() - 1;
    if k < last {
        let rest = entries.drop_last();
        assert(entries[last] == entries.last());
        assert(rest[k] == entries[k]);
        assert forall|j: int| k < j < rest.len() implies (#[trigger] rest[j]).entry_type != "file"@
            || rest[j].path != path by {
            assert(rest[j] == entries[j]);
        }
        lemma_listed_last(rest, k, path);
    }
}

proof fn lemma_not_listed(entries: Seq<EntryView>, path: Seq<char>)
    requires
        not_listed(entries, path),
    ensures
        poll::remote_file(entries, path) is None,
    decreases entries.len(),
{
    if entries.len() > 0 {
        let rest = entries.drop_last();
        assert(entries[entries.len() - 1] == entries.last());
        assert forall|j: int| 0 <= j < rest.len() implies (#[trigger] rest[j]).entry_type != "file"@
            || rest[j].path != path by {
            assert(rest[j] == entries[j]);
        }
        lemma_not_listed(rest, path);
    }
}

/// The table once the files that a round knows were updated or dropped.
pub open spec fn reconciled_table(
    t: Map<u64, InodeView>,
    shots: Seq<SnapshotView>,
    entries: Seq<EntryView>,
    polled: Seq<Seq<char>>,
    now: Span,
) -> Map<u64, InodeView> {
    poll::after_removals(
        poll::after_updates(t, poll::planned_updates(shots, entries, now)),
        poll::planned_deletions(shots, entries, polled),
    )
}

/// The table after a round.
pub open spec fn polled_table(
    t: Map<u64, InodeView>,
    shots: Seq<SnapshotView>,
    entries: Seq<EntryView>,
    polled: Seq<Seq<char>>,
    now: Span,
) -> Map<u64, InodeView> {
    poll::table_after_diff(
        t,
        poll::planned_updates(shots, entries, now),
        poll::planned_deletions(shots, entries, polled),
        entries,
    )
}

/// What the kernel is told in a round.
pub open spec fn polled_invals(
    t: Map<u64, InodeView>,
    shots: Seq<SnapshotView>,
    entries: Seq<EntryView>,
    polled: Seq<Seq<char>>,
    now: Span,
) -> Seq<(u64, InvalKind)> {
    poll::invals_of_diff(
        t,
        poll::planned_updates(shots, entries, now),
        poll::planned_deletions(shots, entries, polled),
        entries,
    )
}

/// The negative cache after a round.
pub open spec fn polled_cache(
    t: Map<u64, InodeView>,
    shots: Seq<SnapshotView>,
    entries: Seq<EntryView>,
    polled: Seq<Seq<char>>,
    now: Span,
    cache: Seq<(Seq<char>, Span)>,
) -> Seq<(Seq<char>, Span)> {
    poll::cache_after_diff(
        t,
        poll::planned_updates(shots, entries, now),
        poll::planned_deletions(shots, entries, polled),
        entries,
        cache,
    )
}

/// Directories keep all but their listing while known files are updated or
/// dropped, and nothing becomes known.
proof fn lemma_reconciled_table(
    t: Map<u64, InodeView>,
    shots: Seq<SnapshotView>,
    entries: Seq<EntryView>,
    polled: Seq<Seq<char>>,
    now: Span,
)
    requires
        inode::table_wf(t),
        inode::shows_files(t, shots),
    ensures
        ({
            let r = reconciled_table(t, shots, entries, polled, now);
            &&& inode::table_wf(r)
            &&& poll_laws::keeps_tree(t, r)
            &&& forall|ino: u64, p: Seq<char>|
                inode::visible(r, ino, p) ==> #[trigger] inode::visible(t, ino, p)
            &&& forall|ino: u64| #[trigger]
                t.dom().contains(ino) && t[ino].kind == InodeKind::Directory ==> r.dom().contains(
                    ino,
                ) && r[ino] == t[ino]
        }),
{
    let us = poll::planned_updates(shots, entries, now);
    let ds = poll::planned_deletions(shots, entries, polled);
    let updated = poll::after_updates(t, us);
    let r = poll::after_removals(updated, ds);
    poll_laws::lemma_updates_keep_tree(t, us);
    poll_laws::lemma_removals_keep_tree(updated, ds);
    assert forall|ino: u64| #[trigger]
        t.dom().contains(ino) && t[ino].kind == InodeKind::Directory implies r.dom().contains(ino)
        && r[ino] == t[ino] by {
        assert forall|i: int| 0 <= i < shots.len() implies (#[trigger] shots[i]).inode != ino
            || shots[i].dirty by {
            assert(inode::is_linked_file(t, shots[i].inode));
        }
        poll_laws::lemma_planned_inodes(shots, entries, now, ino);
        poll_laws::lemma_updates_other(t, us, ino);
        if ds.contains(ino) {
            poll_laws::lemma_planned_deletion(shots, entries, polled, ino);
            let i = choose|i: int|
                0 <= i < shots.len() && (#[trigger] shots[i]).inode == ino && poll::is_gone(
                    shots[i],
                    entries,
                    polled,
                );
            assert(inode::is_linked_file(t, shots[i].inode));
        }
        poll_laws::lemma_removals_other(updated, ds, ino);
    }
    assert forall|ino: u64, p: Seq<char>| inode::visible(r, ino, p) implies #[trigger] inode::visible(
        t,
        ino,
        p,
    ) by {
        assert(updated.dom().contains(ino));
        assert(t.dom().contains(ino));
        poll_laws::lemma_updates_keep_names(t, us, ino);
        lemma_removals_keep_names(updated, ds, ino);
    }
    assert(inode::visible(t, ROOT_INODE, Seq::empty()));
    assert(inode::visible(r, ROOT_INODE, Seq::empty()));
    assert forall|a: u64, b: u64, p: Seq<char>|
        #[trigger] inode::visible(r, a, p) && #[trigger] inode::visible(r, b, p) implies a == b by {
        assert(inode::visible(t, a, p) && inode::visible(t, b, p));
    }
    assert forall|ino: u64| #[trigger] inode::lies_in_directory(r, ino) by {
        assert(inode::lies_in_directory(t, ino));
        if r.dom().contains(ino) && r.dom().contains(r[ino].parent) {
            assert(t.dom().contains(ino));
            assert(t.dom().contains(t[ino].parent));
        }
    }
}

/// What dropping files leaves has kept its path, and gained no name.
proof fn lemma_removals_keep_names(t: Map<u64, InodeView>, inos: Seq<u64>, ino: u64)
    requires
        poll::after_removals(t, inos).dom().contains(ino),
    ensures
        t.dom().contains(ino),
        poll::after_removals(t, inos)[ino].path == t[ino].path,
        poll::after_removals(t, inos)[ino].nlink > 0 ==> t[ino].nlink > 0,
    decreases inos.len(),
{
    if inos.len() > 0 {
        lemma_removals_keep_names(t, inos.drop_last(), ino);
    }
}

/// A file is no directory whose listing is dropped.
proof fn lemma_files_are_not_stale(t: Map<u64, InodeView>, entries: Seq<EntryView>, ino: u64)
    requires
        inode::table_wf(t),
        t.dom().contains(ino),
        t[ino].kind == InodeKind::File,
    ensures
        !poll::stale_dirs(t, entries).contains(ino),
    decreases entries.len(),
{
    if entries.len() > 0 {
        let rest = poll::stale_dirs(t, entries.drop_last());
        let all = poll::stale_dirs(t, entries);
        lemma_files_are_not_stale(t, entries.drop_last(), ino);
        poll_laws::lemma_nearest_dir_is_one(t, entries.last().path);
        if all.contains(ino) {
            let k = choose|k: int| 0 <= k < all.len() && all[k] == ino;
            if k < rest.len() {
                assert(rest[k] == ino);
            }
        }
    }
}

proof fn lemma_invalidation_of_others(t: Map<u64, InodeView>, dirs: Seq<u64>, ino: u64)
    requires
        !dirs.contains(ino),
        t.dom().contains(ino),
    ensures
        poll::after_invalidation(t, dirs).dom().contains(ino),
        poll::after_invalidation(t, dirs)[ino] == t[ino],
    decreases dirs.len(),
{
    if dirs.len() > 0 {
        let rest = dirs.drop_last();
        if rest.contains(ino) {
            let k = choose|k: int| 0 <= k < rest.len() && rest[k] == ino;
            assert(dirs[k] == ino);
        }
        assert(dirs[dirs.len() - 1] == dirs.last());
        lemma_invalidation_of_others(t, rest, ino);
    }
}

/// What a round makes of a file that the listing shows, going by the last entry for
/// it.
proof fn lemma_updated_file(
    t: Map<u64, InodeView>,
    shots: Seq<SnapshotView>,
    entries: Seq<EntryView>,
    polled: Seq<Seq<char>>,
    now: Span,
    ino: u64,
    k: int,
)
    requires
        inode::table_wf(t),
        inode::shows_files(t, shots),
        inode::is_linked_file(t, ino),
        !t[ino].dirty,
        listed_last(entries, k, t[ino].path),
    ensures
        ({
            let after = polled_table(t, shots, entries, polled, now);
            let s = inode::snapshot_of(ino, t[ino]);
            let u = poll::update_for(s, entries[k], now);
            &&& after.dom().contains(ino)
            &&& poll::has_changed(s, entries[k]) ==> after[ino] == poll::after_update(t, u)[ino]
                && polled_invals(t, shots, entries, polled, now).contains(
                (ino, poll::inval_kind(t, ino)),
            )
            &&& !poll::has_changed(s, entries[k]) ==> after[ino] == t[ino]
        }),
{
    let us = poll::planned_updates(shots, entries, now);
    let ds = poll::planned_deletions(shots, entries, polled);
    let updated = poll::after_updates(t, us);
    let r = poll::after_removals(updated, ds);
    let i = choose|i: int| 0 <= i < shots.len() && (#[trigger] shots[i]).inode == ino;
    assert(shots[i] == inode::snapshot_of(ino, t[ino]));
    lemma_listed_last(entries, k, t[ino].path);
    poll_laws::lemma_updates_of_shots(t, shots, entries, now, i);
    poll_laws::lemma_updates_keep_names(t, us, ino);
    if ds.contains(ino) {
        poll_laws::lemma_planned_deletion(shots, entries, polled, ino);
        let j = choose|j: int|
            0 <= j < shots.len() && (#[trigger] shots[j]).inode == ino && poll::is_gone(
                shots[j],
                entries,
                polled,
            );
        assert(shots[j] == inode::snapshot_of(ino, t[ino]));
        assert(false);
    }
    poll_laws::lemma_removals_other(updated, ds, ino);
    lemma_reconciled_table(t, shots, entries, polled, now);
    lemma_files_are_not_stale(r, entries, ino);
    lemma_invalidation_of_others(r, poll::stale_dirs(r, entries), ino);
    if poll::has_changed(shots[i], entries[k]) {
        lemma_update_is_planned(shots, entries, now, i);
        let u = poll::planned_update(shots[i], entries, now)->0;
        let m = choose|m: int| 0 <= m < us.len() && us[m] == u;
        assert(poll::updates_invals(t, us)[m] == (ino, poll::inval_kind(t, ino)));
        assert(polled_invals(t, shots, entries, polled, now)[m] == (ino, poll::inval_kind(t, ino)));
    }
}

proof fn lemma_update_is_planned(
    shots: Seq<SnapshotView>,
    entries: Seq<EntryView>,
    now: Span,
    i: int,
)
    requires
        0 <= i < shots.len(),
        poll::planned_update(shots[i], entries, now) is Some,
    ensures
        poll::planned_updates(shots, entries, now).contains(
            poll::planned_update(shots[i], entries, now)->0,
        ),
    decreases shots.len(),
{
    let rest = shots.drop_last();
    let before = poll::planned_updates(rest, entries, now);
    let all = poll::planned_updates(shots, entries, now);
    let u = poll::planned_update(shots[i], entries, now)->0;
    if i < rest.len() {
        assert(rest[i] == shots[i]);
        lemma_update_is_planned(rest, entries, now, i);
        let k = choose|k: int| 0 <= k < before.len() && before[k] == u;
        assert(all[k] == u);
    } else {
        assert(all[before.len() as int] == u);
    }
}

/// New content shows up whatever its size: a file without unflushed writes that
/// the listing shows with another content hash, or, where neither side has one,
/// with another tag, has the listed hash and tag after the round.
pub proof fn law_changed_content_is_taken_over(
    t: Map<u64, InodeView>,
    shots: Seq<SnapshotView>,
    entries: Seq<EntryView>,
    polled: Seq<Seq<char>>,
    now: Span,
    ino: u64,
    k: int,
)
    requires
        inode::table_wf(t),
        inode::shows_files(t, shots),
        t.dom().contains(ino),
        t[ino].nlink > 0,
        t[ino].kind == InodeKind::File,
        !t[ino].dirty,
        listed_last(entries, k, t[ino].path),
        t[ino].xet_hash is Some || entries[k].xet_hash is Some ==> entries[k].xet_hash
            != t[ino].xet_hash,
        t[ino].xet_hash is None && entries[k].xet_hash is None ==> entries[k].oid != t[ino].etag,
    ensures
        ({
            let after = polled_table(t, shots, entries, polled, now);
            &&& after.dom().contains(ino)
            &&& after[ino].xet_hash == entries[k].xet_hash
            &&& after[ino].etag == entries[k].oid
        }),
{
    lemma_updated_file(t, shots, entries, polled, now, ino, k);
}

/// A file without unflushed writes that the listing shows with another content or
/// another size of the object is taken over field by field, and announced to the
/// kernel: without its pages where handles are open, else with them. The listed
/// size is that of the container where the file is encrypted; the user's size then
/// stays until the container's header is read.
pub proof fn law_changed_files_are_taken_over(
    t: Map<u64, InodeView>,
    shots: Seq<SnapshotView>,
    entries: Seq<EntryView>,
    polled: Seq<Seq<char>>,
    now: Span,
    ino: u64,
    k: int,
)
    requires
        inode::table_wf(t),
        inode::shows_files(t, shots),
        t.dom().contains(ino),
        t[ino].nlink > 0,
        t[ino].kind == InodeKind::File,
        !t[ino].dirty,
        listed_last(entries, k, t[ino].path),
        ({
            let listed_size = if entries[k].size is Some {
                entries[k].size->0
            } else {
                0
            };
            ||| entries[k].xet_hash != t[ino].xet_hash
            ||| t[ino].xet_hash is None && entries[k].oid != t[ino].etag
            ||| t[ino].cipher_size is Some && t[ino].cipher_size != Some(listed_size)
            ||| t[ino].cipher_size is None && t[ino].size != listed_size
        }),
    ensures
        ({
            let after = polled_table(t, shots, entries, polled, now);
            let listed_size = if entries[k].size is Some {
                entries[k].size->0
            } else {
                0
            };
            &&& after.dom().contains(ino)
            &&& after[ino].xet_hash == entries[k].xet_hash
            &&& after[ino].etag == entries[k].oid
            &&& t[ino].cipher_size is None ==> after[ino].size == listed_size
                && after[ino].cipher_size is None && !after[ino].needs_size_probe
            &&& t[ino].cipher_size is Some ==> after[ino].size == t[ino].size
                && after[ino].cipher_size == Some(listed_size) && after[ino].needs_size_probe
            &&& entries[k].mtime is None ==> after[ino].mtime == now
            &&& entries[k].mtime is Some ==> after[ino].mtime.nanos == 0 && match http::rfc3339_seconds(
                entries[k].mtime->0,
            ) {
                Some(s) => after[ino].mtime.secs == if s >= 0 {
                    s as int
                } else {
                    0
                },
                None => after[ino].mtime.secs == 0,
            }
            &&& after[ino].parent == t[ino].parent
            &&& after[ino].name == t[ino].name
            &&& after[ino].path == t[ino].path
            &&& after[ino].kind == InodeKind::File
            &&& after[ino].nlink == t[ino].nlink
            &&& after[ino].open_handles == t[ino].open_handles
            &&& !after[ino].dirty
            &&& polled_invals(t, shots, entries, polled, now).contains(
                (
                    ino,
                    if t[ino].open_handles > 0 {
                        InvalKind::AttrOnly
                    } else {
                        InvalKind::Pages
                    },
                ),
            )
        }),
{
    lemma_updated_file(t, shots, entries, polled, now, ino, k);
}

/// A file that the listing shows with the same content and the same size of the
/// object stays exactly as it is: whatever else the entry says, and whether or not
/// its header is still to be read.
pub proof fn law_unchanged_files_are_left(
    t: Map<u64, InodeView>,
    shots: Seq<SnapshotView>,
    entries: Seq<EntryView>,
    polled: Seq<Seq<char>>,
    now: Span,
    ino: u64,
    k: int,
)
    requires
        inode::table_wf(t),
        inode::shows_files(t, shots),
        t.dom().contains(ino),
        t[ino].nlink > 0,
        t[ino].kind == InodeKind::File,
        listed_last(entries, k, t[ino].path),
        entries[k].xet_hash == t[ino].xet_hash,
        t[ino].xet_hash is None ==> entries[k].oid == t[ino].etag,
        ({
            let listed_size = if entries[k].size is Some {
                entries[k].size->0
            } else {
                0
            };
            if t[ino].cipher_size is Some {
                t[ino].cipher_size == Some(listed_size)
            } else {
                t[ino].size == listed_size
            }
        }),
    ensures
        polled_table(t, shots, entries, polled, now).dom().contains(ino),
        polled_table(t, shots, entries, polled, now)[ino] == t[ino],
{
    if !t[ino].dirty {
        lemma_updated_file(t, shots, entries, polled, now, ino, k);
    } else {
        let us = poll::planned_updates(shots, entries, now);
        let ds = poll::planned_deletions(shots, entries, polled);
        let updated = poll::after_updates(t, us);
        let r = poll::after_removals(updated, ds);
        poll_laws::lemma_updates_other(t, us, ino);
        poll_laws::lemma_removals_other(updated, ds, ino);
        lemma_reconciled_table(t, shots, entries, polled, now);
        lemma_files_are_not_stale(r, entries, ino);
        lemma_invalidation_of_others(r, poll::stale_dirs(r, entries), ino);
    }
}

/// A file that the listing shows stays under its name, whatever directories were
/// listed.
pub proof fn law_listed_files_stay(
    t: Map<u64, InodeView>,
    shots: Seq<SnapshotView>,
    entries: Seq<EntryView>,
    polled: Seq<Seq<char>>,
    now: Span,
    ino: u64,
    k: int,
)
    requires
        inode::table_wf(t),
        inode::shows_files(t, shots),
        t.dom().contains(ino),
        t[ino].nlink > 0,
        t[ino].kind == InodeKind::File,
        !t[ino].dirty,
        listed_last(entries, k, t[ino].path),
    ensures
        polled_table(t, shots, entries, polled, now).dom().contains(ino),
        polled_table(t, shots, entries, polled, now)[ino].nlink == t[ino].nlink,
        polled_table(t, shots, entries, polled, now)[ino].path == t[ino].path,
{
    lemma_updated_file(t, shots, entries, polled, now, ino, k);
}

proof fn lemma_removals_announced(t: Map<u64, InodeView>, inos: Seq<u64>, ino: u64)
    requires
        inos.contains(ino),
        t.dom().contains(ino),
        !t[ino].dirty,
    ensures
        poll::removals_invals(t, inos).contains((t[ino].parent, InvalKind::Pages)),
        poll::removals_invals(t, inos).contains((ino, poll::inval_kind(t, ino))),
    decreases inos.len(),
{
    let rest = inos.drop_last();
    let before = poll::removals_invals(t, rest);
    let all = poll::removals_invals(t, inos);
    let k = choose|k: int| 0 <= k < inos.len() && inos[k] == ino;
    if rest.contains(ino) {
        lemma_removals_announced(t, rest, ino);
        let a = choose|a: int|
            0 <= a < before.len() && before[a] == (t[ino].parent, InvalKind::Pages);
        let b = choose|b: int|
            0 <= b < before.len() && before[b] == (ino, poll::inval_kind(t, ino));
        assert(all[a] == before[a] && all[b] == before[b]);
    } else {
        if k < rest.len() {
            assert(rest[k] == ino);
        }
        poll_laws::lemma_removals_other(t, rest, ino);
        let n = before.len() as int;
        assert(all[n] == (t[ino].parent, InvalKind::Pages));
        assert(all[n + 1] == (ino, poll::inval_kind(t, ino)));
    }
}

/// A file that is gone disappears: where the directory that it lies in was listed
/// and the listing shows no file there, no path leads to it after the round, and
/// both the directory and the file are announced. Nothing is left of it, unless
/// handles are open, which keep it as it is but for its name.
pub proof fn law_gone_files_disappear(
    t: Map<u64, InodeView>,
    shots: Seq<SnapshotView>,
    entries: Seq<EntryView>,
    polled: Seq<Seq<char>>,
    now: Span,
    ino: u64,
)
    requires
        inode::table_wf(t),
        inode::shows_files(t, shots),
        t.dom().contains(ino),
        t[ino].nlink > 0,
        t[ino].kind == InodeKind::File,
        !t[ino].dirty,
        not_listed(entries, t[ino].path),
        polled.contains(inode::parent_path(t[ino].path)),
    ensures
        ({
            let after = polled_table(t, shots, entries, polled, now);
            let said = polled_invals(t, shots, entries, polled, now);
            &&& t[ino].open_handles == 0 ==> !after.dom().contains(ino) && said.contains(
                (ino, InvalKind::Pages),
            )
            &&& t[ino].open_handles > 0 ==> {
                &&& after.dom().contains(ino)
                &&& after[ino].nlink == 0
                &&& after[ino].xet_hash == t[ino].xet_hash
                &&& after[ino].etag == t[ino].etag
                &&& after[ino].size == t[ino].size
                &&& after[ino].cipher_size == t[ino].cipher_size
                &&& after[ino].open_handles == t[ino].open_handles
                &&& said.contains((ino, InvalKind::AttrOnly))
            }
            &&& said.contains((t[ino].parent, InvalKind::Pages))
        }),
{
    let us = poll::planned_updates(shots, entries, now);
    let ds = poll::planned_deletions(shots, entries, polled);
    let updated = poll::after_updates(t, us);
    let r = poll::after_removals(updated, ds);
    let dirs = poll::stale_dirs(r, entries);
    assert(inode::is_linked_file(t, ino));
    let i = choose|i: int| 0 <= i < shots.len() && (#[trigger] shots[i]).inode == ino;
    assert(shots[i] == inode::snapshot_of(ino, t[ino]));
    lemma_not_listed(entries, t[ino].path);
    poll_laws::lemma_updates_of_shots(t, shots, entries, now, i);
    poll_laws::lemma_updates_keep_names(t, us, ino);
    poll_laws::lemma_gone_is_planned(shots, entries, polled, i);
    poll_laws::lemma_removals_of(updated, ds, ino);
    lemma_removals_announced(updated, ds, ino);
    if r.dom().contains(ino) {
        poll_laws::lemma_invalidation_keeps(r, dirs, ino);
    } else {
        poll_laws::lemma_invalidation_adds_nothing(r, dirs, ino);
    }
    let first = poll::updates_invals(t, us);
    let second = poll::removals_invals(updated, ds);
    let all = polled_invals(t, shots, entries, polled, now);
    let a = choose|a: int| 0 <= a < second.len() && second[a] == (t[ino].parent, InvalKind::Pages);
    let b = choose|b: int|
        0 <= b < second.len() && second[b] == (ino, poll::inval_kind(updated, ino));
    assert(all[first.len() + a] == second[a] && all[first.len() + b] == second[b]);
}

proof fn lemma_parent_is_nearest(t: Map<u64, InodeView>, path: Seq<char>, dir: u64)
    requires
        inode::table_wf(t),
        inode::inode_at(t, inode::parent_path(path)) == Some(dir),
        t[dir].kind == InodeKind::Directory,
    ensures
        inode::nearest_dir(t, path) == dir,
        t.dom().contains(dir),
{
    inode::law_path_leads_to_its_inode(t, inode::parent_path(path), dir);
    if inode::last_slash(path) < 0 {
        inode::law_path_leads_to_its_inode(t, Seq::empty(), ROOT_INODE);
    }
}

/// Something new in a listed directory shows up: where an entry of the listing has
/// a path that leads nowhere once known files are updated or dropped, and the
/// directory that the path lies in has been listed, then that directory is no
/// longer taken for listed, the kernel is told so, and the path is not known to be
/// missing any more.
pub proof fn law_new_entries_drop_their_directory(
    t: Map<u64, InodeView>,
    shots: Seq<SnapshotView>,
    entries: Seq<EntryView>,
    polled: Seq<Seq<char>>,
    now: Span,
    cache: Seq<(Seq<char>, Span)>,
    k: int,
    dir: u64,
)
    requires
        inode::table_wf(t),
        inode::shows_files(t, shots),
        0 <= k < entries.len(),
        ({
            let r = reconciled_table(t, shots, entries, polled, now);
            &&& inode::inode_at(r, entries[k].path) is None
            &&& inode::inode_at(r, inode::parent_path(entries[k].path)) == Some(dir)
            &&& r[dir].kind == InodeKind::Directory
            &&& r[dir].children_loaded
        }),
    ensures
        ({
            let after = polled_table(t, shots, entries, polled, now);
            &&& after.dom().contains(dir)
            &&& !after[dir].children_loaded
            &&& polled_invals(t, shots, entries, polled, now).contains((dir, InvalKind::Pages))
            &&& negative::missing_since(
                polled_cache(t, shots, entries, polled, now, cache),
                entries[k].path,
            ) is None
        }),
{
    let r = reconciled_table(t, shots, entries, polled, now);
    lemma_reconciled_table(t, shots, entries, polled, now);
    lemma_parent_is_nearest(r, entries[k].path, dir);
    lemma_nearest_is_dropped(t, shots, entries, polled, now, cache, k);
}

proof fn lemma_nearest_is_dropped(
    t: Map<u64, InodeView>,
    shots: Seq<SnapshotView>,
    entries: Seq<EntryView>,
    polled: Seq<Seq<char>>,
    now: Span,
    cache: Seq<(Seq<char>, Span)>,
    k: int,
)
    requires
        inode::table_wf(t),
        inode::shows_files(t, shots),
        0 <= k < entries.len(),
        ({
            let r = reconciled_table(t, shots, entries, polled, now);
            let dir = inode::nearest_dir(r, entries[k].path);
            &&& inode::inode_at(r, entries[k].path) is None
            &&& r.dom().contains(dir)
            &&& r[dir].children_loaded
        }),
    ensures
        ({
            let r = reconciled_table(t, shots, entries, polled, now);
            let dir = inode::nearest_dir(r, entries[k].path);
            let after = polled_table(t, shots, entries, polled, now);
            &&& after.dom().contains(dir)
            &&& !after[dir].children_loaded
            &&& polled_invals(t, shots, entries, polled, now).contains((dir, InvalKind::Pages))
            &&& negative::missing_since(
                polled_cache(t, shots, entries, polled, now, cache),
                entries[k].path,
            ) is None
        }),
{
    let us = poll::planned_updates(shots, entries, now);
    let ds = poll::planned_deletions(shots, entries, polled);
    let updated = poll::after_updates(t, us);
    let r = reconciled_table(t, shots, entries, polled, now);
    let dir = inode::nearest_dir(r, entries[k].path);
    let dirs = poll::stale_dirs(r, entries);
    lemma_reconciled_table(t, shots, entries, polled, now);
    assert(poll::stale_dir(r, entries[k].path) == Some(dir));
    poll_laws::lemma_stale_dir_is_listed(r, entries, k);
    let m = choose|m: int| 0 <= m < dirs.len() && dirs[m] == dir;
    poll_laws::lemma_invalidated(r, dirs, m);
    poll_laws::lemma_invalidation_keeps(r, dirs, dir);
    poll_laws::lemma_nearest_dir_holds(r, entries[k].path);
    poll_laws::lemma_forgotten(r, dirs, cache, m, entries[k].path);
    let said = polled_invals(t, shots, entries, polled, now);
    let n = poll::updates_invals(t, us).len() + poll::removals_invals(updated, ds).len();
    assert(poll::dirs_invals(dirs)[m] == (dir, InvalKind::Pages));
    assert(said[n + m] == (dir, InvalKind::Pages));
}

/// The same going by the table before the round: an entry of any type at a path
/// that leads nowhere, in a directory that has been listed, or below it where none
/// of the directories in between is known.
pub proof fn law_unknown_entries_drop_the_nearest_directory(
    t: Map<u64, InodeView>,
    shots: Seq<SnapshotView>,
    entries: Seq<EntryView>,
    polled: Seq<Seq<char>>,
    now: Span,
    cache: Seq<(Seq<char>, Span)>,
    k: int,
    dir: u64,
)
    requires
        inode::table_wf(t),
        inode::shows_files(t, shots),
        0 <= k < entries.len(),
        forall|ino: u64| #[trigger]
            t.dom().contains(ino) && t[ino].nlink > 0 ==> t[ino].path != entries[k].path,
        t.dom().contains(dir),
        t[dir].nlink > 0,
        t[dir].kind == InodeKind::Directory,
        t[dir].children_loaded,
        t[dir].path.len() == 0 || t[dir].path.push('/').is_prefix_of(entries[k].path),
        forall|ino: u64| #[trigger]
            t.dom().contains(ino) && t[ino].nlink > 0 && t[ino].kind == InodeKind::Directory
                && t[ino].path.push('/').is_prefix_of(entries[k].path) ==> t[ino].path.len()
                <= t[dir].path.len(),
    ensures
        ({
            let after = polled_table(t, shots, entries, polled, now);
            &&& after.dom().contains(dir)
            &&& !after[dir].children_loaded
            &&& polled_invals(t, shots, entries, polled, now).contains((dir, InvalKind::Pages))
            &&& negative::missing_since(
                polled_cache(t, shots, entries, polled, now, cache),
                entries[k].path,
            ) is None
        }),
{
    let r = reconciled_table(t, shots, entries, polled, now);
    let path = entries[k].path;
    let near = inode::nearest_dir(r, path);
    lemma_reconciled_table(t, shots, entries, polled, now);
    if inode::inode_at(r, path) is Some {
        let ino = inode::inode_at(r, path)->0;
        inode::law_path_leads_to_its_inode(r, path, ino);
        assert(inode::visible(r, ino, path));
        assert(inode::visible(t, ino, path));
    }
    inode::law_nearest_dir_is_nearest(r, path, dir);
    assert(inode::visible(r, near, r[near].path));
    assert(inode::visible(t, near, r[near].path));
    assert(t.dom().contains(near) && t[near].kind == InodeKind::Directory);
    if t[dir].path.len() == 0 && t[near].path.len() == 0 {
        assert(t[dir].path =~= t[near].path);
    } else if t[near].path.len() == t[dir].path.len() {
        assert(t[dir].path =~= t[near].path) by {
            assert forall|i: int| 0 <= i < t[dir].path.len() implies t[dir].path[i]
                == t[near].path[i] by {
                assert(t[dir].path.push('/')[i] == path[i]);
                assert(t[near].path.push('/')[i] == path[i]);
            }
        }
    }
    assert(inode::visible(t, near, t[near].path) && inode::visible(t, dir, t[dir].path));
    lemma_nearest_is_dropped(t, shots, entries, polled, now, cache, k);
}

proof fn lemma_stale_for_a_reason(t: Map<u64, InodeView>, entries: Seq<EntryView>, dir: u64)
    requires
        poll::stale_dirs(t, entries).contains(dir),
    ensures
        exists|k: int|
            0 <= k < entries.len() && inode::inode_at(t, (#[trigger] entries[k]).path) is None
                && inode::nearest_dir(t, entries[k].path) == dir,
    decreases entries.len(),
{
    if entries.len() > 0 {
        let earlier = entries.drop_last();
        let rest = poll::stale_dirs(t, earlier);
        let all = poll::stale_dirs(t, entries);
        let i = choose|i: int| 0 <= i < all.len() && all[i] == dir;
        if i < rest.len() {
            assert(rest[i] == dir);
            lemma_stale_for_a_reason(t, earlier, dir);
            let k = choose|k: int|
                0 <= k < earlier.len() && inode::inode_at(t, (#[trigger] earlier[k]).path) is None
                    && inode::nearest_dir(t, earlier[k].path) == dir;
            assert(entries[k] == earlier[k]);
        } else {
            assert(entries[entries.len() - 1] == entries.last());
        }
    }
}

/// A directory is taken for listed no longer only because of something new below
/// it: without an entry below it at a path that leads nowhere, it stays as it is.
pub proof fn law_listings_are_dropped_for_new_entries_only(
    t: Map<u64, InodeView>,
    shots: Seq<SnapshotView>,
    entries: Seq<EntryView>,
    polled: Seq<Seq<char>>,
    now: Span,
    dir: u64,
)
    requires
        inode::table_wf(t),
        inode::shows_files(t, shots),
        t.dom().contains(dir),
        t[dir].kind == InodeKind::Directory,
        forall|k: int|
            0 <= k < entries.len() ==> inode::inode_at(
                reconciled_table(t, shots, entries, polled, now),
                (#[trigger] entries[k]).path,
            ) is Some || !negative::lies_in(t[dir].path, entries[k].path),
    ensures
        polled_table(t, shots, entries, polled, now).dom().contains(dir),
        polled_table(t, shots, entries, polled, now)[dir] == t[dir],
{
    let r = reconciled_table(t, shots, entries, polled, now);
    let dirs = poll::stale_dirs(r, entries);
    lemma_reconciled_table(t, shots, entries, polled, now);
    if dirs.contains(dir) {
        lemma_stale_for_a_reason(r, entries, dir);
        let k = choose|k: int|
            0 <= k < entries.len() && inode::inode_at(r, (#[trigger] entries[k]).path) is None
                && inode::nearest_dir(r, entries[k].path) == dir;
        poll_laws::lemma_nearest_dir_holds(r, entries[k].path);
        assert(false);
    }
    lemma_invalidation_of_others(r, dirs, dir);
}

proof fn lemma_cache_keeps(
    t: Map<u64, InodeView>,
    dirs: Seq<u64>,
    cache: Seq<(Seq<char>, Span)>,
    key: Seq<char>,
)
    requires
        forall|i: int|
            0 <= i < dirs.len() ==> !negative::lies_in(t[#[trigger] dirs[i]].path, key),
    ensures
        negative::missing_since(poll::cache_after(t, dirs, cache), key) == negative::missing_since(
            cache,
            key,
        ),
    decreases dirs.len(),
{
    if dirs.len() > 0 {
        let rest = dirs.drop_last();
        assert forall|i: int| 0 <= i < rest.len() implies !negative::lies_in(
            t[#[trigger] rest[i]].path,
            key,
        ) by {
            assert(rest[i] == dirs[i]);
        }
        lemma_cache_keeps(t, rest, cache, key);
        assert(dirs[dirs.len() - 1] == dirs.last());
        negative::law_retained_paths(
            |p: Seq<char>| !negative::lies_in(t[dirs.last()].path, p),
            poll::cache_after(t, rest, cache),
            key,
        );
    }
}

/// What is known to be missing stays known, unless the directory that an entry at
/// a new path is found in holds it.
pub proof fn law_missing_paths_stay_missing(
    t: Map<u64, InodeView>,
    shots: Seq<SnapshotView>,
    entries: Seq<EntryView>,
    polled: Seq<Seq<char>>,
    now: Span,
    cache: Seq<(Seq<char>, Span)>,
    key: Seq<char>,
)
    requires
        inode::table_wf(t),
        inode::shows_files(t, shots),
        forall|k: int|
            0 <= k < entries.len() ==> ({
                let r = reconciled_table(t, shots, entries, polled, now);
                inode::inode_at(r, (#[trigger] entries[k]).path) is Some || !negative::lies_in(
                    r[inode::nearest_dir(r, entries[k].path)].path,
                    key,
                )
            }),
    ensures
        negative::missing_since(polled_cache(t, shots, entries, polled, now, cache), key)
            == negative::missing_since(cache, key),
{
    let r = reconciled_table(t, shots, entries, polled, now);
    let dirs = poll::stale_dirs(r, entries);
    assert forall|i: int| 0 <= i < dirs.len() implies !negative::lies_in(
        r[#[trigger] dirs[i]].path,
        key,
    ) by {
        assert(dirs.contains(dirs[i]));
        lemma_stale_for_a_reason(r, entries, dirs[i]);
    }
    lemma_cache_keeps(r, dirs, cache, key);
}

/// The table after a batch of changes.
pub open spec fn followed_table(
    t: Map<u64, InodeView>,
    changes: Seq<ChangeView>,
) -> Map<u64, InodeView> {
    poll::after_invalidation(
        follow::after_changes(t, changes),
        follow::changes_stale_dirs(t, changes),
    )
}

/// What the kernel is told of a batch of changes.
pub open spec fn followed_invals(
    t: Map<u64, InodeView>,
    changes: Seq<ChangeView>,
) -> Seq<(u64, InvalKind)> {
    follow::changes_invals(t, changes) + poll::dirs_invals(follow::changes_stale_dirs(t, changes))
}

proof fn lemma_changed_file(t: Map<u64, InodeView>, c: ChangeView, ino: u64)
    requires
        inode::table_wf(t),
    ensures
        follow::changed_file(t, c) == Some(ino) <==> t.dom().contains(ino) && t[ino].nlink > 0
            && t[ino].path == c.path && t[ino].kind == InodeKind::File,
{
    inode::law_path_leads_to_its_inode(t, c.path, ino);
}

/// Changes make nothing known, and leave directories as they are until their
/// listings are dropped.
proof fn lemma_changed_table(t: Map<u64, InodeView>, changes: Seq<ChangeView>)
    requires
        inode::table_wf(t),
    ensures
        ({
            let r = follow::after_changes(t, changes);
            &&& inode::table_wf(r)
            &&& poll_laws::keeps_tree(t, r)
            &&& forall|ino: u64, p: Seq<char>|
                inode::visible(r, ino, p) ==> #[trigger] inode::visible(t, ino, p)
            &&& forall|ino: u64| #[trigger]
                t.dom().contains(ino) && t[ino].kind == InodeKind::Directory ==> r.dom().contains(
                    ino,
                ) && r[ino] == t[ino]
        }),
    decreases changes.len(),
{
    poll_laws::lemma_changes_keep_tree(t, changes);
    if changes.len() > 0 {
        let rest = changes.drop_last();
        let c = changes.last();
        let before = follow::after_changes(t, rest);
        let r = follow::after_changes(t, changes);
        lemma_changed_table(t, rest);
        if follow::changed_file(before, c) is Some {
            lemma_changed_file(before, c, follow::changed_file(before, c)->0);
        }
        assert forall|ino: u64, p: Seq<char>|
            inode::visible(r, ino, p) implies #[trigger] inode::visible(t, ino, p) by {
            assert(inode::visible(before, ino, p));
        }
        assert forall|ino: u64| #[trigger]
            t.dom().contains(ino) && t[ino].kind == InodeKind::Directory implies r.dom().contains(
            ino,
        ) && r[ino] == t[ino] by {
            assert(before.dom().contains(ino) && before[ino] == t[ino]);
        }
        assert(inode::visible(t, ROOT_INODE, Seq::empty()));
        assert(inode::visible(r, ROOT_INODE, Seq::empty()));
        assert forall|a: u64, b: u64, p: Seq<char>|
            #[trigger] inode::visible(r, a, p) && #[trigger] inode::visible(r, b, p) implies a
            == b by {
            assert(inode::visible(t, a, p) && inode::visible(t, b, p));
        }
        assert forall|ino: u64| #[trigger] inode::lies_in_directory(r, ino) by {
            assert(inode::lies_in_directory(t, ino));
            if r.dom().contains(ino) && r.dom().contains(r[ino].parent) {
                assert(t.dom().contains(ino));
                assert(t.dom().contains(t[ino].parent));
            }
        }
    }
}

proof fn lemma_changes_elsewhere(t: Map<u64, InodeView>, changes: Seq<ChangeView>, ino: u64)
    requires
        inode::table_wf(t),
        t.dom().contains(ino),
        forall|j: int| 0 <= j < changes.len() ==> (#[trigger] changes[j]).path != t[ino].path,
    ensures
        follow::after_changes(t, changes).dom().contains(ino),
        follow::after_changes(t, changes)[ino] == t[ino],
    decreases changes.len(),
{
    if changes.len() > 0 {
        let rest = changes.drop_last();
        assert forall|j: int| 0 <= j < rest.len() implies (#[trigger] rest[j]).path
            != t[ino].path by {
            assert(rest[j] == changes[j]);
        }
        lemma_changes_elsewhere(t, rest, ino);
        lemma_changed_table(t, rest);
        assert(changes[changes.len() - 1] == changes.last());
        lemma_changed_file(follow::after_changes(t, rest), changes.last(), ino);
    }
}

/// What a batch makes of a file that one of its changes is about.
proof fn lemma_changed_once(t: Map<u64, InodeView>, changes: Seq<ChangeView>, i: int, ino: u64)
    requires
        inode::table_wf(t),
        inode::is_linked_file(t, ino),
        !t[ino].dirty,
        0 <= i < changes.len(),
        changes[i].path == t[ino].path,
        forall|j: int|
            0 <= j < changes.len() && j != i ==> (#[trigger] changes[j]).path != t[ino].path,
    ensures
        ({
            let r = follow::after_changes(t, changes);
            let said = follow::changes_invals(t, changes);
            let kind = poll::inval_kind(t, ino);
            if changes[i].op == FollowOp::Delete {
                &&& r.dom().contains(ino) == poll::after_removal(t, ino).dom().contains(ino)
                &&& r.dom().contains(ino) ==> r[ino] == poll::after_removal(t, ino)[ino]
                &&& said.contains((t[ino].parent, InvalKind::Pages))
                &&& said.contains((ino, kind))
            } else {
                &&& r.dom().contains(ino)
                &&& r[ino] == inode::merged(
                    t[ino],
                    changes[i].xet_hash,
                    changes[i].size,
                    follow::change_mtime(changes[i]),
                )
                &&& said.contains((ino, kind))
            }
        }),
    decreases changes.len(),
{
    let rest = changes.drop_last();
    let last = changes.len() - 1;
    let before = follow::after_changes(t, rest);
    let earlier = follow::changes_invals(t, rest);
    let said = follow::changes_invals(t, changes);
    let kind = poll::inval_kind(t, ino);
    assert(changes[last] == changes.last());
    lemma_changed_table(t, rest);
    lemma_changed_file(before, changes.last(), ino);
    if i == last {
        assert forall|j: int| 0 <= j < rest.len() implies (#[trigger] rest[j]).path
            != t[ino].path by {
            assert(rest[j] == changes[j]);
        }
        lemma_changes_elsewhere(t, rest, ino);
        let n = earlier.len() as int;
        if changes[i].op == FollowOp::Delete {
            assert(said[n] == (t[ino].parent, InvalKind::Pages));
            assert(said[n + 1] == (ino, kind));
        } else {
            assert(said[n] == (ino, kind));
        }
    } else {
        assert(rest[i] == changes[i]);
        assert forall|j: int| 0 <= j < rest.len() && j != i implies (#[trigger] rest[j]).path
            != t[ino].path by {
            assert(rest[j] == changes[j]);
        }
        lemma_changed_once(t, rest, i, ino);
        let b = choose|b: int| 0 <= b < earlier.len() && earlier[b] == (ino, kind);
        assert(said[b] == earlier[b]);
        if changes[i].op == FollowOp::Delete {
            let a = choose|a: int|
                0 <= a < earlier.len() && earlier[a] == (t[ino].parent, InvalKind::Pages);
            assert(said[a] == earlier[a]);
        }
        assert(changes[last].path != t[ino].path);
        assert(before.dom().contains(ino) ==> before[ino].path == t[ino].path);
        if follow::changed_file(before, changes.last()) is Some {
            lemma_changed_file(
                before,
                changes.last(),
                follow::changed_file(before, changes.last())->0,
            );
        }
    }
}

/// The stale directories of a batch are directories.
proof fn lemma_files_are_not_stale_after(
    t: Map<u64, InodeView>,
    changes: Seq<ChangeView>,
    ino: u64,
)
    requires
        inode::table_wf(t),
        t.dom().contains(ino),
        t[ino].kind == InodeKind::File,
    ensures
        !follow::changes_stale_dirs(t, changes).contains(ino),
    decreases changes.len(),
{
    if changes.len() > 0 {
        let earlier = changes.drop_last();
        let before = follow::after_changes(t, earlier);
        let rest = follow::changes_stale_dirs(t, earlier);
        let all = follow::changes_stale_dirs(t, changes);
        lemma_files_are_not_stale_after(t, earlier, ino);
        lemma_changed_table(t, earlier);
        poll_laws::lemma_nearest_dir_is_one(before, changes.last().path);
        if all.contains(ino) {
            let k = choose|k: int| 0 <= k < all.len() && all[k] == ino;
            if k < rest.len() {
                assert(rest[k] == ino);
            }
        }
    }
}

proof fn lemma_followed_file(t: Map<u64, InodeView>, changes: Seq<ChangeView>, ino: u64)
    requires
        inode::table_wf(t),
        t.dom().contains(ino),
        t[ino].kind == InodeKind::File,
    ensures
        followed_table(t, changes).dom().contains(ino) == follow::after_changes(
            t,
            changes,
        ).dom().contains(ino),
        follow::after_changes(t, changes).dom().contains(ino) ==> followed_table(t, changes)[ino]
            == follow::after_changes(t, changes)[ino],
{
    let r = follow::after_changes(t, changes);
    let dirs = follow::changes_stale_dirs(t, changes);
    lemma_files_are_not_stale_after(t, changes, ino);
    if r.dom().contains(ino) {
        lemma_invalidation_of_others(r, dirs, ino);
    } else {
        poll_laws::lemma_invalidation_adds_nothing(r, dirs, ino);
    }
}

proof fn lemma_said_in_batch(
    t: Map<u64, InodeView>,
    changes: Seq<ChangeView>,
    said: (u64, InvalKind),
)
    requires
        follow::changes_invals(t, changes).contains(said),
    ensures
        followed_invals(t, changes).contains(said),
{
    let first = follow::changes_invals(t, changes);
    let k = choose|k: int| 0 <= k < first.len() && first[k] == said;
    assert(followed_invals(t, changes)[k] == said);
}

/// Each field that a change gives is taken over by itself: a pushed hash becomes
/// the hash of a known file without unflushed writes, whether or not the change
/// gives a size or a time, and so do a size and a time.
pub proof fn law_pushed_fields_are_taken_over(
    t: Map<u64, InodeView>,
    changes: Seq<ChangeView>,
    i: int,
    ino: u64,
)
    requires
        inode::table_wf(t),
        t.dom().contains(ino),
        t[ino].nlink > 0,
        t[ino].kind == InodeKind::File,
        !t[ino].dirty,
        0 <= i < changes.len(),
        changes[i].path == t[ino].path,
        changes[i].op != FollowOp::Delete,
        forall|j: int|
            0 <= j < changes.len() && j != i ==> (#[trigger] changes[j]).path != t[ino].path,
    ensures
        ({
            let after = followed_table(t, changes);
            &&& after.dom().contains(ino)
            &&& changes[i].xet_hash is Some ==> after[ino].xet_hash == changes[i].xet_hash
            &&& changes[i].size is Some && t[ino].cipher_size is None ==> Some(after[ino].size)
                == changes[i].size
            &&& changes[i].size is Some && t[ino].cipher_size is Some ==> after[ino].cipher_size
                == changes[i].size
            &&& t[ino].cipher_size is Some && (changes[i].xet_hash is Some || changes[i].size
                is Some) ==> after[ino].needs_size_probe
            &&& changes[i].mtime is Some ==> after[ino].mtime == http::mtime_of(
                http::rfc3339_seconds(changes[i].mtime->0),
            )
            &&& changes[i].mtime is None && changes[i].uploaded_at is Some ==> after[ino].mtime
                == http::mtime_of(http::rfc3339_seconds(changes[i].uploaded_at->0))
        }),
{
    lemma_changed_once(t, changes, i, ino);
    lemma_followed_file(t, changes, ino);
}

/// What a change does not give stays: each field by itself, and all that no change
/// can give.
pub proof fn law_other_fields_stay(
    t: Map<u64, InodeView>,
    changes: Seq<ChangeView>,
    i: int,
    ino: u64,
)
    requires
        inode::table_wf(t),
        t.dom().contains(ino),
        t[ino].nlink > 0,
        t[ino].kind == InodeKind::File,
        !t[ino].dirty,
        0 <= i < changes.len(),
        changes[i].path == t[ino].path,
        changes[i].op != FollowOp::Delete,
        forall|j: int|
            0 <= j < changes.len() && j != i ==> (#[trigger] changes[j]).path != t[ino].path,
    ensures
        ({
            let after = followed_table(t, changes);
            &&& after.dom().contains(ino)
            &&& changes[i].xet_hash is None ==> after[ino].xet_hash == t[ino].xet_hash
            &&& changes[i].size is None || t[ino].cipher_size is Some ==> after[ino].size
                == t[ino].size
            &&& changes[i].size is None || t[ino].cipher_size is None ==> after[ino].cipher_size
                == t[ino].cipher_size
            &&& t[ino].needs_size_probe ==> after[ino].needs_size_probe
            &&& t[ino].cipher_size is None || (changes[i].xet_hash is None && changes[i].size
                is None) ==> after[ino].needs_size_probe == t[ino].needs_size_probe
            &&& changes[i].mtime is None && changes[i].uploaded_at is None ==> after[ino].mtime
                == t[ino].mtime
            &&& after[ino].etag == t[ino].etag
            &&& after[ino].parent == t[ino].parent
            &&& after[ino].name == t[ino].name
            &&& after[ino].path == t[ino].path
            &&& after[ino].kind == InodeKind::File
            &&& !after[ino].dirty
            &&& after[ino].nlink == t[ino].nlink
            &&& after[ino].open_handles == t[ino].open_handles
        }),
{
    lemma_changed_once(t, changes, i, ino);
    lemma_followed_file(t, changes, ino);
}

/// A change to a known file without unflushed writes is announced: without its
/// pages where handles are open, else with them. A deletion is announced for the
/// directory too.
pub proof fn law_pushed_changes_are_announced(
    t: Map<u64, InodeView>,
    changes: Seq<ChangeView>,
    i: int,
    ino: u64,
)
    requires
        inode::table_wf(t),
        t.dom().contains(ino),
        t[ino].nlink > 0,
        t[ino].kind == InodeKind::File,
        !t[ino].dirty,
        0 <= i < changes.len(),
        changes[i].path == t[ino].path,
        forall|j: int|
            0 <= j < changes.len() && j != i ==> (#[trigger] changes[j]).path != t[ino].path,
    ensures
        t[ino].open_handles > 0 ==> followed_invals(t, changes).contains(
            (ino, InvalKind::AttrOnly),
        ),
        t[ino].open_handles == 0 ==> followed_invals(t, changes).contains((ino, InvalKind::Pages)),
        changes[i].op == FollowOp::Delete ==> followed_invals(t, changes).contains(
            (t[ino].parent, InvalKind::Pages),
        ),
{
    lemma_changed_once(t, changes, i, ino);
    lemma_said_in_batch(t, changes, (ino, poll::inval_kind(t, ino)));
    if changes[i].op == FollowOp::Delete {
        lemma_said_in_batch(t, changes, (t[ino].parent, InvalKind::Pages));
    }
}

/// A pushed deletion of a known file without unflushed writes takes it away: no
/// path leads to it any more, and nothing is left of it unless handles are open.
pub proof fn law_pushed_deletions_take_files_away(
    t: Map<u64, InodeView>,
    changes: Seq<ChangeView>,
    i: int,
    ino: u64,
)
    requires
        inode::table_wf(t),
        t.dom().contains(ino),
        t[ino].nlink > 0,
        t[ino].kind == InodeKind::File,
        !t[ino].dirty,
        0 <= i < changes.len(),
        changes[i].path == t[ino].path,
        changes[i].op == FollowOp::Delete,
        forall|j: int|
            0 <= j < changes.len() && j != i ==> (#[trigger] changes[j]).path != t[ino].path,
    ensures
        ({
            let after = followed_table(t, changes);
            &&& t[ino].open_handles == 0 ==> !after.dom().contains(ino)
            &&& t[ino].open_handles > 0 ==> {
                &&& after.dom().contains(ino)
                &&& after[ino].nlink == 0
                &&& after[ino].xet_hash == t[ino].xet_hash
                &&& after[ino].size == t[ino].size
                &&& after[ino].cipher_size == t[ino].cipher_size
                &&& after[ino].open_handles == t[ino].open_handles
            }
        }),
{
    lemma_changed_once(t, changes, i, ino);
    lemma_followed_file(t, changes, ino);
}

/// A batch leaves every file alone that none of its changes is about.
pub proof fn law_batches_leave_other_files(
    t: Map<u64, InodeView>,
    changes: Seq<ChangeView>,
    ino: u64,
)
    requires
        inode::table_wf(t),
        t.dom().contains(ino),
        t[ino].kind == InodeKind::File,
        forall|j: int| 0 <= j < changes.len() ==> (#[trigger] changes[j]).path != t[ino].path,
    ensures
        followed_table(t, changes).dom().contains(ino),
        followed_table(t, changes)[ino] == t[ino],
{
    lemma_changes_elsewhere(t, changes, ino);
    lemma_followed_file(t, changes, ino);
}

proof fn lemma_change_makes_stale(
    t: Map<u64, InodeView>,
    changes: Seq<ChangeView>,
    i: int,
    dir: u64,
)
    requires
        inode::table_wf(t),
        0 <= i < changes.len(),
        follow::change_stale_dir(follow::after_changes(t, changes.take(i)), changes[i]) == Some(
            dir,
        ),
    ensures
        follow::changes_stale_dirs(t, changes).contains(dir),
    decreases changes.len(),
{
    let earlier = changes.drop_last();
    let rest = follow::changes_stale_dirs(t, earlier);
    let all = follow::changes_stale_dirs(t, changes);
    if i < earlier.len() {
        assert(earlier.take(i) =~= changes.take(i));
        assert(earlier[i] == changes[i]);
        lemma_change_makes_stale(t, earlier, i, dir);
        let k = choose|k: int| 0 <= k < rest.len() && rest[k] == dir;
        assert(all[k] == dir);
    } else {
        assert(changes.take(i) =~= earlier);
        if !rest.contains(dir) {
            assert(all[rest.len() as int] == dir);
        }
    }
}

/// A change to a path at which no file is known shows up: the directory that the
/// path lies in, or the nearest known one above it, is no longer taken for listed
/// if it was, and the kernel is told so.
pub proof fn law_pushed_unknown_paths_drop_the_nearest_directory(
    t: Map<u64, InodeView>,
    changes: Seq<ChangeView>,
    i: int,
    dir: u64,
)
    requires
        inode::table_wf(t),
        0 <= i < changes.len(),
        forall|ino: u64| #[trigger]
            t.dom().contains(ino) && t[ino].nlink > 0 && t[ino].path == changes[i].path
                ==> t[ino].kind != InodeKind::File,
        t.dom().contains(dir),
        t[dir].nlink > 0,
        t[dir].kind == InodeKind::Directory,
        t[dir].children_loaded,
        t[dir].path.len() == 0 || t[dir].path.push('/').is_prefix_of(changes[i].path),
        forall|ino: u64| #[trigger]
            t.dom().contains(ino) && t[ino].nlink > 0 && t[ino].kind == InodeKind::Directory
                && t[ino].path.push('/').is_prefix_of(changes[i].path) ==> t[ino].path.len()
                <= t[dir].path.len(),
    ensures
        followed_table(t, changes).dom().contains(dir),
        !followed_table(t, changes)[dir].children_loaded,
        followed_invals(t, changes).contains((dir, InvalKind::Pages)),
{
    let path = changes[i].path;
    let r = follow::after_changes(t, changes.take(i));
    let near = inode::nearest_dir(r, path);
    lemma_changed_table(t, changes.take(i));
    if follow::changed_file(r, changes[i]) is Some {
        let ino = follow::changed_file(r, changes[i])->0;
        lemma_changed_file(r, changes[i], ino);
        assert(inode::visible(r, ino, path));
        assert(inode::visible(t, ino, path));
        assert(t.dom().contains(ino));
        assert(false);
    }
    inode::law_nearest_dir_is_nearest(r, path, dir);
    assert(inode::visible(r, near, r[near].path));
    assert(inode::visible(t, near, r[near].path));
    assert(t.dom().contains(near) && t[near].kind == InodeKind::Directory);
    if t[dir].path.len() == 0 && t[near].path.len() == 0 {
        assert(t[dir].path =~= t[near].path);
    } else if t[near].path.len() == t[dir].path.len() {
        assert(t[dir].path =~= t[near].path) by {
            assert forall|j: int| 0 <= j < t[dir].path.len() implies t[dir].path[j]
                == t[near].path[j] by {
                assert(t[dir].path.push('/')[j] == path[j]);
                assert(t[near].path.push('/')[j] == path[j]);
            }
        }
    }
    assert(inode::visible(t, near, t[near].path) && inode::visible(t, dir, t[dir].path));
    lemma_change_makes_stale(t, changes, i, dir);
    let end = follow::after_changes(t, changes);
    let dirs = follow::changes_stale_dirs(t, changes);
    lemma_changed_table(t, changes);
    let m = choose|m: int| 0 <= m < dirs.len() && dirs[m] == dir;
    poll_laws::lemma_invalidated(end, dirs, m);
    poll_laws::lemma_invalidation_keeps(end, dirs, dir);
    assert(poll::dirs_invals(dirs)[m] == (dir, InvalKind::Pages));
    assert(followed_invals(t, changes)[follow::changes_invals(t, changes).len() + m] == (
        dir,
        InvalKind::Pages,
    ));
}

/// A batch drops the listing of a directory only for a change below it.
pub proof fn law_batches_leave_other_directories(
    t: Map<u64, InodeView>,
    changes: Seq<ChangeView>,
    dir: u64,
)
    requires
        inode::table_wf(t),
        t.dom().contains(dir),
        t[dir].kind == InodeKind::Directory,
        forall|j: int|
            0 <= j < changes.len() ==> !negative::lies_in(
                t[dir].path,
                (#[trigger] changes[j]).path,
            ),
    ensures
        followed_table(t, changes).dom().contains(dir),
        followed_table(t, changes)[dir] == t[dir],
{
    lemma_changed_table(t, changes);
    lemma_stale_below(t, changes, dir);
    lemma_invalidation_of_others(
        follow::after_changes(t, changes),
        follow::changes_stale_dirs(t, changes),
        dir,
    );
}

proof fn lemma_stale_below(t: Map<u64, InodeView>, changes: Seq<ChangeView>, dir: u64)
    requires
        inode::table_wf(t),
        t.dom().contains(dir),
        t[dir].kind == InodeKind::Directory,
        forall|j: int|
            0 <= j < changes.len() ==> !negative::lies_in(
                t[dir].path,
                (#[trigger] changes[j]).path,
            ),
    ensures
        !follow::changes_stale_dirs(t, changes).contains(dir),
    decreases changes.len(),
{
    if changes.len() > 0 {
        let earlier = changes.drop_last();
        let before = follow::after_changes(t, earlier);
        let rest = follow::changes_stale_dirs(t, earlier);
        let all = follow::changes_stale_dirs(t, changes);
        assert forall|j: int| 0 <= j < earlier.len() implies !negative::lies_in(
            t[dir].path,
            (#[trigger] earlier[j]).path,
        ) by {
            assert(earlier[j] == changes[j]);
        }
        lemma_stale_below(t, earlier, dir);
        lemma_changed_table(t, earlier);
        poll_laws::lemma_nearest_dir_holds(before, changes.last().path);
        assert(changes[changes.len() - 1] == changes.last());
        if all.contains(dir) {
            let k = choose|k: int| 0 <= k < all.len() && all[k] == dir;
            if k < rest.len() {
                assert(rest[k] == dir);
            }
        }
    }
}

/// What a batch adds or updates is not known to be missing afterwards, nor is a
/// directory that its path goes through; everything else that is known to be
/// missing stays so. Deletions bring nothing back.
pub proof fn law_batches_forget_what_they_bring(
    changes: Seq<ChangeView>,
    cache: Seq<(Seq<char>, Span)>,
    key: Seq<char>,
)
    ensures
        ({
            let after = follow::cache_after_changes(changes, cache);
            let brought = exists|j: int|
                0 <= j < changes.len() && (#[trigger] changes[j]).op != FollowOp::Delete && (key
                    == changes[j].path || key.push('/').is_prefix_of(changes[j].path));
            negative::missing_since(after, key) == if brought {
                None
            } else {
                negative::missing_since(cache, key)
            }
        }),
    decreases changes.len(),
{
    if changes.len() > 0 {
        let rest = changes.drop_last();
        let c = changes.last();
        law_batches_forget_what_they_bring(rest, cache, key);
        assert(changes[changes.len() - 1] == c);
        assert forall|j: int| 0 <= j < rest.len() implies rest[j] == changes[j] by {}
        if exists|j: int|
            0 <= j < rest.len() && (#[trigger] rest[j]).op != FollowOp::Delete && (key
                == rest[j].path || key.push('/').is_prefix_of(rest[j].path)) {
            let j = choose|j: int|
                0 <= j < rest.len() && (#[trigger] rest[j]).op != FollowOp::Delete && (key
                    == rest[j].path || key.push('/').is_prefix_of(rest[j].path));
            assert(changes[j] == rest[j]);
        }
        if exists|j: int|
            0 <= j < changes.len() && (#[trigger] changes[j]).op != FollowOp::Delete && (key
                == changes[j].path || key.push('/').is_prefix_of(changes[j].path)) {
            let j = choose|j: int|
                0 <= j < changes.len() && (#[trigger] changes[j]).op != FollowOp::Delete && (key
                    == changes[j].path || key.push('/').is_prefix_of(changes[j].path));
            if j < rest.len() {
                assert(changes[j] == rest[j]);
            }
        }
        if c.op != FollowOp::Delete {
            negative::law_way_to_a_path(c.path, key);
            negative::law_retained_paths(
                |k: Seq<char>| !negative::is_on_way(c.path, k),
                follow::cache_after_changes(rest, cache),
                key,
            );
        }
    }
}

/// Changes are carried out one after the other: a batch in two parts does what the
/// first part does and then what the second does, also where both are about the same
/// path.
pub proof fn law_batches_are_carried_out_in_order(
    t: Map<u64, InodeView>,
    first: Seq<ChangeView>,
    second: Seq<ChangeView>,
    cache: Seq<(Seq<char>, Span)>,
)
    ensures
        follow::after_changes(t, first + second) == follow::after_changes(
            follow::after_changes(t, first),
            second,
        ),
        follow::changes_invals(t, first + second) == follow::changes_invals(t, first)
            + follow::changes_invals(follow::after_changes(t, first), second),
        follow::cache_after_changes(first + second, cache) == follow::cache_after_changes(
            second,
            follow::cache_after_changes(first, cache),
        ),
    decreases second.len(),
{
    let all = first + second;
    if second.len() == 0 {
        assert(all =~= first);
        assert(follow::changes_invals(t, first) + Seq::<(u64, InvalKind)>::empty()
            =~= follow::changes_invals(t, first));
    } else {
        let rest = second.drop_last();
        assert(all.drop_last() =~= first + rest);
        assert(all.last() == second.last());
        law_batches_are_carried_out_in_order(t, first, rest, cache);
        let a = follow::changes_invals(t, first);
        let b = follow::changes_invals(follow::after_changes(t, first), rest);
        let c = follow::change_invals(follow::after_changes(t, first + rest), second.last());
        assert((a + b) + c =~= a + (b + c));
    }
}

/// A file that is deleted and added again in one batch is not taken for the one that
/// was there: the deletion takes it away, and the directory is listed again for the
/// new one if it was listed.
pub proof fn law_deleted_and_added_again(
    t: Map<u64, InodeView>,
    deletion: ChangeView,
    addition: ChangeView,
    ino: u64,
    dir: u64,
)
    requires
        inode::table_wf(t),
        t.dom().contains(ino),
        t[ino].nlink > 0,
        t[ino].kind == InodeKind::File,
        !t[ino].dirty,
        deletion.op == FollowOp::Delete,
        addition.op != FollowOp::Delete,
        deletion.path == t[ino].path,
        addition.path == t[ino].path,
        inode::inode_at(t, inode::parent_path(t[ino].path)) == Some(dir),
        t[dir].kind == InodeKind::Directory,
        t[dir].children_loaded,
    ensures
        ({
            let after = followed_table(t, seq![deletion, addition]);
            &&& after.dom().contains(ino) ==> after[ino].nlink == 0
            &&& after.dom().contains(dir)
            &&& !after[dir].children_loaded
            &&& followed_invals(t, seq![deletion, addition]).contains((dir, InvalKind::Pages))
        }),
{
    let changes = seq![deletion, addition];
    let one = seq![deletion];
    let path = t[ino].path;
    let r = follow::after_changes(t, one);
    let end = follow::after_changes(t, changes);
    let dirs = follow::changes_stale_dirs(t, changes);
    assert(changes.drop_last() =~= one);
    assert(changes.take(1) =~= one);
    lemma_changed_once(t, one, 0, ino);
    lemma_changed_table(t, one);
    lemma_changed_table(t, changes);
    if inode::inode_at(r, path) is Some {
        let other = inode::inode_at(r, path)->0;
        inode::law_path_leads_to_its_inode(r, path, other);
        assert(inode::visible(r, other, path));
        assert(inode::visible(t, other, path));
        assert(inode::visible(t, ino, path));
        assert(false);
    }
    assert(end == r);
    inode::law_path_leads_to_its_inode(t, inode::parent_path(path), dir);
    inode::law_path_leads_to_its_inode(r, inode::parent_path(path), dir);
    lemma_parent_is_nearest(r, path, dir);
    lemma_change_makes_stale(t, changes, 1, dir);
    let m = choose|m: int| 0 <= m < dirs.len() && dirs[m] == dir;
    poll_laws::lemma_invalidated(end, dirs, m);
    poll_laws::lemma_invalidation_keeps(end, dirs, dir);
    lemma_followed_file(t, changes, ino);
    assert(poll::dirs_invals(dirs)[m] == (dir, InvalKind::Pages));
    assert(followed_invals(t, changes)[follow::changes_invals(t, changes).len() + m] == (
        dir,
        InvalKind::Pages,
    ));
}

} // verus!
