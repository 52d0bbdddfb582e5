//! What holds of every poll round and of every batch of pushed changes.

use vstd::prelude::*;

use crate::hub_api::client::EntryView;
use crate::time::Span;
use crate::virtual_fs::follow;
use crate::virtual_fs::follow::{ChangeView, FollowOp};
use crate::virtual_fs::inode;
use crate::virtual_fs::inode::{InodeKind, InodeView, SnapshotView, ROOT_INODE};
use crate::virtual_fs::negative;
use crate::virtual_fs::poll;
use crate::virtual_fs::poll::{InvalKind, UpdateView};

verus! {

/// The same inode, but for whether its children have been listed.
pub open spec fn same_but_listing(a: InodeView, b: InodeView) -> bool {
    a == (InodeView { children_loaded: a.children_loaded, ..b })
}

pub proof fn lemma_updates_other(t: Map<u64, InodeView>, updates: Seq<UpdateView>, ino: u64)
    requires
        t.dom().contains(ino),
        t[ino].dirty || forall|i: int| 0 <= i < updates.len() ==> (#[trigger] updates[i]).inode != ino,
    ensures
        poll::after_updates(t, updates).dom().contains(ino),
        poll::after_updates(t, updates)[ino] == t[ino],
    decreases updates.len(),
{
    if updates.len() > 0 {
        let rest = updates.drop_last();
        assert forall|i: int|
            !t[ino].dirty && 0 <= i < rest.len() implies (#[trigger] rest[i]).inode != ino by {
            assert(rest[i] == updates[i]);
        }
        lemma_updates_other(t, rest, ino);
        assert(!t[ino].dirty ==> updates[updates.len() - 1].inode != ino);
    }
}

pub proof fn lemma_removals_other(t: Map<u64, InodeView>, inos: Seq<u64>, ino: u64)
    requires
        t.dom().contains(ino),
        t[ino].dirty || !inos.contains(ino),
    ensures
        poll::after_removals(t, inos).dom().contains(ino),
        poll::after_removals(t, inos)[ino] == t[ino],
    decreases inos.len(),
{
    if inos.len() > 0 {
        let rest = inos.drop_last();
        if rest.contains(ino) {
            let k = choose|k: int| 0 <= k < rest.len() && rest[k] == ino;
            assert(inos[k] == ino);
        }
        lemma_removals_other(t, rest, ino);
        assert(inos[inos.len() - 1] == inos.last());
    }
}

pub proof fn lemma_invalidation_keeps(t: Map<u64, InodeView>, dirs: Seq<u64>, ino: u64)
    requires
        t.dom().contains(ino),
    ensures
        poll::after_invalidation(t, dirs).dom().contains(ino),
        same_but_listing(poll::after_invalidation(t, dirs)[ino], t[ino]),
    decreases dirs.len(),
{
    if dirs.len() > 0 {
        lemma_invalidation_keeps(t, dirs.drop_last(), ino);
    }
}

/// Local writes win: an inode with writes that are not flushed is not touched by
/// a poll round, whatever the remote says. (If it is a directory, its listing
/// may be dropped.)
pub proof fn law_dirty_inodes_are_untouched(
    t: Map<u64, InodeView>,
    updates: Seq<UpdateView>,
    deletions: Seq<u64>,
    entries: Seq<EntryView>,
    ino: u64,
)
    requires
        t.dom().contains(ino),
        t[ino].dirty,
    ensures
        poll::table_after_diff(t, updates, deletions, entries).dom().contains(ino),
        same_but_listing(poll::table_after_diff(t, updates, deletions, entries)[ino], t[ino]),
{
    let updated = poll::after_updates(t, updates);
    let reconciled = poll::after_removals(updated, deletions);
    lemma_updates_other(t, updates, ino);
    lemma_removals_other(updated, deletions, ino);
    lemma_invalidation_keeps(reconciled, poll::stale_dirs(reconciled, entries), ino);
}

pub proof fn lemma_planned_deletion(
    shots: Seq<SnapshotView>,
    entries: Seq<EntryView>,
    polled: Seq<Seq<char>>,
    ino: u64,
)
    requires
        poll::planned_deletions(shots, entries, polled).contains(ino),
    ensures
        exists|i: int|
            0 <= i < shots.len() && (#[trigger] shots[i]).inode == ino && poll::is_gone(
                shots[i],
                entries,
                polled,
            ),
    decreases shots.len(),
{
    if shots.len() > 0 {
        let rest = shots.drop_last();
        let ds = poll::planned_deletions(shots, entries, polled);
        let before = poll::planned_deletions(rest, entries, polled);
        let last = shots.len() - 1;
        let k = choose|k: int| 0 <= k < ds.len() && ds[k] == ino;
        if k < before.len() {
            assert(before[k] == ino);
            lemma_planned_deletion(rest, entries, polled, ino);
            let i = choose|i: int|
                0 <= i < rest.len() && (#[trigger] rest[i]).inode == ino && poll::is_gone(
                    rest[i],
                    entries,
                    polled,
                );
            assert(shots[i].inode == ino);
        } else {
            assert(shots[last].inode == ino);
        }
    }
}

/// The root is no file, so that no listing shows it to be gone.
pub proof fn lemma_root_is_not_deleted(
    t: Map<u64, InodeView>,
    shots: Seq<SnapshotView>,
    entries: Seq<EntryView>,
    polled: Seq<Seq<char>>,
)
    requires
        inode::table_wf(t),
        inode::shows_files(t, shots),
    ensures
        !poll::planned_deletions(shots, entries, polled).contains(ROOT_INODE),
{
    if poll::planned_deletions(shots, entries, polled).contains(ROOT_INODE) {
        lemma_planned_deletion(shots, entries, polled, ROOT_INODE);
        let i = choose|i: int|
            0 <= i < shots.len() && (#[trigger] shots[i]).inode == ROOT_INODE && poll::is_gone(
                shots[i],
                entries,
                polled,
            );
        assert(inode::is_linked_file(t, shots[i].inode));
    }
}

/// A file is dropped only if the directory that it lies in was listed and does
/// not show it: files in directories whose listing failed, or that were not
/// listed in this round, stay in the table under their name.
pub proof fn law_unlisted_directories_lose_no_files(
    t: Map<u64, InodeView>,
    shots: Seq<SnapshotView>,
    entries: Seq<EntryView>,
    polled: Seq<Seq<char>>,
    now: Span,
    ino: u64,
)
    requires
        inode::shows_files(t, shots),
        inode::is_linked_file(t, ino),
        !polled.contains(inode::parent_path(t[ino].path)),
    ensures
        ({
            let us = poll::planned_updates(shots, entries, now);
            let ds = poll::planned_deletions(shots, entries, polled);
            let after = poll::table_after_diff(t, us, ds, entries);
            &&& after.dom().contains(ino)
            &&& after[ino].nlink == t[ino].nlink
            &&& after[ino].path == t[ino].path
        }),
{
    let us = poll::planned_updates(shots, entries, now);
    let ds = poll::planned_deletions(shots, entries, polled);
    if ds.contains(ino) {
        lemma_planned_deletion(shots, entries, polled, ino);
        let i = choose|i: int|
            0 <= i < shots.len() && (#[trigger] shots[i]).inode == ino && poll::is_gone(
                shots[i],
                entries,
                polled,
            );
        assert(shots[i].path == t[ino].path);
        assert(false);
    }
    let updated = poll::after_updates(t, us);
    lemma_updates_keep_names(t, us, ino);
    lemma_removals_other(updated, ds, ino);
    let reconciled = poll::after_removals(updated, ds);
    lemma_invalidation_keeps(reconciled, poll::stale_dirs(reconciled, entries), ino);
}

pub proof fn lemma_updates_keep_names(t: Map<u64, InodeView>, updates: Seq<UpdateView>, ino: u64)
    requires
        t.dom().contains(ino),
    ensures
        poll::after_updates(t, updates).dom().contains(ino),
        poll::after_updates(t, updates)[ino].nlink == t[ino].nlink,
        poll::after_updates(t, updates)[ino].path == t[ino].path,
        poll::after_updates(t, updates)[ino].dirty == t[ino].dirty,
        poll::after_updates(t, updates)[ino].open_handles == t[ino].open_handles,
        poll::after_updates(t, updates)[ino].kind == t[ino].kind,
        poll::after_updates(t, updates)[ino].parent == t[ino].parent,
        poll::after_updates(t, updates)[ino].children_loaded == t[ino].children_loaded,
    decreases updates.len(),
{
    if updates.len() > 0 {
        lemma_updates_keep_names(t, updates.drop_last(), ino);
    }
}

/// What becomes of a file in a poll round, going by what the table and the
/// listings say of it alone: it is updated, dropped, or left as it is.
pub open spec fn polled_file(
    t: Map<u64, InodeView>,
    entries: Seq<EntryView>,
    polled: Seq<Seq<char>>,
    now: Span,
    ino: u64,
) -> Option<InodeView> {
    let s = inode::snapshot_of(ino, t[ino]);
    match poll::planned_update(s, entries, now) {
        Some(u) => Some(poll::after_update(t, u)[ino]),
        None => if !poll::is_gone(s, entries, polled) {
            Some(t[ino])
        } else if t[ino].open_handles > 0 {
            Some(InodeView { nlink: 0, ..t[ino] })
        } else {
            None
        },
    }
}

/// A poll round decides every file for itself: in whatever order the files are
/// looked at, each ends up as the table and the listings say of it alone.
pub proof fn law_poll_decides_every_file(
    t: Map<u64, InodeView>,
    shots: Seq<SnapshotView>,
    entries: Seq<EntryView>,
    polled: Seq<Seq<char>>,
    now: Span,
    ino: u64,
)
    requires
        inode::table_wf(t),
        inode::shows_files(t, shots),
        inode::is_linked_file(t, ino),
    ensures
        ({
            let us = poll::planned_updates(shots, entries, now);
            let ds = poll::planned_deletions(shots, entries, polled);
            let after = poll::table_after_diff(t, us, ds, entries);
            match polled_file(t, entries, polled, now, ino) {
                Some(e) => after.dom().contains(ino) && same_but_listing(after[ino], e),
                None => !after.dom().contains(ino),
            }
        }),
{
    let us = poll::planned_updates(shots, entries, now);
    let ds = poll::planned_deletions(shots, entries, polled);
    let i = choose|i: int| 0 <= i < shots.len() && (#[trigger] shots[i]).inode == ino;
    let s = shots[i];
    let updated = poll::after_updates(t, us);
    let reconciled = poll::after_removals(updated, ds);
    let dirs = poll::stale_dirs(reconciled, entries);
    lemma_updates_of_shots(t, shots, entries, now, i);
    lemma_updates_keep_names(t, us, ino);
    assert(inode::visible(t, ino, t[ino].path));
    if poll::is_gone(s, entries, polled) {
        lemma_gone_is_planned(shots, entries, polled, i);
        lemma_removals_of(updated, ds, ino);
    } else {
        if ds.contains(ino) {
            lemma_planned_deletion(shots, entries, polled, ino);
            let k = choose|k: int|
                0 <= k < shots.len() && (#[trigger] shots[k]).inode == ino && poll::is_gone(
                    shots[k],
                    entries,
                    polled,
                );
            assert(shots[k].inode == shots[i].inode);
            assert(false);
        }
        lemma_removals_other(updated, ds, ino);
    }
    if reconciled.dom().contains(ino) {
        lemma_invalidation_keeps(reconciled, dirs, ino);
    } else {
        lemma_invalidation_adds_nothing(reconciled, dirs, ino);
    }
}

/// A poll round touches nothing but files that a path leads to, and the
/// listings of directories.
pub proof fn law_poll_touches_linked_files_only(
    t: Map<u64, InodeView>,
    shots: Seq<SnapshotView>,
    entries: Seq<EntryView>,
    polled: Seq<Seq<char>>,
    now: Span,
    ino: u64,
)
    requires
        inode::shows_files(t, shots),
        !inode::is_linked_file(t, ino),
    ensures
        ({
            let us = poll::planned_updates(shots, entries, now);
            let ds = poll::planned_deletions(shots, entries, polled);
            let after = poll::table_after_diff(t, us, ds, entries);
            if t.dom().contains(ino) {
                after.dom().contains(ino) && same_but_listing(after[ino], t[ino])
            } else {
                !after.dom().contains(ino)
            }
        }),
{
    let us = poll::planned_updates(shots, entries, now);
    let ds = poll::planned_deletions(shots, entries, polled);
    let updated = poll::after_updates(t, us);
    let reconciled = poll::after_removals(updated, ds);
    let dirs = poll::stale_dirs(reconciled, entries);
    if ds.contains(ino) {
        lemma_planned_deletion(shots, entries, polled, ino);
        let k = choose|k: int|
            0 <= k < shots.len() && (#[trigger] shots[k]).inode == ino && poll::is_gone(
                shots[k],
                entries,
                polled,
            );
        assert(inode::is_linked_file(t, shots[k].inode));
        assert(false);
    }
    lemma_planned_inodes(shots, entries, now, ino);
    if t.dom().contains(ino) {
        lemma_updates_other(t, us, ino);
        lemma_removals_other(updated, ds, ino);
        lemma_invalidation_keeps(reconciled, dirs, ino);
    } else {
        lemma_updates_add_nothing(t, us, ino);
        lemma_removals_add_nothing(updated, ds, ino);
        lemma_invalidation_adds_nothing(reconciled, dirs, ino);
    }
}

/// The inodes that are to be updated are among those of the snapshot that have
/// no writes that are not flushed.
pub proof fn lemma_planned_inodes(
    shots: Seq<SnapshotView>,
    entries: Seq<EntryView>,
    now: Span,
    ino: u64,
)
    requires
        forall|i: int|
            0 <= i < shots.len() ==> (#[trigger] shots[i]).inode != ino || shots[i].dirty,
    ensures
        ({
            let us = poll::planned_updates(shots, entries, now);
            forall|i: int| 0 <= i < us.len() ==> (#[trigger] us[i]).inode != ino
        }),
    decreases shots.len(),
{
    if shots.len() > 0 {
        let rest = shots.drop_last();
        assert forall|i: int| 0 <= i < rest.len() implies (#[trigger] rest[i]).inode != ino
            || rest[i].dirty by {
            assert(rest[i] == shots[i]);
        }
        lemma_planned_inodes(rest, entries, now, ino);
        assert(shots[shots.len() - 1].inode != ino || shots[shots.len() - 1].dirty);
    }
}

/// The planned updates leave a file as the one that is planned for it says.
pub proof fn lemma_updates_of_shots(
    t: Map<u64, InodeView>,
    shots: Seq<SnapshotView>,
    entries: Seq<EntryView>,
    now: Span,
    i: int,
)
    requires
        0 <= i < shots.len(),
        t.dom().contains(shots[i].inode),
        forall|a: int, b: int|
            0 <= a < b < shots.len() ==> (#[trigger] shots[a]).inode != (#[trigger] shots[b]).inode,
    ensures
        ({
            let after = poll::after_updates(t, poll::planned_updates(shots, entries, now));
            let ino = shots[i].inode;
            after[ino] == match poll::planned_update(shots[i], entries, now) {
                Some(u) => poll::after_update(t, u)[ino],
                None => t[ino],
            }
        }),
    decreases shots.len(),
{
    let rest = shots.drop_last();
    let last = shots.len() - 1;
    let ino = shots[i].inode;
    let us = poll::planned_updates(rest, entries, now);
    let all = poll::planned_updates(shots, entries, now);
    lemma_updates_keep_names(t, us, ino);
    if poll::planned_update(shots[last], entries, now) is Some {
        assert(all.drop_last() =~= us);
        assert(all.last() == poll::planned_update(shots[last], entries, now)->0);
    }
    if i < last {
        assert(shots[i].inode != shots[last].inode);
        assert(rest[i] == shots[i]);
        assert forall|a: int, b: int| 0 <= a < b < rest.len() implies (#[trigger] rest[a]).inode
            != (#[trigger] rest[b]).inode by {
            assert(rest[a] == shots[a] && rest[b] == shots[b]);
        }
        lemma_updates_of_shots(t, rest, entries, now, i);
    } else {
        assert forall|a: int| 0 <= a < rest.len() implies (#[trigger] rest[a]).inode != ino by {
            assert(rest[a] == shots[a]);
            assert(shots[a].inode != shots[last].inode);
        }
        lemma_planned_inodes(rest, entries, now, ino);
        lemma_updates_other(t, us, ino);
    }
}

pub proof fn lemma_gone_is_planned(
    shots: Seq<SnapshotView>,
    entries: Seq<EntryView>,
    polled: Seq<Seq<char>>,
    i: int,
)
    requires
        0 <= i < shots.len(),
        poll::is_gone(shots[i], entries, polled),
    ensures
        poll::planned_deletions(shots, entries, polled).contains(shots[i].inode),
    decreases shots.len(),
{
    let rest = shots.drop_last();
    let before = poll::planned_deletions(rest, entries, polled);
    let all = poll::planned_deletions(shots, entries, polled);
    if i < rest.len() {
        assert(rest[i] == shots[i]);
        lemma_gone_is_planned(rest, entries, polled, i);
        let k = choose|k: int| 0 <= k < before.len() && before[k] == shots[i].inode;
        assert(all[k] == shots[i].inode);
    } else {
        assert(all[before.len() as int] == shots[i].inode);
    }
}

/// Removing a file leaves its inode to its open handles, if it has any.
pub proof fn lemma_removals_of(t: Map<u64, InodeView>, inos: Seq<u64>, ino: u64)
    requires
        inos.contains(ino),
        poll::can_remove(t, ino),
    ensures
        ({
            let after = poll::after_removals(t, inos);
            if t[ino].open_handles > 0 {
                after.dom().contains(ino) && after[ino] == (InodeView { nlink: 0, ..t[ino] })
            } else {
                !after.dom().contains(ino)
            }
        }),
    decreases inos.len(),
{
    let rest = inos.drop_last();
    let k = choose|k: int| 0 <= k < inos.len() && inos[k] == ino;
    if rest.contains(ino) {
        lemma_removals_of(t, rest, ino);
    } else {
        if k < rest.len() {
            assert(rest[k] == ino);
        }
        lemma_removals_other(t, rest, ino);
    }
}

pub proof fn lemma_updates_add_nothing(t: Map<u64, InodeView>, updates: Seq<UpdateView>, ino: u64)
    requires
        !t.dom().contains(ino),
    ensures
        !poll::after_updates(t, updates).dom().contains(ino),
    decreases updates.len(),
{
    if updates.len() > 0 {
        lemma_updates_add_nothing(t, updates.drop_last(), ino);
    }
}

pub proof fn lemma_removals_add_nothing(t: Map<u64, InodeView>, inos: Seq<u64>, ino: u64)
    requires
        !t.dom().contains(ino),
    ensures
        !poll::after_removals(t, inos).dom().contains(ino),
    decreases inos.len(),
{
    if inos.len() > 0 {
        lemma_removals_add_nothing(t, inos.drop_last(), ino);
    }
}

pub proof fn lemma_invalidation_adds_nothing(t: Map<u64, InodeView>, dirs: Seq<u64>, ino: u64)
    requires
        !t.dom().contains(ino),
    ensures
        !poll::after_invalidation(t, dirs).dom().contains(ino),
    decreases dirs.len(),
{
    if dirs.len() > 0 {
        lemma_invalidation_adds_nothing(t, dirs.drop_last(), ino);
    }
}

/// A file that is updated while handles of it are open is announced to the
/// kernel without touching its pages.
pub proof fn law_open_files_keep_their_pages(
    t: Map<u64, InodeView>,
    updates: Seq<UpdateView>,
    i: int,
)
    requires
        0 <= i < updates.len(),
        t.dom().contains(updates[i].inode),
        t[updates[i].inode].open_handles > 0,
    ensures
        poll::updates_invals(t, updates)[i] == (updates[i].inode, InvalKind::AttrOnly),
{
}

/// Whether `after` holds no other inodes than `t`, and those that it holds have
/// kept their kind and parent, their open handles and their unflushed writes.
pub open spec fn keeps_tree(t: Map<u64, InodeView>, after: Map<u64, InodeView>) -> bool {
    forall|ino: u64| #[trigger]
        after.dom().contains(ino) ==> {
            &&& t.dom().contains(ino)
            &&& after[ino].kind == t[ino].kind
            &&& after[ino].parent == t[ino].parent
            &&& after[ino].open_handles == t[ino].open_handles
            &&& after[ino].dirty == t[ino].dirty
        }
}

pub proof fn lemma_updates_keep_tree(t: Map<u64, InodeView>, updates: Seq<UpdateView>)
    ensures
        keeps_tree(t, poll::after_updates(t, updates)),
    decreases updates.len(),
{
    if updates.len() > 0 {
        lemma_updates_keep_tree(t, updates.drop_last());
    }
}

pub proof fn lemma_removals_keep_tree(t: Map<u64, InodeView>, inos: Seq<u64>)
    ensures
        keeps_tree(t, poll::after_removals(t, inos)),
    decreases inos.len(),
{
    if inos.len() > 0 {
        lemma_removals_keep_tree(t, inos.drop_last());
    }
}

pub proof fn lemma_changes_keep_tree(t: Map<u64, InodeView>, changes: Seq<ChangeView>)
    ensures
        keeps_tree(t, follow::after_changes(t, changes)),
    decreases changes.len(),
{
    if changes.len() > 0 {
        let rest = changes.drop_last();
        lemma_changes_keep_tree(t, rest);
        let before = follow::after_changes(t, rest);
        let after = follow::after_changes(t, changes);
        assert forall|ino: u64| #[trigger] after.dom().contains(ino) implies {
            &&& t.dom().contains(ino)
            &&& after[ino].kind == t[ino].kind
            &&& after[ino].parent == t[ino].parent
            &&& after[ino].open_handles == t[ino].open_handles
            &&& after[ino].dirty == t[ino].dirty
        } by {
            lemma_changed_file_is_there(before, changes.last());
            assert(before.dom().contains(ino));
        }
    }
}

proof fn lemma_changed_file_is_there(t: Map<u64, InodeView>, c: ChangeView)
    ensures
        follow::changed_file(t, c) matches Some(ino) ==> t.dom().contains(ino),
{
    if inode::inode_at(t, c.path) is Some {
        let ino = choose|ino: u64| inode::visible(t, ino, c.path);
        assert(inode::visible(t, ino, c.path));
    }
}

/// The nearest directory on the way to a path is one, unless it is the root.
pub proof fn lemma_nearest_dir_is_one(t: Map<u64, InodeView>, path: Seq<char>)
    ensures
        ({
            let dir = inode::nearest_dir(t, path);
            dir == ROOT_INODE || t[dir].kind == InodeKind::Directory
        }),
    decreases path.len(),
{
    inode::lemma_last_slash(path);
    if inode::last_slash(path) >= 0 {
        lemma_nearest_dir_is_one(t, inode::parent_path(path));
    }
}

/// Whether an announcement may be made: a directory, or an inode that the table
/// does not hold, may be announced in any way, a file with open handles only
/// without its pages, and a file with writes that are not flushed not at all.
spec fn is_fair(t: Map<u64, InodeView>, said: (u64, InvalKind)) -> bool {
    t.dom().contains(said.0) && t[said.0].kind == InodeKind::File ==> {
        &&& !t[said.0].dirty
        &&& t[said.0].open_handles > 0 ==> said.1 == InvalKind::AttrOnly
    }
}

spec fn all_fair(t: Map<u64, InodeView>, said: Seq<(u64, InvalKind)>) -> bool {
    forall|i: int| 0 <= i < said.len() ==> is_fair(t, #[trigger] said[i])
}

proof fn lemma_fair_removal(t: Map<u64, InodeView>, before: Map<u64, InodeView>, ino: u64)
    requires
        inode::table_wf(t),
        keeps_tree(t, before),
    ensures
        all_fair(t, poll::removal_invals(before, ino)),
{
    if poll::can_remove(before, ino) {
        assert(inode::lies_in_directory(t, ino));
    }
}

proof fn lemma_fair_removals(t: Map<u64, InodeView>, before: Map<u64, InodeView>, inos: Seq<u64>)
    requires
        inode::table_wf(t),
        keeps_tree(t, before),
    ensures
        all_fair(t, poll::removals_invals(before, inos)),
    decreases inos.len(),
{
    if inos.len() > 0 {
        let rest = inos.drop_last();
        lemma_fair_removals(t, before, rest);
        lemma_removals_keep_tree(before, rest);
        lemma_fair_removal(t, poll::after_removals(before, rest), inos.last());
    }
}

/// The directories whose listing is stale are directories.
proof fn lemma_fair_stale_dirs(
    t: Map<u64, InodeView>,
    after: Map<u64, InodeView>,
    entries: Seq<EntryView>,
)
    requires
        inode::table_wf(t),
        keeps_tree(t, after),
    ensures
        all_fair(t, poll::dirs_invals(poll::stale_dirs(after, entries))),
    decreases entries.len(),
{
    if entries.len() > 0 {
        let rest = poll::stale_dirs(after, entries.drop_last());
        let all = poll::stale_dirs(after, entries);
        lemma_fair_stale_dirs(t, after, entries.drop_last());
        lemma_nearest_dir_is_one(after, entries.last().path);
        assert forall|i: int| 0 <= i < all.len() implies is_fair(
            t,
            #[trigger] poll::dirs_invals(all)[i],
        ) by {
            if i < rest.len() {
                assert(is_fair(t, poll::dirs_invals(rest)[i]));
            }
        }
    }
}

proof fn lemma_fair_changed_dirs(t: Map<u64, InodeView>, changes: Seq<ChangeView>)
    requires
        inode::table_wf(t),
    ensures
        all_fair(t, poll::dirs_invals(follow::changes_stale_dirs(t, changes))),
    decreases changes.len(),
{
    if changes.len() > 0 {
        let earlier = changes.drop_last();
        let rest = follow::changes_stale_dirs(t, earlier);
        let all = follow::changes_stale_dirs(t, changes);
        lemma_fair_changed_dirs(t, earlier);
        lemma_changes_keep_tree(t, earlier);
        lemma_nearest_dir_is_one(follow::after_changes(t, earlier), changes.last().path);
        assert forall|i: int| 0 <= i < all.len() implies is_fair(
            t,
            #[trigger] poll::dirs_invals(all)[i],
        ) by {
            if i < rest.len() {
                assert(is_fair(t, poll::dirs_invals(rest)[i]));
            }
        }
    }
}

proof fn lemma_fair_changes(t: Map<u64, InodeView>, changes: Seq<ChangeView>)
    requires
        inode::table_wf(t),
    ensures
        all_fair(t, follow::changes_invals(t, changes)),
    decreases changes.len(),
{
    if changes.len() > 0 {
        let earlier = changes.drop_last();
        let before = follow::after_changes(t, earlier);
        lemma_fair_changes(t, earlier);
        lemma_changes_keep_tree(t, earlier);
        lemma_changed_file_is_there(before, changes.last());
        if follow::changed_file(before, changes.last()) is Some {
            lemma_fair_removal(t, before, follow::changed_file(before, changes.last())->0);
        }
        assert(all_fair(t, follow::change_invals(before, changes.last())));
    }
}

/// An open file is never told to drop its pages: whatever a poll round updates
/// and drops, and whatever else it announces to the kernel, no announcement of
/// the round asks for the pages of a file with open handles. An in-flight read
/// may hold locks on those pages, and waiting for them would deadlock.
pub proof fn law_rounds_leave_open_pages(
    t: Map<u64, InodeView>,
    updates: Seq<UpdateView>,
    deletions: Seq<u64>,
    entries: Seq<EntryView>,
    ino: u64,
)
    requires
        inode::table_wf(t),
        t.dom().contains(ino),
        t[ino].kind == InodeKind::File,
        t[ino].open_handles > 0,
    ensures
        !poll::invals_of_diff(t, updates, deletions, entries).contains((ino, InvalKind::Pages)),
{
    let said = poll::invals_of_diff(t, updates, deletions, entries);
    let updated = poll::after_updates(t, updates);
    let reconciled = poll::after_removals(updated, deletions);
    let first = poll::updates_invals(t, updates);
    let second = poll::removals_invals(updated, deletions);
    let third = poll::dirs_invals(poll::stale_dirs(reconciled, entries));
    lemma_updates_keep_tree(t, updates);
    lemma_removals_keep_tree(updated, deletions);
    lemma_fair_removals(t, updated, deletions);
    lemma_fair_stale_dirs(t, reconciled, entries);
    if said.contains((ino, InvalKind::Pages)) {
        let k = choose|k: int| 0 <= k < said.len() && said[k] == (ino, InvalKind::Pages);
        if first.len() <= k < first.len() + second.len() {
            assert(is_fair(t, second[k - first.len()]));
        } else if k >= first.len() + second.len() {
            assert(is_fair(t, third[k - first.len() - second.len()]));
        }
    }
}

/// Files with writes that are not flushed are not reported: no announcement of a
/// poll round is about one.
pub proof fn law_rounds_do_not_report_dirty_files(
    t: Map<u64, InodeView>,
    shots: Seq<SnapshotView>,
    entries: Seq<EntryView>,
    polled: Seq<Seq<char>>,
    now: Span,
    ino: u64,
    kind: InvalKind,
)
    requires
        inode::table_wf(t),
        inode::shows_files(t, shots),
        t.dom().contains(ino),
        t[ino].kind == InodeKind::File,
        t[ino].dirty,
    ensures
        ({
            let us = poll::planned_updates(shots, entries, now);
            let ds = poll::planned_deletions(shots, entries, polled);
            !poll::invals_of_diff(t, us, ds, entries).contains((ino, kind))
        }),
{
    let us = poll::planned_updates(shots, entries, now);
    let ds = poll::planned_deletions(shots, entries, polled);
    let said = poll::invals_of_diff(t, us, ds, entries);
    let updated = poll::after_updates(t, us);
    let reconciled = poll::after_removals(updated, ds);
    let first = poll::updates_invals(t, us);
    let second = poll::removals_invals(updated, ds);
    let third = poll::dirs_invals(poll::stale_dirs(reconciled, entries));
    lemma_updates_keep_tree(t, us);
    lemma_removals_keep_tree(updated, ds);
    lemma_fair_removals(t, updated, ds);
    lemma_fair_stale_dirs(t, reconciled, entries);
    lemma_planned_inodes(shots, entries, now, ino);
    if said.contains((ino, kind)) {
        let k = choose|k: int| 0 <= k < said.len() && said[k] == (ino, kind);
        if k < first.len() {
            assert(us[k].inode == ino);
        } else if k < first.len() + second.len() {
            assert(is_fair(t, second[k - first.len()]));
        } else {
            assert(is_fair(t, third[k - first.len() - second.len()]));
        }
    }
}

/// The same of pushed changes: no announcement of a batch asks for the pages of a
/// file with open handles, and none is about a file with writes that are not
/// flushed.
pub proof fn law_batches_spare_open_and_dirty_files(
    t: Map<u64, InodeView>,
    changes: Seq<ChangeView>,
    ino: u64,
    kind: InvalKind,
)
    requires
        inode::table_wf(t),
        t.dom().contains(ino),
        t[ino].kind == InodeKind::File,
    ensures
        ({
            let said = follow::changes_invals(t, changes) + poll::dirs_invals(
                follow::changes_stale_dirs(t, changes),
            );
            &&& t[ino].open_handles > 0 ==> !said.contains((ino, InvalKind::Pages))
            &&& t[ino].dirty ==> !said.contains((ino, kind))
        }),
{
    let first = follow::changes_invals(t, changes);
    let second = poll::dirs_invals(follow::changes_stale_dirs(t, changes));
    let said = first + second;
    lemma_fair_changes(t, changes);
    lemma_fair_changed_dirs(t, changes);
    assert forall|k: int| 0 <= k < said.len() implies is_fair(t, #[trigger] said[k]) by {
        if k < first.len() {
            assert(is_fair(t, first[k]));
        } else {
            assert(is_fair(t, second[k - first.len()]));
        }
    }
}

/// A file that is dropped while handles of it are open is announced without
/// touching its pages too, and its inode stays for them, although no path leads
/// there any more.
pub proof fn law_open_files_survive_deletion(t: Map<u64, InodeView>, ino: u64, path: Seq<char>)
    requires
        poll::can_remove(t, ino),
        t[ino].open_handles > 0,
    ensures
        poll::after_removal(t, ino).dom().contains(ino),
        poll::after_removal(t, ino)[ino] == (InodeView { nlink: 0, ..t[ino] }),
        !inode::visible(poll::after_removal(t, ino), ino, path),
        poll::removal_invals(t, ino)[1] == (ino, InvalKind::AttrOnly),
{
}

/// Without open handles nothing is left of a file that is dropped.
pub proof fn law_closed_files_are_dropped(t: Map<u64, InodeView>, ino: u64)
    requires
        poll::can_remove(t, ino),
        t[ino].open_handles == 0,
    ensures
        !poll::after_removal(t, ino).dom().contains(ino),
{
}

/// Only directories that were listed have their listing dropped; those never
/// visited are left alone.
pub proof fn law_only_listed_directories_are_stale(
    t: Map<u64, InodeView>,
    entries: Seq<EntryView>,
    dir: u64,
)
    requires
        poll::stale_dirs(t, entries).contains(dir),
    ensures
        t.dom().contains(dir),
        t[dir].children_loaded,
    decreases entries.len(),
{
    if entries.len() > 0 {
        let rest = poll::stale_dirs(t, entries.drop_last());
        let all = poll::stale_dirs(t, entries);
        let k = choose|k: int| 0 <= k < all.len() && all[k] == dir;
        if k < rest.len() {
            assert(rest[k] == dir);
            law_only_listed_directories_are_stale(t, entries.drop_last(), dir);
        }
    }
}

/// The nearest directory on the way to a path holds it.
pub proof fn lemma_nearest_dir_holds(t: Map<u64, InodeView>, path: Seq<char>)
    requires
        inode::table_wf(t),
    ensures
        negative::lies_in(t[inode::nearest_dir(t, path)].path, path),
    decreases path.len(),
{
    inode::lemma_last_slash(path);
    if inode::last_slash(path) >= 0 {
        let dir = inode::parent_path(path);
        let near = t[inode::nearest_dir(t, path)].path;
        assert(dir.push('/').is_prefix_of(path)) by {
            assert(path.take(dir.len() as int + 1) =~= dir.push('/'));
        }
        lemma_nearest_dir_holds(t, dir);
        if near.push('/').is_prefix_of(dir) {
            assert(path.take(near.len() as int + 1) =~= near.push('/'));
        }
    } else {
        assert(inode::visible(t, ROOT_INODE, Seq::empty()));
    }
}

/// Something new in a directory that was listed shows up: the directory will be
/// listed again, and the path is not known to be missing any more. `t` is the
/// table once the known files are updated or dropped.
pub proof fn law_new_paths_show_up(
    t: Map<u64, InodeView>,
    entries: Seq<EntryView>,
    cache: Seq<(Seq<char>, Span)>,
    i: int,
)
    requires
        inode::table_wf(t),
        0 <= i < entries.len(),
        poll::stale_dir(t, entries[i].path) is Some,
    ensures
        ({
            let dir = poll::stale_dir(t, entries[i].path)->0;
            let dirs = poll::stale_dirs(t, entries);
            &&& !poll::after_invalidation(t, dirs)[dir].children_loaded
            &&& negative::missing_since(
                poll::cache_after(t, dirs, cache),
                entries[i].path,
            ) is None
        }),
{
    let dir = poll::stale_dir(t, entries[i].path)->0;
    let dirs = poll::stale_dirs(t, entries);
    lemma_stale_dir_is_listed(t, entries, i);
    let k = choose|k: int| 0 <= k < dirs.len() && dirs[k] == dir;
    lemma_invalidated(t, dirs, k);
    lemma_nearest_dir_holds(t, entries[i].path);
    lemma_forgotten(t, dirs, cache, k, entries[i].path);
}

pub proof fn lemma_stale_dir_is_listed(t: Map<u64, InodeView>, entries: Seq<EntryView>, i: int)
    requires
        0 <= i < entries.len(),
        poll::stale_dir(t, entries[i].path) is Some,
    ensures
        poll::stale_dirs(t, entries).contains(poll::stale_dir(t, entries[i].path)->0),
    decreases entries.len(),
{
    let rest = entries.drop_last();
    let before = poll::stale_dirs(t, rest);
    let all = poll::stale_dirs(t, entries);
    let dir = poll::stale_dir(t, entries[i].path)->0;
    if i < rest.len() {
        assert(rest[i] == entries[i]);
        lemma_stale_dir_is_listed(t, rest, i);
        let k = choose|k: int| 0 <= k < before.len() && before[k] == dir;
        assert(all[k] == dir);
    } else if !before.contains(dir) {
        assert(all[before.len() as int] == dir);
    }
}

pub proof fn lemma_invalidated(t: Map<u64, InodeView>, dirs: Seq<u64>, k: int)
    requires
        0 <= k < dirs.len(),
        t.dom().contains(dirs[k]),
    ensures
        !poll::after_invalidation(t, dirs)[dirs[k]].children_loaded,
    decreases dirs.len(),
{
    let rest = dirs.drop_last();
    lemma_invalidation_keeps(t, rest, dirs[k]);
    if k < rest.len() {
        assert(rest[k] == dirs[k]);
        lemma_invalidated(t, rest, k);
    }
}

pub proof fn lemma_forgotten(
    t: Map<u64, InodeView>,
    dirs: Seq<u64>,
    cache: Seq<(Seq<char>, Span)>,
    k: int,
    path: Seq<char>,
)
    requires
        0 <= k < dirs.len(),
        negative::lies_in(t[dirs[k]].path, path),
    ensures
        negative::missing_since(poll::cache_after(t, dirs, cache), path) is None,
    decreases dirs.len(),
{
    let rest = dirs.drop_last();
    negative::law_retained_paths(
        |p: Seq<char>| !negative::lies_in(t[dirs.last()].path, p),
        poll::cache_after(t, rest, cache),
        path,
    );
    if k < rest.len() {
        assert(rest[k] == dirs[k]);
        lemma_forgotten(t, rest, cache, k, path);
    }
}

/// The user's size of an encrypted file never becomes the size of its container:
/// the update keeps it, and has the header of the new container read.
pub proof fn law_plaintext_size_is_kept(s: SnapshotView, r: EntryView, now: Span)
    requires
        s.cipher_size is Some,
    ensures
        poll::update_for(s, r, now).size == s.size,
        poll::update_for(s, r, now).cipher_size == Some(poll::object_size(r)),
        poll::update_for(s, r, now).needs_size_probe,
{
}

/// A snapshot of the file after an update was taken over.
pub open spec fn updated_snapshot(s: SnapshotView, u: UpdateView) -> SnapshotView {
    SnapshotView {
        xet_hash: u.xet_hash,
        etag: u.etag,
        size: u.size,
        cipher_size: u.cipher_size,
        ..s
    }
}

/// An update settles a file: compared with the same listing again, it has not
/// changed.
pub proof fn law_update_settles(s: SnapshotView, r: EntryView, now: Span)
    ensures
        !poll::has_changed(updated_snapshot(s, poll::update_for(s, r, now)), r),
{
}

/// A listing that shows every file as it is known changes nothing.
pub proof fn law_unchanged_listing_changes_nothing(
    shots: Seq<SnapshotView>,
    entries: Seq<EntryView>,
    polled: Seq<Seq<char>>,
    now: Span,
)
    requires
        forall|i: int|
            0 <= i < shots.len() ==> {
                let r = poll::remote_file(entries, (#[trigger] shots[i]).path);
                r is Some && !poll::has_changed(shots[i], r->0)
            },
    ensures
        poll::planned_updates(shots, entries, now).len() == 0,
        poll::planned_deletions(shots, entries, polled).len() == 0,
    decreases shots.len(),
{
    if shots.len() > 0 {
        let rest = shots.drop_last();
        assert forall|i: int| 0 <= i < rest.len() implies {
            let r = poll::remote_file(entries, (#[trigger] rest[i]).path);
            r is Some && !poll::has_changed(rest[i], r->0)
        } by {
            assert(rest[i] == shots[i]);
        }
        law_unchanged_listing_changes_nothing(rest, entries, polled, now);
        assert(shots[shots.len() - 1] == shots.last());
    }
}

/// The same of pushed changes: a batch does not touch an inode with writes that
/// are not flushed. (If it is a directory, its listing may be dropped.)
pub proof fn law_batches_leave_dirty_inodes(
    t: Map<u64, InodeView>,
    changes: Seq<ChangeView>,
    ino: u64,
)
    requires
        t.dom().contains(ino),
        t[ino].dirty,
    ensures
        ({
            let dirs = follow::changes_stale_dirs(t, changes);
            let after = poll::after_invalidation(follow::after_changes(t, changes), dirs);
            after.dom().contains(ino) && same_but_listing(after[ino], t[ino])
        }),
{
    lemma_changes_leave_dirty(t, changes, ino);
    lemma_invalidation_keeps(
        follow::after_changes(t, changes),
        follow::changes_stale_dirs(t, changes),
        ino,
    );
}

proof fn lemma_changes_leave_dirty(t: Map<u64, InodeView>, changes: Seq<ChangeView>, ino: u64)
    requires
        t.dom().contains(ino),
        t[ino].dirty,
    ensures
        follow::after_changes(t, changes).dom().contains(ino),
        follow::after_changes(t, changes)[ino] == t[ino],
    decreases changes.len(),
{
    if changes.len() > 0 {
        lemma_changes_leave_dirty(t, changes.drop_last(), ino);
    }
}

/// A pushed update of a file with open handles does not touch its pages either.
pub proof fn law_pushed_updates_keep_open_pages(t: Map<u64, InodeView>, c: ChangeView, ino: u64)
    requires
        follow::changed_file(t, c) == Some(ino),
        t.dom().contains(ino),
        c.op != FollowOp::Delete,
        !t[ino].dirty,
        t[ino].open_handles > 0,
    ensures
        follow::change_invals(t, c) == seq![(ino, InvalKind::AttrOnly)],
{
}

} // verus!
