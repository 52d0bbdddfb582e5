//! Polling: what a listing of the remote changes in the inode table.

use vstd::prelude::*;

use crate::error::Error;
use crate::hub_api::client;
use crate::hub_api::client::{EntryView, TreeEntry};
use crate::hub_api::http;
use crate::text;
use crate::time::Span;
use crate::virtual_fs::inode;
use crate::virtual_fs::inode::{
    FileSnapshot, InodeKind, InodeTable, InodeView, SnapshotView, ROOT_INODE,
};
use crate::virtual_fs::negative;
use crate::virtual_fs::negative::NegativeCache;
use crate::virtual_fs::poll_laws;

verus! {

/// What the kernel is told to drop of an inode.
#[derive(Debug, Clone, Copy, PartialEq, Eq, Structural)]
pub enum InvalKind {
    /// Attributes only; cached pages are not touched.
    AttrOnly,
    /// Attributes and all cached pages.
    Pages,
}

impl InvalKind {
    /// The range that stands for this kind: the kernel skips page invalidation
    /// when the offset is negative, and a negative length reaches to the end of
    /// the file.
    pub fn offset_len(&self) -> (r: (i64, i64))
        ensures
            r == match *self {
                InvalKind::AttrOnly => (-1i64, 0i64),
                InvalKind::Pages => (0i64, -1i64),
            },
    {
        match self {
            InvalKind::AttrOnly => (-1, 0),
            InvalKind::Pages => (0, -1),
        }
    }
}

/// How the kernel is told of a change to a file. An inode with open handles may
/// have an in-flight read holding its folio locks; a full page invalidation
/// would block in the kernel waiting on that lock and deadlock against the read,
/// so such inodes get an attribute-only invalidation that never touches pages.
pub open spec fn inval_kind(t: Map<u64, InodeView>, ino: u64) -> InvalKind {
    if t.dom().contains(ino) && t[ino].open_handles > 0 {
        InvalKind::AttrOnly
    } else {
        InvalKind::Pages
    }
}

/// Queue the kernel invalidation for a file whose remote metadata changed.
pub fn queue_file_invalidation(
    inode_table: &InodeTable,
    ino: u64,
    inos_to_invalidate: &mut Vec<(u64, InvalKind)>,
)
    requires
        inode_table.wf(),
    ensures
        final(inos_to_invalidate)@ == old(inos_to_invalidate)@.push(
            (ino, inval_kind(inode_table@, ino)),
        ),
{
    let kind: InvalKind = if inode_table.has_open_handles(ino) {
        InvalKind::AttrOnly
    } else {
        InvalKind::Pages
    };
    inos_to_invalidate.push((ino, kind));
}

/// Whether a remote deletion of `ino` is carried out: it is there, and there are
/// no local writes that are not flushed.
pub open spec fn can_remove(t: Map<u64, InodeView>, ino: u64) -> bool {
    t.dom().contains(ino) && !t[ino].dirty
}

/// The table after a remote deletion of `ino`. An inode with open handles loses
/// its name but stays for them.
pub open spec fn after_removal(t: Map<u64, InodeView>, ino: u64) -> Map<u64, InodeView> {
    if !can_remove(t, ino) {
        t
    } else if t[ino].open_handles > 0 {
        t.insert(ino, InodeView { nlink: 0, ..t[ino] })
    } else {
        t.remove(ino)
    }
}

/// What the kernel is told of a remote deletion: the directory has changed, and
/// so has the file.
pub open spec fn removal_invals(t: Map<u64, InodeView>, ino: u64) -> Seq<(u64, InvalKind)> {
    if can_remove(t, ino) {
        seq![(t[ino].parent, InvalKind::Pages), (ino, inval_kind(t, ino))]
    } else {
        Seq::empty()
    }
}

/// Drop a remotely deleted file from the inode table and queue the parent
/// directory + inode invalidations. Returns `false` when the inode is gone or
/// dirty (local writes take precedence until flushed).
///
/// With open handles the pathname is unlinked but the inode is kept as an
/// orphan so they can still read. Without this, the file would stay visible by
/// name and a recreated file at the same path would collide.
pub fn remove_remote_file(
    inode_table: &mut InodeTable,
    ino: u64,
    inos_to_invalidate: &mut Vec<(u64, InvalKind)>,
) -> (r: bool)
    requires
        old(inode_table).wf(),
        ino != ROOT_INODE,
    ensures
        final(inode_table).wf(),
        r == can_remove(old(inode_table)@, ino),
        final(inode_table)@ == after_removal(old(inode_table)@, ino),
        final(inos_to_invalidate)@ == old(inos_to_invalidate)@ + removal_invals(
            old(inode_table)@,
            ino,
        ),
{
    let ghost queue = inos_to_invalidate@;
    let parent: u64 = match inode_table.get(ino) {
        Some(e) => {
            if e.is_dirty() {
                assert(queue + Seq::<(u64, InvalKind)>::empty() =~= queue);
                return false;
            }
            e.parent
        },
        None => {
            assert(queue + Seq::<(u64, InvalKind)>::empty() =~= queue);
            return false;
        },
    };
    inos_to_invalidate.push((parent, InvalKind::Pages));
    // Decide the invalidation kind while the inode is still in the table.
    queue_file_invalidation(inode_table, ino, inos_to_invalidate);
    assert(inos_to_invalidate@ =~= queue + removal_invals(inode_table@, ino));
    if inode_table.has_open_handles(ino) {
        inode_table.unlink(ino);
    } else {
        inode_table.remove(ino);
    }
    true
}

/// Whether an error should slow the poll loop down: expired token (401) or any
/// transient failure (rate limit / server overload) where re-polling at full
/// rate only makes things worse.
pub open spec fn calls_for_back_off(e: Error) -> bool {
    e.spec_status() == Some(401u16) || e.transient()
}

/// Whether an error should slow the poll loop down.
pub fn should_back_off(e: &Error) -> (r: bool)
    ensures
        r == calls_for_back_off(*e),
{
    let expired: bool = match e.status() {
        Some(s) => s == 401,
        None => false,
    };
    expired || e.is_transient()
}

/// The loop slows down exactly where the token was refused, a limit was hit, the
/// server was at fault, or no answer came; an answer that something is missing or
/// refused does not slow it down.
pub proof fn law_back_off_on_overload(e: Error, r: bool)
    requires
        call_ensures(should_back_off, (&e,), r),
    ensures
        e is Http ==> r,
        e is Encryption || e is Xet || e is Io ==> !r,
        e matches Error::Hub { status: None, message } ==> !r,
        e matches Error::Hub { status: Some(s), message } ==> r == (s == 401 || s == 408 || s == 429
            || (500 <= s && s < 600)),
{
}

/// Telling the kernel of attributes only never names a page, and telling it of pages
/// names all of them.
pub proof fn law_ranges_tell_the_kinds_apart(kind: InvalKind, r: (i64, i64))
    requires
        call_ensures(InvalKind::offset_len, (&kind,), r),
    ensures
        kind is AttrOnly <==> r.0 < 0,
        kind is Pages ==> r.0 == 0 && r.1 < 0,
{
}

/// What the listing says of the file at `path`: the last entry counts.
pub open spec fn remote_file(entries: Seq<EntryView>, path: Seq<char>) -> Option<EntryView>
    decreases entries.len(),
{
    if entries.len() == 0 {
        None
    } else if entries.last().entry_type == "file"@ && entries.last().path == path {
        Some(entries.last())
    } else {
        remote_file(entries.drop_last(), path)
    }
}

/// The size of the remote object.
pub open spec fn object_size(r: EntryView) -> u64 {
    match r.size {
        Some(n) => n,
        None => 0,
    }
}

/// Whether the remote file is another than the one that the snapshot shows: by
/// its content hash where either has one, else by its tag; or by the size of the
/// object, which for an encrypted file is that of the container.
pub open spec fn has_changed(s: SnapshotView, r: EntryView) -> bool {
    let content = if s.xet_hash is Some || r.xet_hash is Some {
        r.xet_hash != s.xet_hash
    } else {
        r.oid != s.etag
    };
    let local_size = match s.cipher_size {
        Some(n) => n,
        None => s.size,
    };
    content || object_size(r) != local_size
}

/// What is to be taken over of a remote file.
#[derive(Debug, Clone)]
pub struct RemoteUpdate {
    pub inode: u64,
    pub xet_hash: Option<String>,
    pub etag: Option<String>,
    pub size: u64,
    pub mtime: Span,
    pub cipher_size: Option<u64>,
    pub needs_size_probe: bool,
}

/// The contents of an update.
#[verifier::ext_equal]
pub struct UpdateView {
    pub inode: u64,
    pub xet_hash: Option<Seq<char>>,
    pub etag: Option<Seq<char>>,
    pub size: u64,
    pub mtime: Span,
    pub cipher_size: Option<u64>,
    pub needs_size_probe: bool,
}

impl View for RemoteUpdate {
    type V = UpdateView;

    open spec fn view(&self) -> UpdateView {
        UpdateView {
            inode: self.inode,
            xet_hash: http::opt_view(self.xet_hash),
            etag: http::opt_view(self.etag),
            size: self.size,
            mtime: self.mtime,
            cipher_size: self.cipher_size,
            needs_size_probe: self.needs_size_probe,
        }
    }
}

/// The contents of a list of updates.
pub open spec fn update_views(updates: Seq<RemoteUpdate>) -> Seq<UpdateView> {
    updates.map_values(|u: RemoteUpdate| u@)
}

/// What is to be taken over of a remote file that has changed. The size of an
/// encrypted file cannot be told from the listing: it is kept until the header
/// of the new container is read.
pub open spec fn update_for(s: SnapshotView, r: EntryView, now: Span) -> UpdateView {
    UpdateView {
        inode: s.inode,
        xet_hash: r.xet_hash,
        etag: r.oid,
        size: if s.cipher_size is Some {
            s.size
        } else {
            object_size(r)
        },
        mtime: match r.mtime {
            Some(m) => http::mtime_of(http::rfc3339_seconds(m)),
            None => now,
        },
        cipher_size: if s.cipher_size is Some {
            Some(object_size(r))
        } else {
            None
        },
        needs_size_probe: s.cipher_size is Some,
    }
}

/// The update that a listing asks for, if it asks for one. Local writes take
/// precedence until flushed.
pub open spec fn planned_update(
    s: SnapshotView,
    entries: Seq<EntryView>,
    now: Span,
) -> Option<UpdateView> {
    match remote_file(entries, s.path) {
        Some(r) => if !s.dirty && has_changed(s, r) {
            Some(update_for(s, r, now))
        } else {
            None
        },
        None => None,
    }
}

/// Whether a listing shows that a file is gone: it is not listed, although the
/// directory that it lies in was. A file in a directory that was not listed is
/// not gone.
pub open spec fn is_gone(
    s: SnapshotView,
    entries: Seq<EntryView>,
    polled: Seq<Seq<char>>,
) -> bool {
    !s.dirty && remote_file(entries, s.path) is None && polled.contains(inode::parent_path(s.path))
}

/// The updates that a listing asks for.
pub open spec fn planned_updates(
    shots: Seq<SnapshotView>,
    entries: Seq<EntryView>,
    now: Span,
) -> Seq<UpdateView>
    decreases shots.len(),
{
    if shots.len() == 0 {
        Seq::empty()
    } else {
        let rest = planned_updates(shots.drop_last(), entries, now);
        match planned_update(shots.last(), entries, now) {
            Some(u) => rest.push(u),
            None => rest,
        }
    }
}

/// The files that a listing shows to be gone.
pub open spec fn planned_deletions(
    shots: Seq<SnapshotView>,
    entries: Seq<EntryView>,
    polled: Seq<Seq<char>>,
) -> Seq<u64>
    decreases shots.len(),
{
    if shots.len() == 0 {
        Seq::empty()
    } else {
        let rest = planned_deletions(shots.drop_last(), entries, polled);
        if is_gone(shots.last(), entries, polled) {
            rest.push(shots.last().inode)
        } else {
            rest
        }
    }
}

/// What a listing changes: the files to update, and those to drop.
pub struct PollDiff {
    pub updates: Vec<RemoteUpdate>,
    pub deletions: Vec<u64>,
}

/// Position of the entry that says what the remote file at `path` is.
fn find_remote(entries: &Vec<TreeEntry>, path: &str) -> (r: Option<usize>)
    ensures
        match r {
            Some(i) => i < entries@.len() && remote_file(client::entry_views(entries@), path@)
                == Some(entries@[i as int]@),
            None => remote_file(client::entry_views(entries@), path@) is None,
        },
{
    let ghost all = client::entry_views(entries@);
    let mut i: usize = entries.len();
    assert(all.take(i as int) =~= all);
    while i > 0
        invariant
            i <= entries@.len(),
            all == client::entry_views(entries@),
            remote_file(all, path@) == remote_file(all.take(i as int), path@),
        decreases i,
    {
        proof {
            assert(all.take(i as int).drop_last() =~= all.take(i - 1));
            assert(all.take(i as int).last() == entries@[i - 1]@);
        }
        if text::eq(entries[i - 1].entry_type.as_str(), "file") && text::eq(
            entries[i - 1].path.as_str(),
            path,
        ) {
            return Some(i - 1);
        }
        i = i - 1;
    }
    None
}

/// Whether two optional texts are the same.
fn same_opt(a: &Option<String>, b: &Option<String>) -> (r: bool)
    ensures
        r == (http::opt_view(*a) == http::opt_view(*b)),
{
    match (a, b) {
        (Some(x), Some(y)) => text::eq(x.as_str(), y.as_str()),
        (None, None) => true,
        _ => false,
    }
}

/// Whether the remote file is another than the one that the snapshot shows.
fn check_changed(s: &FileSnapshot, r: &TreeEntry) -> (c: bool)
    ensures
        c == has_changed(s@, r@),
{
    let changed: bool = if s.xet_hash.is_some() || r.xet_hash.is_some() {
        !same_opt(&r.xet_hash, &s.xet_hash)
    } else {
        !same_opt(&r.oid, &s.etag)
    };
    let remote_size: u64 = match r.size {
        Some(n) => n,
        None => 0,
    };
    let local_size: u64 = match s.cipher_size {
        Some(n) => n,
        None => s.size,
    };
    changed || remote_size != local_size
}

/// What is to be taken over of a remote file that has changed.
fn make_update(s: &FileSnapshot, r: &TreeEntry, now: Span) -> (u: RemoteUpdate)
    ensures
        u@ == update_for(s@, r@, now),
{
    let remote_size: u64 = match r.size {
        Some(n) => n,
        None => 0,
    };
    let mtime: Span = match &r.mtime {
        Some(m) => http::mtime_from_str(m.as_str()),
        None => now,
    };
    let encrypted: bool = s.cipher_size.is_some();
    RemoteUpdate {
        inode: s.inode,
        xet_hash: http::clone_opt(&r.xet_hash),
        etag: http::clone_opt(&r.oid),
        size: if encrypted {
            s.size
        } else {
            remote_size
        },
        mtime,
        cipher_size: if encrypted {
            Some(remote_size)
        } else {
            None
        },
        needs_size_probe: encrypted,
    }
}

/// Whether a list of strings holds a text.
pub fn list_contains(list: &Vec<String>, s: &str) -> (r: bool)
    ensures
        r == text::views(list@).contains(s@),
{
    let mut i: usize = 0;
    while i < list.len()
        invariant
            i <= list@.len(),
            forall|j: int| 0 <= j < i ==> (#[trigger] list@[j])@ != s@,
        decreases list@.len() - i,
    {
        if text::eq(list[i].as_str(), s) {
            assert(text::views(list@)[i as int] == s@);
            return true;
        }
        i = i + 1;
    }
    proof {
        if text::views(list@).contains(s@) {
            let j = choose|j: int| 0 <= j < list@.len() && text::views(list@)[j] == s@;
            assert(list@[j]@ == s@);
        }
    }
    false
}

/// Compares a listing with a snapshot of the files. `polled` are the directories
/// that were listed successfully; only files in them are eligible for deletion,
/// which prevents spurious deletions when a listing fails or when a directory
/// was invalidated between rounds.
pub fn plan_poll_diff(
    snapshot: &Vec<FileSnapshot>,
    entries: &Vec<TreeEntry>,
    polled: &Vec<String>,
    now: Span,
) -> (diff: PollDiff)
    ensures
        update_views(diff.updates@) == planned_updates(
            inode::snapshot_views(snapshot@),
            client::entry_views(entries@),
            now,
        ),
        diff.deletions@ == planned_deletions(
            inode::snapshot_views(snapshot@),
            client::entry_views(entries@),
            text::views(polled@),
        ),
{
    let ghost shots = inode::snapshot_views(snapshot@);
    let ghost views = client::entry_views(entries@);
    let ghost dirs = text::views(polled@);
    let mut updates: Vec<RemoteUpdate> = Vec::new();
    let mut deletions: Vec<u64> = Vec::new();
    let mut i: usize = 0;
    proof {
        assert(update_views(updates@) =~= Seq::empty());
        assert(shots.take(0) =~= Seq::empty());
    }
    while i < snapshot.len()
        invariant
            i <= snapshot@.len(),
            shots == inode::snapshot_views(snapshot@),
            views == client::entry_views(entries@),
            dirs == text::views(polled@),
            update_views(updates@) == planned_updates(shots.take(i as int), views, now),
            deletions@ == planned_deletions(shots.take(i as int), views, dirs),
        decreases snapshot@.len() - i,
    {
        let s: &FileSnapshot = &snapshot[i];
        let ghost before = updates@;
        proof {
            assert(shots.take(i + 1).drop_last() =~= shots.take(i as int));
            assert(shots.take(i + 1).last() == s@);
        }
        // Skip locally-modified files: local writes take precedence until
        // flushed.
        if !s.dirty {
            match find_remote(entries, s.path.as_str()) {
                Some(k) => {
                    if check_changed(s, &entries[k]) {
                        let u: RemoteUpdate = make_update(s, &entries[k], now);
                        updates.push(u);
                        assert(update_views(updates@) =~= update_views(before).push(u@));
                    }
                },
                None => {
                    let parent: String = inode::parent_of(s.path.as_str());
                    if list_contains(polled, parent.as_str()) {
                        deletions.push(s.inode);
                    }
                },
            }
        }
        i = i + 1;
    }
    assert(shots.take(shots.len() as int) =~= shots);
    PollDiff { updates, deletions }
}

/// The table after an update, which local writes take precedence over.
pub open spec fn after_update(t: Map<u64, InodeView>, u: UpdateView) -> Map<u64, InodeView> {
    if t.dom().contains(u.inode) && !t[u.inode].dirty {
        t.insert(
            u.inode,
            InodeView {
                xet_hash: u.xet_hash,
                etag: u.etag,
                size: u.size,
                mtime: u.mtime,
                cipher_size: u.cipher_size,
                needs_size_probe: u.needs_size_probe,
                ..t[u.inode]
            },
        )
    } else {
        t
    }
}

/// The table after several updates.
pub open spec fn after_updates(t: Map<u64, InodeView>, updates: Seq<UpdateView>) -> Map<
    u64,
    InodeView,
>
    decreases updates.len(),
{
    if updates.len() == 0 {
        t
    } else {
        after_update(after_updates(t, updates.drop_last()), updates.last())
    }
}

/// What the kernel is told of updates.
pub open spec fn updates_invals(t: Map<u64, InodeView>, updates: Seq<UpdateView>) -> Seq<
    (u64, InvalKind),
> {
    updates.map_values(|u: UpdateView| (u.inode, inval_kind(t, u.inode)))
}

/// The table after several remote deletions.
pub open spec fn after_removals(t: Map<u64, InodeView>, inos: Seq<u64>) -> Map<u64, InodeView>
    decreases inos.len(),
{
    if inos.len() == 0 {
        t
    } else {
        after_removal(after_removals(t, inos.drop_last()), inos.last())
    }
}

/// What the kernel is told of several remote deletions.
pub open spec fn removals_invals(t: Map<u64, InodeView>, inos: Seq<u64>) -> Seq<(u64, InvalKind)>
    decreases inos.len(),
{
    if inos.len() == 0 {
        Seq::empty()
    } else {
        removals_invals(t, inos.drop_last()) + removal_invals(
            after_removals(t, inos.drop_last()),
            inos.last(),
        )
    }
}

/// The listed directory whose listing is stale because of `path`: the nearest
/// one on the way there, if nothing is known at `path`. Directories that were
/// never listed hold entries that are simply unexplored, not new.
pub open spec fn stale_dir(t: Map<u64, InodeView>, path: Seq<char>) -> Option<u64> {
    let dir = inode::nearest_dir(t, path);
    if inode::inode_at(t, path) is None && t.dom().contains(dir) && t[dir].children_loaded {
        Some(dir)
    } else {
        None
    }
}

/// The directories whose listing is stale because of what was listed, files and
/// directories alike, each once.
pub open spec fn stale_dirs(t: Map<u64, InodeView>, entries: Seq<EntryView>) -> Seq<u64>
    decreases entries.len(),
{
    if entries.len() == 0 {
        Seq::empty()
    } else {
        let rest = stale_dirs(t, entries.drop_last());
        match stale_dir(t, entries.last().path) {
            Some(dir) => if rest.contains(dir) {
                rest
            } else {
                rest.push(dir)
            },
            None => rest,
        }
    }
}

/// The table after the listings of directories were dropped.
pub open spec fn after_invalidation(t: Map<u64, InodeView>, dirs: Seq<u64>) -> Map<u64, InodeView>
    decreases dirs.len(),
{
    if dirs.len() == 0 {
        t
    } else {
        let before = after_invalidation(t, dirs.drop_last());
        let dir = dirs.last();
        if before.dom().contains(dir) {
            before.insert(dir, InodeView { children_loaded: false, ..before[dir] })
        } else {
            before
        }
    }
}

/// The negative cache after everything in stale directories was forgotten.
pub open spec fn cache_after(
    t: Map<u64, InodeView>,
    dirs: Seq<u64>,
    cache: Seq<(Seq<char>, Span)>,
) -> Seq<(Seq<char>, Span)>
    decreases dirs.len(),
{
    if dirs.len() == 0 {
        cache
    } else {
        negative::retained(
            |k: Seq<char>| !negative::lies_in(t[dirs.last()].path, k),
            cache_after(t, dirs.drop_last(), cache),
        )
    }
}

/// What the kernel is told of stale directories: the cached listing is dropped.
/// Listing does not hold the locks that make page drops deadlock, so a full
/// invalidation is safe.
pub open spec fn dirs_invals(dirs: Seq<u64>) -> Seq<(u64, InvalKind)> {
    dirs.map_values(|d: u64| (d, InvalKind::Pages))
}

/// Whether a list of numbers holds one.
pub(crate) fn has_number(list: &Vec<u64>, n: u64) -> (r: bool)
    ensures
        r == list@.contains(n),
{
    let mut i: usize = 0;
    while i < list.len()
        invariant
            i <= list@.len(),
            forall|j: int| 0 <= j < i ==> list@[j] != n,
        decreases list@.len() - i,
    {
        if list[i] == n {
            assert(list@[i as int] == n);
            return true;
        }
        i = i + 1;
    }
    false
}

proof fn lemma_updates_keep_handles(t: Map<u64, InodeView>, updates: Seq<UpdateView>)
    ensures
        after_updates(t, updates).dom() == t.dom(),
        forall|ino: u64| #[trigger]
            t.dom().contains(ino) ==> after_updates(t, updates)[ino].open_handles
                == t[ino].open_handles,
    decreases updates.len(),
{
    if updates.len() > 0 {
        lemma_updates_keep_handles(t, updates.drop_last());
        assert(after_updates(t, updates).dom() =~= t.dom());
    }
}

/// Carries out the updates.
fn apply_updates(
    inode_table: &mut InodeTable,
    updates: &Vec<RemoteUpdate>,
    invals: &mut Vec<(u64, InvalKind)>,
)
    requires
        old(inode_table).wf(),
    ensures
        final(inode_table).wf(),
        final(inode_table)@ == after_updates(old(inode_table)@, update_views(updates@)),
        final(invals)@ == old(invals)@ + updates_invals(
            old(inode_table)@,
            update_views(updates@),
        ),
{
    let ghost t0 = inode_table@;
    let ghost all = update_views(updates@);
    let ghost queue = invals@;
    let mut i: usize = 0;
    proof {
        assert(all.take(0) =~= Seq::empty());
        assert(queue + updates_invals(t0, all.take(0)) =~= queue);
    }
    while i < updates.len()
        invariant
            i <= updates@.len(),
            all == update_views(updates@),
            inode_table.wf(),
            inode_table@ == after_updates(t0, all.take(i as int)),
            invals@ == queue + updates_invals(t0, all.take(i as int)),
        decreases updates@.len() - i,
    {
        let u: &RemoteUpdate = &updates[i];
        let ghost before = inode_table@;
        proof {
            assert(all.take(i + 1).drop_last() =~= all.take(i as int));
            assert(all.take(i + 1).last() == u@);
            lemma_updates_keep_handles(t0, all.take(i as int));
            lemma_updates_keep_handles(t0, all.take(i + 1));
        }
        let updated: bool = inode_table.update_remote_file(
            u.inode,
            http::clone_opt(&u.xet_hash),
            http::clone_opt(&u.etag),
            u.size,
            u.mtime,
            u.cipher_size,
        );
        if updated {
            inode_table.set_needs_size_probe(u.inode, u.needs_size_probe);
        }
        proof {
            assert(inode_table@ =~= after_update(before, u@));
            assert(inode_table@ == after_updates(t0, all.take(i + 1)));
            assert(inval_kind(inode_table@, u.inode) == inval_kind(t0, u.inode));
        }
        queue_file_invalidation(inode_table, u.inode, invals);
        proof {
            assert(invals@ =~= queue + updates_invals(t0, all.take(i + 1)));
        }
        i = i + 1;
    }
    assert(all.take(all.len() as int) =~= all);
}

/// Carries out the deletions. The table may have changed since the snapshot:
/// what has gone or become dirty is left alone.
fn apply_removals(
    inode_table: &mut InodeTable,
    inos: &Vec<u64>,
    invals: &mut Vec<(u64, InvalKind)>,
)
    requires
        old(inode_table).wf(),
        !inos@.contains(ROOT_INODE),
    ensures
        final(inode_table).wf(),
        final(inode_table)@ == after_removals(old(inode_table)@, inos@),
        final(invals)@ == old(invals)@ + removals_invals(old(inode_table)@, inos@),
{
    let ghost t0 = inode_table@;
    let ghost queue = invals@;
    let mut i: usize = 0;
    proof {
        assert(inos@.take(0) =~= Seq::empty());
        assert(queue + Seq::<(u64, InvalKind)>::empty() =~= queue);
    }
    while i < inos.len()
        invariant
            i <= inos@.len(),
            inode_table.wf(),
            !inos@.contains(ROOT_INODE),
            inode_table@ == after_removals(t0, inos@.take(i as int)),
            invals@ == queue + removals_invals(t0, inos@.take(i as int)),
        decreases inos@.len() - i,
    {
        proof {
            assert(inos@.take(i + 1).drop_last() =~= inos@.take(i as int));
            assert(inos@.take(i + 1).last() == inos@[i as int]);
            assert(inos@.contains(inos@[i as int]));
        }
        let ghost t1 = inode_table@;
        let ghost before = invals@;
        remove_remote_file(inode_table, inos[i], invals);
        proof {
            let step = removal_invals(t1, inos@[i as int]);
            let done = removals_invals(t0, inos@.take(i as int));
            assert((queue + done) + step =~= queue + (done + step));
        }
        i = i + 1;
    }
    assert(inos@.take(inos@.len() as int) =~= inos@);
}

/// The directories whose listing is stale because of what was listed, with their
/// paths.
fn find_stale_dirs(inode_table: &InodeTable, entries: &Vec<TreeEntry>) -> (r: (
    Vec<u64>,
    Vec<String>,
))
    requires
        inode_table.wf(),
    ensures
        r.0@ == stale_dirs(inode_table@, client::entry_views(entries@)),
        r.1@.len() == r.0@.len(),
        forall|i: int|
            0 <= i < r.0@.len() ==> inode_table@.dom().contains(#[trigger] r.0@[i]) && r.1@[i]@
                == inode_table@[r.0@[i]].path,
{
    let ghost all = client::entry_views(entries@);
    let mut dirs: Vec<u64> = Vec::new();
    let mut paths: Vec<String> = Vec::new();
    let mut i: usize = 0;
    assert(all.take(0) =~= Seq::empty());
    while i < entries.len()
        invariant
            i <= entries@.len(),
            inode_table.wf(),
            all == client::entry_views(entries@),
            dirs@ == stale_dirs(inode_table@, all.take(i as int)),
            paths@.len() == dirs@.len(),
            forall|j: int|
                0 <= j < dirs@.len() ==> inode_table@.dom().contains(#[trigger] dirs@[j])
                    && paths@[j]@ == inode_table@[dirs@[j]].path,
        decreases entries@.len() - i,
    {
        let path: &str = entries[i].path.as_str();
        proof {
            assert(all.take(i + 1).drop_last() =~= all.take(i as int));
            assert(all.take(i + 1).last() == entries@[i as int]@);
        }
        if inode_table.get_by_path(path).is_none() {
            let (dir, dir_path) = inode_table.nearest_dir_ancestor(path);
            if inode_table.is_children_loaded(dir) && !has_number(&dirs, dir) {
                dirs.push(dir);
                paths.push(dir_path);
            }
        }
        i = i + 1;
    }
    assert(all.take(all.len() as int) =~= all);
    (dirs, paths)
}

/// Drops the listings of directories.
pub(crate) fn drop_listings(inode_table: &mut InodeTable, dirs: &Vec<u64>)
    requires
        old(inode_table).wf(),
    ensures
        final(inode_table).wf(),
        final(inode_table)@ == after_invalidation(old(inode_table)@, dirs@),
{
    let ghost t0 = inode_table@;
    let mut i: usize = 0;
    assert(dirs@.take(0) =~= Seq::empty());
    while i < dirs.len()
        invariant
            i <= dirs@.len(),
            inode_table.wf(),
            inode_table@ == after_invalidation(t0, dirs@.take(i as int)),
        decreases dirs@.len() - i,
    {
        proof {
            assert(dirs@.take(i + 1).drop_last() =~= dirs@.take(i as int));
            assert(dirs@.take(i + 1).last() == dirs@[i as int]);
        }
        inode_table.invalidate_children(dirs[i]);
        i = i + 1;
    }
    assert(dirs@.take(dirs@.len() as int) =~= dirs@);
}

/// Queues the kernel invalidations of directories.
pub(crate) fn queue_dirs(dirs: &Vec<u64>, invals: &mut Vec<(u64, InvalKind)>)
    ensures
        final(invals)@ == old(invals)@ + dirs_invals(dirs@),
{
    let ghost queue = invals@;
    let mut i: usize = 0;
    assert(queue + dirs_invals(dirs@.take(0)) =~= queue);
    while i < dirs.len()
        invariant
            i <= dirs@.len(),
            invals@ == queue + dirs_invals(dirs@.take(i as int)),
        decreases dirs@.len() - i,
    {
        invals.push((dirs[i], InvalKind::Pages));
        assert(invals@ =~= queue + dirs_invals(dirs@.take(i + 1)));
        i = i + 1;
    }
    assert(dirs@.take(dirs@.len() as int) =~= dirs@);
}

/// What applying a diff does to the table.
pub open spec fn table_after_diff(
    t: Map<u64, InodeView>,
    updates: Seq<UpdateView>,
    deletions: Seq<u64>,
    entries: Seq<EntryView>,
) -> Map<u64, InodeView> {
    let reconciled = after_removals(after_updates(t, updates), deletions);
    after_invalidation(reconciled, stale_dirs(reconciled, entries))
}

/// What the kernel is told when a diff is applied.
pub open spec fn invals_of_diff(
    t: Map<u64, InodeView>,
    updates: Seq<UpdateView>,
    deletions: Seq<u64>,
    entries: Seq<EntryView>,
) -> Seq<(u64, InvalKind)> {
    let updated = after_updates(t, updates);
    let reconciled = after_removals(updated, deletions);
    updates_invals(t, updates) + removals_invals(updated, deletions) + dirs_invals(
        stale_dirs(reconciled, entries),
    )
}

/// What applying a diff does to the negative cache.
pub open spec fn cache_after_diff(
    t: Map<u64, InodeView>,
    updates: Seq<UpdateView>,
    deletions: Seq<u64>,
    entries: Seq<EntryView>,
    cache: Seq<(Seq<char>, Span)>,
) -> Seq<(Seq<char>, Span)> {
    let reconciled = after_removals(after_updates(t, updates), deletions);
    cache_after(reconciled, stale_dirs(reconciled, entries), cache)
}

/// Forgets what is known to be missing in stale directories.
fn forget_dirs(negative_cache: &mut NegativeCache, paths: &Vec<String>, t: Ghost<Map<u64, InodeView>>, dirs: Ghost<Seq<u64>>)
    requires
        paths@.len() == dirs@.len(),
        forall|i: int| 0 <= i < dirs@.len() ==> (#[trigger] paths@[i])@ == t@[dirs@[i]].path,
    ensures
        final(negative_cache)@ == cache_after(t@, dirs@, old(negative_cache)@),
{
    let ghost start = negative_cache@;
    let mut i: usize = 0;
    assert(dirs@.take(0) =~= Seq::empty());
    while i < paths.len()
        invariant
            i <= paths@.len(),
            paths@.len() == dirs@.len(),
            forall|j: int| 0 <= j < dirs@.len() ==> (#[trigger] paths@[j])@ == t@[dirs@[j]].path,
            negative_cache@ == cache_after(t@, dirs@.take(i as int), start),
        decreases paths@.len() - i,
    {
        proof {
            assert(dirs@.take(i + 1).drop_last() =~= dirs@.take(i as int));
            assert(dirs@.take(i + 1).last() == dirs@[i as int]);
            assert(paths@[i as int]@ == t@[dirs@[i as int]].path);
        }
        negative_cache.forget_dir(paths[i].as_str());
        i = i + 1;
    }
    assert(dirs@.take(dirs@.len() as int) =~= dirs@);
}

/// Applies a diff: updates and drops files, drops the listings of the
/// directories in which something new has appeared, and forgets what was known
/// to be missing there. The root is not among what is dropped. Returns what the
/// kernel is to be told, in order.
pub fn apply_diff(
    diff: &PollDiff,
    entries: &Vec<TreeEntry>,
    inode_table: &mut InodeTable,
    negative_cache: &mut NegativeCache,
) -> (invals: Vec<(u64, InvalKind)>)
    requires
        old(inode_table).wf(),
        !diff.deletions@.contains(ROOT_INODE),
    ensures
        final(inode_table).wf(),
        final(inode_table)@ == table_after_diff(
            old(inode_table)@,
            update_views(diff.updates@),
            diff.deletions@,
            client::entry_views(entries@),
        ),
        invals@ == invals_of_diff(
            old(inode_table)@,
            update_views(diff.updates@),
            diff.deletions@,
            client::entry_views(entries@),
        ),
        final(negative_cache)@ == cache_after_diff(
            old(inode_table)@,
            update_views(diff.updates@),
            diff.deletions@,
            client::entry_views(entries@),
            old(negative_cache)@,
        ),
{
    let mut invals: Vec<(u64, InvalKind)> = Vec::new();
    let ghost t0 = inode_table@;
    let ghost us = update_views(diff.updates@);
    apply_updates(inode_table, &diff.updates, &mut invals);
    assert(invals@ =~= updates_invals(t0, us));
    apply_removals(inode_table, &diff.deletions, &mut invals);
    let (dirs, paths) = find_stale_dirs(inode_table, entries);
    let ghost reconciled = inode_table@;
    forget_dirs(negative_cache, &paths, Ghost(reconciled), Ghost(dirs@));
    drop_listings(inode_table, &dirs);
    queue_dirs(&dirs, &mut invals);
    invals
}

/// Apply a single poll diff: compare remote entries against the inode table,
/// detect updates/deletions/creations, and invalidate affected directories.
/// `polled_prefixes` are the directories that were listed successfully, and
/// `now` is the modification time of files that the listing gives none for.
/// Returns what the kernel is to be told, in order.
pub fn apply_poll_diff(
    remote_entries: &Vec<TreeEntry>,
    polled_prefixes: &Vec<String>,
    inode_table: &mut InodeTable,
    negative_cache: &mut NegativeCache,
    now: Span,
) -> (invals: Vec<(u64, InvalKind)>)
    requires
        old(inode_table).wf(),
    ensures
        final(inode_table).wf(),
        exists|shots: Seq<SnapshotView>|
            #![trigger inode::shows_files(old(inode_table)@, shots)]
            inode::shows_files(old(inode_table)@, shots) && ({
                let entries = client::entry_views(remote_entries@);
                let us = planned_updates(shots, entries, now);
                let ds = planned_deletions(shots, entries, text::views(polled_prefixes@));
                &&& final(inode_table)@ == table_after_diff(old(inode_table)@, us, ds, entries)
                &&& invals@ == invals_of_diff(old(inode_table)@, us, ds, entries)
                &&& final(negative_cache)@ == cache_after_diff(
                    old(inode_table)@,
                    us,
                    ds,
                    entries,
                    old(negative_cache)@,
                )
            }),
{
    let snapshot: Vec<FileSnapshot> = inode_table.file_snapshot();
    let diff: PollDiff = plan_poll_diff(&snapshot, remote_entries, polled_prefixes, now);
    proof {
        let shots = inode::snapshot_views(snapshot@);
        inode_table.law_paths_are_unambiguous();
        poll_laws::lemma_root_is_not_deleted(
            inode_table@,
            shots,
            client::entry_views(remote_entries@),
            text::views(polled_prefixes@),
        );
    }
    apply_diff(&diff, remote_entries, inode_table, negative_cache)
}

} // verus!
