//! The inode table: what the mount knows of the files and directories that
//! have been visited.

use vstd::prelude::*;

use crate::hub_api::http;
use crate::text;
use crate::time::Span;

verus! {

/// Number of the root directory.
pub const ROOT_INODE: u64 = 1;

/// What an inode is.
#[derive(Debug, Clone, Copy, PartialEq, Eq, Structural)]
pub enum InodeKind {
    File,
    Directory,
}

/// One file or directory.
#[derive(Debug, Clone)]
pub struct InodeEntry {
    pub inode: u64,
    pub parent: u64,
    pub name: String,
    /// Path below the mount point, without a slash in front.
    pub full_path: String,
    pub kind: InodeKind,
    pub xet_hash: Option<String>,
    pub etag: Option<String>,
    /// Size that the user sees.
    pub size: u64,
    pub mtime: Span,
    /// Size of the remote object, where that is an encrypted container.
    pub cipher_size: Option<u64>,
    /// Whether the size is out of date until the container's header is read.
    pub needs_size_probe: bool,
    /// Whether there are local writes that are not flushed.
    pub dirty: bool,
    /// Whether the children of a directory have been listed.
    pub children_loaded: bool,
    /// How many names lead here; an inode without one is kept for its open
    /// handles only.
    pub nlink: u32,
    /// How many handles are open.
    pub open_handles: u32,
}

/// The contents of an inode.
#[verifier::ext_equal]
pub struct InodeView {
    pub parent: u64,
    pub name: Seq<char>,
    pub path: Seq<char>,
    pub kind: InodeKind,
    pub xet_hash: Option<Seq<char>>,
    pub etag: Option<Seq<char>>,
    pub size: u64,
    pub mtime: Span,
    pub cipher_size: Option<u64>,
    pub needs_size_probe: bool,
    pub dirty: bool,
    pub children_loaded: bool,
    pub nlink: u32,
    pub open_handles: u32,
}

impl View for InodeEntry {
    type V = InodeView;

    open spec fn view(&self) -> InodeView {
        InodeView {
            parent: self.parent,
            name: self.name@,
            path: self.full_path@,
            kind: self.kind,
            xet_hash: http::opt_view(self.xet_hash),
            etag: http::opt_view(self.etag),
            size: self.size,
            mtime: self.mtime,
            cipher_size: self.cipher_size,
            needs_size_probe: self.needs_size_probe,
            dirty: self.dirty,
            children_loaded: self.children_loaded,
            nlink: self.nlink,
            open_handles: self.open_handles,
        }
    }
}

impl InodeEntry {
    /// Whether there are local writes that are not flushed.
    pub fn is_dirty(&self) -> (r: bool)
        ensures
            r == self@.dirty,
    {
        self.dirty
    }
}

/// Whether `ino` is what `path` leads to.
pub open spec fn visible(t: Map<u64, InodeView>, ino: u64, path: Seq<char>) -> bool {
    t.dom().contains(ino) && t[ino].nlink > 0 && t[ino].path == path
}

/// What `path` leads to.
pub open spec fn inode_at(t: Map<u64, InodeView>, path: Seq<char>) -> Option<u64> {
    if exists|ino: u64| visible(t, ino, path) {
        Some(choose|ino: u64| visible(t, ino, path))
    } else {
        None
    }
}

/// Whether what `ino` lies in is a directory, as far as the table holds it.
pub open spec fn lies_in_directory(t: Map<u64, InodeView>, ino: u64) -> bool {
    t.dom().contains(ino) && t.dom().contains(t[ino].parent) ==> t[t[ino].parent].kind
        == InodeKind::Directory
}

/// Whether `e` can stand in the table as inode `ino`: what it lies in is a
/// directory, and so is `e` itself if anything lies in it.
pub open spec fn fits_among(t: Map<u64, InodeView>, ino: u64, e: InodeView) -> bool {
    &&& t.dom().contains(e.parent) ==> t[e.parent].kind == InodeKind::Directory
    &&& e.kind == InodeKind::Directory || (e.parent != ino && forall|child: u64| #[trigger]
        t.dom().contains(child) ==> t[child].parent != ino)
}

/// What holds of every inode table: the root directory is there, no path leads
/// to two inodes, and nothing lies in a file.
pub open spec fn table_wf(t: Map<u64, InodeView>) -> bool {
    &&& visible(t, ROOT_INODE, Seq::empty())
    &&& t[ROOT_INODE].kind == InodeKind::Directory
    &&& forall|a: u64, b: u64, p: Seq<char>|
        #[trigger] visible(t, a, p) && #[trigger] visible(t, b, p) ==> a == b
    &&& forall|ino: u64| #[trigger] lies_in_directory(t, ino)
}

/// Position of the last `/`, or -1 if there is none.
pub open spec fn last_slash(path: Seq<char>) -> int
    decreases path.len(),
{
    if path.len() == 0 {
        -1
    } else if path.last() == '/' {
        path.len() - 1
    } else {
        last_slash(path.drop_last())
    }
}

/// The path of the directory that `path` lies in.
pub open spec fn parent_path(path: Seq<char>) -> Seq<char> {
    if last_slash(path) < 0 {
        Seq::empty()
    } else {
        path.take(last_slash(path))
    }
}

pub proof fn lemma_last_slash(path: Seq<char>)
    ensures
        -1 <= last_slash(path) < path.len(),
        last_slash(path) >= 0 ==> path[last_slash(path)] == '/',
        forall|i: int| last_slash(path) < i < path.len() ==> #[trigger] path[i] != '/',
    decreases path.len(),
{
    if path.len() > 0 && path.last() != '/' {
        let head = path.drop_last();
        lemma_last_slash(head);
        assert forall|i: int| last_slash(path) < i < path.len() implies #[trigger] path[i] != '/' by {
            if i < head.len() {
                assert(path[i] == head[i]);
            }
        }
    }
}

/// A name in a directory lies in that directory, and one at the top in the root.
pub proof fn law_parent_of_a_name(dir: Seq<char>, name: Seq<char>)
    requires
        !name.contains('/'),
    ensures
        parent_path(dir.push('/') + name) == dir,
        parent_path(name) == Seq::<char>::empty(),
{
    let path = dir.push('/') + name;
    lemma_last_slash(path);
    lemma_last_slash(name);
    assert(path[dir.len() as int] == '/');
    assert forall|i: int| dir.len() < i < path.len() implies path[i] != '/' by {
        assert(path[i] == name[i - dir.len() - 1]);
    }
    assert(last_slash(path) == dir.len());
    assert(path.take(dir.len() as int) =~= dir);
}

/// A path leads to the inode that is linked there, and nowhere if none is.
pub proof fn law_path_leads_to_its_inode(t: Map<u64, InodeView>, path: Seq<char>, ino: u64)
    requires
        table_wf(t),
    ensures
        inode_at(t, path) == Some(ino) <==> t.dom().contains(ino) && t[ino].nlink > 0 && t[ino].path
            == path,
{
    if exists|i: u64| visible(t, i, path) {
        let i = choose|i: u64| visible(t, i, path);
        assert(visible(t, i, path));
        if t.dom().contains(ino) && t[ino].nlink > 0 && t[ino].path == path {
            assert(visible(t, ino, path));
        }
    } else {
        assert(!visible(t, ino, path));
    }
}

/// The nearest directory on the way to `path` that the table holds, starting
/// from the one that `path` lies in.
pub open spec fn nearest_dir(t: Map<u64, InodeView>, path: Seq<char>) -> u64
    decreases path.len(),
{
    if last_slash(path) < 0 {
        ROOT_INODE
    } else {
        proof {
            lemma_last_slash(path);
        }
        let dir = parent_path(path);
        match inode_at(t, dir) {
            Some(ino) => if t[ino].kind == InodeKind::Directory {
                ino
            } else {
                nearest_dir(t, dir)
            },
            None => nearest_dir(t, dir),
        }
    }
}

/// The nearest directory is a directory that the table holds on the way to the
/// path, and none that it holds lies deeper.
pub proof fn law_nearest_dir_is_nearest(t: Map<u64, InodeView>, path: Seq<char>, other: u64)
    requires
        table_wf(t),
    ensures
        ({
            let dir = nearest_dir(t, path);
            &&& t.dom().contains(dir)
            &&& t[dir].nlink > 0
            &&& t[dir].kind == InodeKind::Directory
            &&& t[dir].path.len() == 0 || t[dir].path.push('/').is_prefix_of(path)
            &&& t.dom().contains(other) && t[other].nlink > 0 && t[other].kind
                == InodeKind::Directory && t[other].path.push('/').is_prefix_of(path)
                ==> t[other].path.len() <= t[dir].path.len()
        }),
    decreases path.len(),
{
    lemma_last_slash(path);
    let dir = nearest_dir(t, path);
    assert(visible(t, ROOT_INODE, Seq::empty()));
    let q = t[other].path;
    if q.push('/').is_prefix_of(path) {
        assert(path[q.len() as int] == q.push('/')[q.len() as int]);
        assert(q.len() <= last_slash(path));
        assert(q =~= path.take(q.len() as int)) by {
            assert forall|i: int| 0 <= i < q.len() implies q[i] == path[i] by {
                assert(q.push('/')[i] == path[i]);
            }
        }
    }
    if last_slash(path) >= 0 {
        let up = parent_path(path);
        law_nearest_dir_is_nearest(t, up, other);
        assert(path.take(up.len() as int + 1) =~= up.push('/'));
        if inode_at(t, up) is Some {
            law_path_leads_to_its_inode(t, up, inode_at(t, up)->0);
        }
        if inode_at(t, up) is Some && t[inode_at(t, up)->0].kind == InodeKind::Directory {
        } else {
            let near = t[dir].path;
            if near.push('/').is_prefix_of(up) {
                assert(path.take(near.len() as int + 1) =~= near.push('/'));
            }
            if t.dom().contains(other) && t[other].nlink > 0 && t[other].kind
                == InodeKind::Directory && q.push('/').is_prefix_of(path) {
                if q.len() == up.len() {
                    assert(q =~= up);
                    law_path_leads_to_its_inode(t, up, other);
                } else {
                    assert(up.take(q.len() as int + 1) =~= q.push('/'));
                }
            }
        }
    }
}

/// The path of the directory that `path` lies in.
pub fn parent_of(path: &str) -> (r: String)
    ensures
        r@ == parent_path(path@),
{
    let v: Vec<char> = text::chars_of(path);
    let mut i: usize = v.len();
    assert(v@.take(i as int) =~= v@);
    while i > 0
        invariant
            i <= v@.len(),
            v@ == path@,
            last_slash(v@) == last_slash(v@.take(i as int)),
        decreases i,
    {
        if v[i - 1] == '/' {
            assert(v@.take(i as int).last() == '/');
            let r: String = text::string_of(&v, 0, i - 1);
            assert(r@ =~= v@.take(i - 1));
            return r;
        }
        assert(v@.take(i as int).drop_last() =~= v@.take(i - 1));
        i = i - 1;
    }
    String::new()
}

/// Whether `path` lies in a directory below the root.
pub fn has_parent(path: &str) -> (r: bool)
    ensures
        r == (last_slash(path@) >= 0),
{
    proof {
        lemma_last_slash(path@);
        if path@.contains('/') {
            let j = choose|j: int| 0 <= j < path@.len() && path@[j] == '/';
            assert(path@[j] == '/');
        }
    }
    text::contains_char(path, '/')
}

/// The inodes by number.
pub struct InodeTable {
    entries: Vec<InodeEntry>,
}

/// What a file looked like when a snapshot was taken.
#[derive(Debug, Clone)]
pub struct FileSnapshot {
    pub inode: u64,
    pub path: String,
    pub xet_hash: Option<String>,
    pub etag: Option<String>,
    pub size: u64,
    pub dirty: bool,
    pub cipher_size: Option<u64>,
}

/// The contents of a snapshot.
#[verifier::ext_equal]
pub struct SnapshotView {
    pub inode: u64,
    pub path: Seq<char>,
    pub xet_hash: Option<Seq<char>>,
    pub etag: Option<Seq<char>>,
    pub size: u64,
    pub dirty: bool,
    pub cipher_size: Option<u64>,
}

impl View for FileSnapshot {
    type V = SnapshotView;

    open spec fn view(&self) -> SnapshotView {
        SnapshotView {
            inode: self.inode,
            path: self.path@,
            xet_hash: http::opt_view(self.xet_hash),
            etag: http::opt_view(self.etag),
            size: self.size,
            dirty: self.dirty,
            cipher_size: self.cipher_size,
        }
    }
}

/// What `e` looks like as inode `ino`.
pub open spec fn snapshot_of(ino: u64, e: InodeView) -> SnapshotView {
    SnapshotView {
        inode: ino,
        path: e.path,
        xet_hash: e.xet_hash,
        etag: e.etag,
        size: e.size,
        dirty: e.dirty,
        cipher_size: e.cipher_size,
    }
}

/// The contents of a list of snapshots.
pub open spec fn snapshot_views(snapshots: Seq<FileSnapshot>) -> Seq<SnapshotView> {
    snapshots.map_values(|s: FileSnapshot| s@)
}

/// Whether `shots` shows every file that a path leads to, once.
pub open spec fn shows_files(t: Map<u64, InodeView>, shots: Seq<SnapshotView>) -> bool {
    &&& forall|i: int|
        0 <= i < shots.len() ==> is_linked_file(t, (#[trigger] shots[i]).inode) && shots[i]
            == snapshot_of(shots[i].inode, t[shots[i].inode])
    &&& forall|i: int, j: int|
        0 <= i < j < shots.len() ==> (#[trigger] shots[i]).inode != (#[trigger] shots[j]).inode
    &&& forall|ino: u64| #[trigger]
        is_linked_file(t, ino) ==> exists|i: int|
            0 <= i < shots.len() && (#[trigger] shots[i]).inode == ino
}

/// Whether `ino` is a file that some path leads to.
pub open spec fn is_linked_file(t: Map<u64, InodeView>, ino: u64) -> bool {
    t.dom().contains(ino) && t[ino].nlink > 0 && t[ino].kind == InodeKind::File
}

/// Whether `ino` is a directory whose children have been listed.
pub open spec fn is_loaded_dir(t: Map<u64, InodeView>, ino: u64) -> bool {
    t.dom().contains(ino) && t[ino].nlink > 0 && t[ino].kind == InodeKind::Directory
        && t[ino].children_loaded
}

/// Whether `path` leads to a directory whose children have been listed.
pub open spec fn is_loaded_path(t: Map<u64, InodeView>, path: Seq<char>) -> bool {
    exists|ino: u64| #[trigger] is_loaded_dir(t, ino) && t[ino].path == path
}

/// Whether the size of `ino` is to be read from its container's header.
pub open spec fn awaits_probe(t: Map<u64, InodeView>, ino: u64) -> bool {
    t.dom().contains(ino) && t[ino].needs_size_probe && !t[ino].dirty && t[ino].xet_hash is Some
        && t[ino].cipher_size is Some
}

spec fn index_of(entries: Seq<InodeEntry>, ino: u64) -> int {
    choose|i: int| 0 <= i < entries.len() && (#[trigger] entries[i]).inode == ino
}

spec fn has_inode(entries: Seq<InodeEntry>, ino: u64) -> bool {
    exists|i: int| 0 <= i < entries.len() && (#[trigger] entries[i]).inode == ino
}

spec fn as_map(entries: Seq<InodeEntry>) -> Map<u64, InodeView> {
    Map::new(|ino: u64| has_inode(entries, ino), |ino: u64| entries[index_of(entries, ino)]@)
}

spec fn distinct(entries: Seq<InodeEntry>) -> bool {
    forall|i: int, j: int|
        0 <= i < j < entries.len() ==> (#[trigger] entries[i]).inode != (#[trigger] entries[j]).inode
}

proof fn lemma_entry(entries: Seq<InodeEntry>, i: int)
    requires
        distinct(entries),
        0 <= i < entries.len(),
    ensures
        as_map(entries).dom().contains(entries[i].inode),
        as_map(entries)[entries[i].inode] == entries[i]@,
{
    let ino = entries[i].inode;
    assert(has_inode(entries, ino));
    let k = index_of(entries, ino);
    assert(k == i);
}

/// Replacing an entry by another with its number.
proof fn lemma_replace(before: Seq<InodeEntry>, after: Seq<InodeEntry>, i: int)
    requires
        distinct(before),
        0 <= i < before.len(),
        after.len() == before.len(),
        forall|j: int| 0 <= j < before.len() && j != i ==> after[j] == before[j],
        after[i].inode == before[i].inode,
    ensures
        distinct(after),
        as_map(after) == as_map(before).insert(before[i].inode, after[i]@),
{
    assert forall|j: int, k: int| 0 <= j < k < after.len() implies (#[trigger] after[j]).inode != (
    #[trigger] after[k]).inode by {
        assert(before[j].inode != before[k].inode);
        assert(after[j].inode == before[j].inode);
        assert(after[k].inode == before[k].inode);
    }
    assert forall|ino: u64| has_inode(after, ino) == has_inode(before, ino) by {
        if has_inode(after, ino) {
            let k = index_of(after, ino);
            assert(before[k].inode == ino);
        }
        if has_inode(before, ino) {
            let k = index_of(before, ino);
            assert(after[k].inode == ino);
        }
    }
    let m = as_map(before).insert(before[i].inode, after[i]@);
    lemma_entry(before, i);
    assert forall|ino: u64| as_map(after).dom().contains(ino) implies #[trigger] as_map(after)[ino]
        == m[ino] by {
        let k = index_of(after, ino);
        assert(after[k].inode == ino);
        lemma_entry(after, k);
        lemma_entry(before, k);
        assert(before[k].inode == ino);
        if k != i {
            assert(before[k].inode != before[i].inode);
        }
    }
    assert(as_map(after) =~= m);
}

proof fn lemma_remove(before: Seq<InodeEntry>, i: int)
    requires
        distinct(before),
        0 <= i < before.len(),
    ensures
        distinct(before.remove(i)),
        as_map(before.remove(i)) == as_map(before).remove(before[i].inode),
{
    let after = before.remove(i);
    let gone = before[i].inode;
    assert forall|j: int, k: int| 0 <= j < k < after.len() implies (#[trigger] after[j]).inode != (
    #[trigger] after[k]).inode by {
        let j0 = if j < i {
            j
        } else {
            j + 1
        };
        let k0 = if k < i {
            k
        } else {
            k + 1
        };
        assert(after[j] == before[j0] && after[k] == before[k0]);
        assert(before[j0].inode != before[k0].inode);
    }
    assert forall|ino: u64| has_inode(after, ino) == (has_inode(before, ino) && ino != gone) by {
        if has_inode(after, ino) {
            let k = index_of(after, ino);
            let k0 = if k < i {
                k
            } else {
                k + 1
            };
            assert(after[k] == before[k0]);
            assert(before[k0].inode == ino);
            if k0 < i {
                assert(before[k0].inode != before[i].inode);
            } else {
                assert(before[i].inode != before[k0].inode);
            }
        }
        if has_inode(before, ino) && ino != gone {
            let k = index_of(before, ino);
            let k1 = if k < i {
                k
            } else {
                k - 1
            };
            assert(after[k1] == before[k]);
        }
    }
    let m = as_map(before).remove(gone);
    assert forall|ino: u64| as_map(after).dom().contains(ino) implies #[trigger] as_map(after)[ino]
        == m[ino] by {
        let k = index_of(after, ino);
        let k0 = if k < i {
            k
        } else {
            k + 1
        };
        assert(after[k] == before[k0]);
        lemma_entry(after, k);
        lemma_entry(before, k0);
    }
    assert(as_map(after) =~= m);
}

proof fn lemma_push(before: Seq<InodeEntry>, e: InodeEntry)
    requires
        distinct(before),
        !has_inode(before, e.inode),
    ensures
        distinct(before.push(e)),
        as_map(before.push(e)) == as_map(before).insert(e.inode, e@),
{
    let after = before.push(e);
    assert forall|j: int, k: int| 0 <= j < k < after.len() implies (#[trigger] after[j]).inode != (
    #[trigger] after[k]).inode by {
        assert(after[j] == before[j]);
        if k < before.len() {
            assert(before[j].inode != before[k].inode);
        } else {
            assert(before[j].inode != e.inode);
        }
    }
    assert forall|ino: u64| has_inode(after, ino) == (has_inode(before, ino) || ino == e.inode) by {
        if has_inode(after, ino) {
            let k = index_of(after, ino);
            if k < before.len() {
                assert(before[k].inode == ino);
            }
        }
        if has_inode(before, ino) {
            let k = index_of(before, ino);
            assert(after[k].inode == ino);
        }
        if ino == e.inode {
            assert(after[before.len() as int].inode == ino);
        }
    }
    let m = as_map(before).insert(e.inode, e@);
    assert forall|ino: u64| as_map(after).dom().contains(ino) implies #[trigger] as_map(after)[ino]
        == m[ino] by {
        let k = index_of(after, ino);
        lemma_entry(after, k);
        if k < before.len() {
            assert(after[k] == before[k]);
            lemma_entry(before, k);
        }
    }
    assert(as_map(after) =~= m);
}

impl View for InodeTable {
    type V = Map<u64, InodeView>;

    closed spec fn view(&self) -> Map<u64, InodeView> {
        as_map(self.entries@)
    }
}

/// The root directory before it was listed.
pub open spec fn fresh_root(mtime: Span) -> InodeView {
    InodeView {
        parent: ROOT_INODE,
        name: Seq::empty(),
        path: Seq::empty(),
        kind: InodeKind::Directory,
        xet_hash: None,
        etag: None,
        size: 0,
        mtime,
        cipher_size: None,
        needs_size_probe: false,
        dirty: false,
        children_loaded: false,
        nlink: 1,
        open_handles: 0,
    }
}

impl InodeTable {
    /// Whether every inode has a number of its own, and what holds of every
    /// inode table holds.
    pub closed spec fn wf(&self) -> bool {
        distinct(self.entries@) && table_wf(self@)
    }

    /// In every table the root directory is there, no path leads to two inodes,
    /// and nothing lies in a file.
    pub proof fn law_paths_are_unambiguous(&self)
        requires
            self.wf(),
        ensures
            table_wf(self@),
    {
    }

    /// A table that holds the root directory only, not listed yet.
    pub fn new(mtime: Span) -> (t: InodeTable)
        ensures
            t.wf(),
            t@ == Map::<u64, InodeView>::empty().insert(ROOT_INODE, fresh_root(mtime)),
    {
        let root = InodeEntry {
            inode: ROOT_INODE,
            parent: ROOT_INODE,
            name: String::new(),
            full_path: String::new(),
            kind: InodeKind::Directory,
            xet_hash: None,
            etag: None,
            size: 0,
            mtime,
            cipher_size: None,
            needs_size_probe: false,
            dirty: false,
            children_loaded: false,
            nlink: 1,
            open_handles: 0,
        };
        let mut entries: Vec<InodeEntry> = Vec::new();
        proof {
            assert(!has_inode(entries@, ROOT_INODE));
            lemma_push(entries@, root);
            assert(as_map(entries@) =~= Map::empty());
        }
        entries.push(root);
        let t = InodeTable { entries };
        proof {
            assert(root@ =~= fresh_root(mtime));
            assert(visible(t@, ROOT_INODE, Seq::empty()));
        }
        t
    }

    fn position(&self, ino: u64) -> (r: Option<usize>)
        ensures
            r is Some <==> has_inode(self.entries@, ino),
            r matches Some(i) ==> i < self.entries@.len() && self.entries@[i as int].inode == ino,
    {
        let mut i: usize = 0;
        while i < self.entries.len()
            invariant
                i <= self.entries@.len(),
                forall|j: int| 0 <= j < i ==> (#[trigger] self.entries@[j]).inode != ino,
            decreases self.entries@.len() - i,
        {
            if self.entries[i].inode == ino {
                return Some(i);
            }
            i = i + 1;
        }
        None
    }

    /// The inode with the given number.
    pub fn get(&self, ino: u64) -> (r: Option<&InodeEntry>)
        requires
            self.wf(),
        ensures
            match r {
                Some(e) => self@.dom().contains(ino) && e@ == self@[ino] && e.inode == ino,
                None => !self@.dom().contains(ino),
            },
    {
        match self.position(ino) {
            Some(i) => {
                proof {
                    lemma_entry(self.entries@, i as int);
                }
                Some(&self.entries[i])
            },
            None => None,
        }
    }

    /// The inode that a path leads to.
    pub fn get_by_path(&self, path: &str) -> (r: Option<&InodeEntry>)
        requires
            self.wf(),
        ensures
            match r {
                Some(e) => inode_at(self@, path@) == Some(e.inode) && e@ == self@[e.inode]
                    && visible(self@, e.inode, path@),
                None => inode_at(self@, path@) is None,
            },
    {
        let mut i: usize = 0;
        while i < self.entries.len()
            invariant
                i <= self.entries@.len(),
                self.wf(),
                forall|j: int|
                    0 <= j < i ==> !((#[trigger] self.entries@[j]).nlink > 0
                        && self.entries@[j].full_path@ == path@),
            decreases self.entries@.len() - i,
        {
            if self.entries[i].nlink > 0 && text::eq(self.entries[i].full_path.as_str(), path) {
                proof {
                    lemma_entry(self.entries@, i as int);
                    let ino = self.entries@[i as int].inode;
                    assert(visible(self@, ino, path@));
                    let found = choose|ino: u64| visible(self@, ino, path@);
                    assert(visible(self@, found, path@));
                }
                return Some(&self.entries[i]);
            }
            i = i + 1;
        }
        proof {
            if exists|ino: u64| visible(self@, ino, path@) {
                let ino = choose|ino: u64| visible(self@, ino, path@);
                let k = index_of(self.entries@, ino);
                assert(has_inode(self.entries@, ino));
                assert(self.entries@[k].inode == ino);
                lemma_entry(self.entries@, k);
            }
        }
        None
    }

    /// Whether handles of an inode are open.
    pub fn has_open_handles(&self, ino: u64) -> (r: bool)
        requires
            self.wf(),
        ensures
            r == (self@.dom().contains(ino) && self@[ino].open_handles > 0),
    {
        match self.get(ino) {
            Some(e) => e.open_handles > 0,
            None => false,
        }
    }

    /// Whether the children of a directory have been listed.
    pub fn is_children_loaded(&self, ino: u64) -> (r: bool)
        requires
            self.wf(),
        ensures
            r == (self@.dom().contains(ino) && self@[ino].children_loaded),
    {
        match self.get(ino) {
            Some(e) => e.children_loaded,
            None => false,
        }
    }

    /// Takes in an inode, unless its number or its path is taken or something
    /// would lie in a file. Returns whether it was taken in.
    pub fn insert(&mut self, e: InodeEntry) -> (r: bool)
        requires
            old(self).wf(),
        ensures
            final(self).wf(),
            r == (!old(self)@.dom().contains(e.inode) && (e.nlink > 0 ==> inode_at(
                old(self)@,
                e@.path,
            ) is None) && fits_among(old(self)@, e.inode, e@)),
            final(self)@ == if r {
                old(self)@.insert(e.inode, e@)
            } else {
                old(self)@
            },
    {
        if self.get(e.inode).is_some() {
            return false;
        }
        if e.nlink > 0 && self.get_by_path(e.full_path.as_str()).is_some() {
            return false;
        }
        match self.get(e.parent) {
            Some(p) => {
                if p.kind != InodeKind::Directory {
                    return false;
                }
            },
            None => {},
        }
        if e.kind != InodeKind::Directory && (e.parent == e.inode || self.has_child(e.inode)) {
            return false;
        }
        let ghost before = self@;
        proof {
            assert(!has_inode(self.entries@, e.inode));
            lemma_push(self.entries@, e);
        }
        self.entries.push(e);
        proof {
            assert(self@ == before.insert(e.inode, e@));
            assert(visible(self@, ROOT_INODE, Seq::empty())) by {
                assert(visible(before, ROOT_INODE, Seq::empty()));
            }
            assert forall|a: u64, b: u64, p: Seq<char>|
                #[trigger] visible(self@, a, p) && #[trigger] visible(
                    self@,
                    b,
                    p,
                ) implies a == b by {
                if a != e.inode {
                    assert(visible(before, a, p));
                }
                if b != e.inode {
                    assert(visible(before, b, p));
                }
            }
            assert forall|a: u64| #[trigger] lies_in_directory(self@, a) by {
                assert(lies_in_directory(before, a));
            }
        }
        true
    }

    /// Whether anything lies in an inode.
    fn has_child(&self, ino: u64) -> (r: bool)
        requires
            self.wf(),
        ensures
            r == exists|child: u64| #[trigger]
                self@.dom().contains(child) && self@[child].parent == ino,
    {
        let mut i: usize = 0;
        while i < self.entries.len()
            invariant
                i <= self.entries@.len(),
                self.wf(),
                forall|j: int| 0 <= j < i ==> (#[trigger] self.entries@[j]).parent != ino,
            decreases self.entries@.len() - i,
        {
            if self.entries[i].parent == ino {
                proof {
                    lemma_entry(self.entries@, i as int);
                    assert(self@.dom().contains(self.entries@[i as int].inode));
                }
                return true;
            }
            i = i + 1;
        }
        proof {
            assert forall|child: u64| #[trigger] self@.dom().contains(child) implies self@[child].parent
                != ino by {
                assert(has_inode(self.entries@, child));
                let k = index_of(self.entries@, child);
                lemma_entry(self.entries@, k);
                assert(self.entries@[k].inode == child);
            }
        }
        false
    }

    /// Puts another entry in the place of one, with its number, path, kind and
    /// parent.
    fn replace(&mut self, i: usize, e: InodeEntry)
        requires
            old(self).wf(),
            i < old(self).entries@.len(),
            e.inode == old(self).entries@[i as int].inode,
            e.kind == old(self).entries@[i as int].kind,
            e.parent == old(self).entries@[i as int].parent,
            e@.path == old(self).entries@[i as int]@.path,
            e.nlink > 0 ==> old(self).entries@[i as int].nlink > 0,
            e.inode == ROOT_INODE ==> e.nlink > 0,
        ensures
            final(self).wf(),
            final(self)@ == old(self)@.insert(e.inode, e@),
    {
        let ghost before = self.entries@;
        let ghost old_map = self@;
        self.entries.set(i, e);
        proof {
            lemma_replace(before, self.entries@, i as int);
            lemma_entry(before, i as int);
            let ino = e.inode;
            assert(self@ == old_map.insert(ino, e@));
            assert(visible(old_map, ROOT_INODE, Seq::empty()));
            assert forall|a: u64, p: Seq<char>| #[trigger] visible(self@, a, p) implies visible(
                old_map,
                a,
                p,
            ) by {}
            assert(visible(self@, ROOT_INODE, Seq::empty()));
            assert forall|a: u64, b: u64, p: Seq<char>|
                #[trigger] visible(self@, a, p) && #[trigger] visible(
                    self@,
                    b,
                    p,
                ) implies a == b by {
                assert(visible(old_map, a, p) && visible(old_map, b, p));
            }
            assert forall|a: u64| #[trigger] lies_in_directory(self@, a) by {
                assert(lies_in_directory(old_map, a));
            }
        }
    }

    /// A copy of an entry.
    fn copy_of(&self, i: usize) -> (e: InodeEntry)
        requires
            i < self.entries@.len(),
        ensures
            e@ == self.entries@[i as int]@,
            e.inode == self.entries@[i as int].inode,
    {
        let e: &InodeEntry = &self.entries[i];
        InodeEntry {
            inode: e.inode,
            parent: e.parent,
            name: e.name.clone(),
            full_path: e.full_path.clone(),
            kind: e.kind,
            xet_hash: http::clone_opt(&e.xet_hash),
            etag: http::clone_opt(&e.etag),
            size: e.size,
            mtime: e.mtime,
            cipher_size: e.cipher_size,
            needs_size_probe: e.needs_size_probe,
            dirty: e.dirty,
            children_loaded: e.children_loaded,
            nlink: e.nlink,
            open_handles: e.open_handles,
        }
    }

    /// Takes the names of an inode away: no path leads to it any more, but its
    /// open handles still do. The root keeps its name.
    pub fn unlink(&mut self, ino: u64)
        requires
            old(self).wf(),
        ensures
            final(self).wf(),
            final(self)@ == if old(self)@.dom().contains(ino) && ino != ROOT_INODE {
                old(self)@.insert(ino, InodeView { nlink: 0, ..old(self)@[ino] })
            } else {
                old(self)@
            },
    {
        match self.position(ino) {
            Some(i) => {
                if ino != ROOT_INODE {
                    proof {
                        lemma_entry(self.entries@, i as int);
                    }
                    let mut e: InodeEntry = self.copy_of(i);
                    e.nlink = 0;
                    self.replace(i, e);
                }
            },
            None => {},
        }
    }

    /// Drops an inode. The root is kept.
    pub fn remove(&mut self, ino: u64)
        requires
            old(self).wf(),
        ensures
            final(self).wf(),
            final(self)@ == if ino != ROOT_INODE {
                old(self)@.remove(ino)
            } else {
                old(self)@
            },
    {
        let ghost before = self@;
        match self.position(ino) {
            Some(i) => {
                if ino != ROOT_INODE {
                    proof {
                        lemma_remove(self.entries@, i as int);
                        assert(visible(before, ROOT_INODE, Seq::empty()));
                    }
                    self.entries.remove(i);
                    proof {
                        assert forall|a: u64, p: Seq<char>| #[trigger]
                            visible(self@, a, p) implies visible(before, a, p) by {}
                        assert(visible(self@, ROOT_INODE, Seq::empty()));
                        assert forall|a: u64| #[trigger] lies_in_directory(self@, a) by {
                            assert(lies_in_directory(before, a));
                        }
                    }
                }
            },
            None => {
                assert(before.remove(ino) =~= before);
            },
        }
    }

    /// Takes note that the children of a directory have been listed.
    pub fn mark_children_loaded(&mut self, ino: u64)
        requires
            old(self).wf(),
        ensures
            final(self).wf(),
            final(self)@ == if old(self)@.dom().contains(ino) {
                old(self)@.insert(ino, InodeView { children_loaded: true, ..old(self)@[ino] })
            } else {
                old(self)@
            },
    {
        match self.position(ino) {
            Some(i) => {
                proof {
                    lemma_entry(self.entries@, i as int);
                    assert(visible(self@, ROOT_INODE, Seq::empty()));
                }
                let mut e: InodeEntry = self.copy_of(i);
                e.children_loaded = true;
                self.replace(i, e);
            },
            None => {},
        }
    }

    /// Forgets that the children of a directory have been listed, so that the
    /// next visit lists them again. What is known of them stays.
    pub fn invalidate_children(&mut self, ino: u64)
        requires
            old(self).wf(),
        ensures
            final(self).wf(),
            final(self)@ == if old(self)@.dom().contains(ino) {
                old(self)@.insert(ino, InodeView { children_loaded: false, ..old(self)@[ino] })
            } else {
                old(self)@
            },
    {
        match self.position(ino) {
            Some(i) => {
                proof {
                    lemma_entry(self.entries@, i as int);
                    assert(visible(self@, ROOT_INODE, Seq::empty()));
                }
                let mut e: InodeEntry = self.copy_of(i);
                e.children_loaded = false;
                self.replace(i, e);
            },
            None => {},
        }
    }

    /// Takes over what the remote says of a file, unless there are local writes
    /// that are not flushed. Returns whether it was taken over.
    pub fn update_remote_file(
        &mut self,
        ino: u64,
        xet_hash: Option<String>,
        etag: Option<String>,
        size: u64,
        mtime: Span,
        cipher_size: Option<u64>,
    ) -> (r: bool)
        requires
            old(self).wf(),
        ensures
            final(self).wf(),
            r == (old(self)@.dom().contains(ino) && !old(self)@[ino].dirty),
            final(self)@ == if r {
                old(self)@.insert(
                    ino,
                    InodeView {
                        xet_hash: http::opt_view(xet_hash),
                        etag: http::opt_view(etag),
                        size,
                        mtime,
                        cipher_size,
                        ..old(self)@[ino]
                    },
                )
            } else {
                old(self)@
            },
    {
        match self.position(ino) {
            Some(i) => {
                proof {
                    lemma_entry(self.entries@, i as int);
                    assert(visible(self@, ROOT_INODE, Seq::empty()));
                }
                let mut e: InodeEntry = self.copy_of(i);
                if e.dirty {
                    return false;
                }
                e.xet_hash = xet_hash;
                e.etag = etag;
                e.size = size;
                e.mtime = mtime;
                e.cipher_size = cipher_size;
                self.replace(i, e);
                true
            },
            None => false,
        }
    }

    /// Sets whether the size of an inode is to be read from its container.
    pub fn set_needs_size_probe(&mut self, ino: u64, needed: bool)
        requires
            old(self).wf(),
        ensures
            final(self).wf(),
            final(self)@ == if old(self)@.dom().contains(ino) {
                old(self)@.insert(ino, InodeView { needs_size_probe: needed, ..old(self)@[ino] })
            } else {
                old(self)@
            },
    {
        match self.position(ino) {
            Some(i) => {
                proof {
                    lemma_entry(self.entries@, i as int);
                    assert(visible(self@, ROOT_INODE, Seq::empty()));
                }
                let mut e: InodeEntry = self.copy_of(i);
                e.needs_size_probe = needed;
                self.replace(i, e);
            },
            None => {},
        }
    }

    /// Takes over those fields of a file that the remote gives. Where the
    /// remote object is an encrypted container, the size that the remote gives
    /// is that of the container, and the user's size is out of date once the
    /// container changes. Local writes that are not flushed take precedence.
    /// Returns whether the fields were taken over.
    pub fn merge_remote_file(
        &mut self,
        ino: u64,
        xet_hash: Option<String>,
        size: Option<u64>,
        mtime: Option<Span>,
    ) -> (r: bool)
        requires
            old(self).wf(),
        ensures
            final(self).wf(),
            r == (old(self)@.dom().contains(ino) && !old(self)@[ino].dirty),
            final(self)@ == if r {
                old(self)@.insert(
                    ino,
                    merged(old(self)@[ino], http::opt_view(xet_hash), size, mtime),
                )
            } else {
                old(self)@
            },
    {
        match self.position(ino) {
            Some(i) => {
                proof {
                    lemma_entry(self.entries@, i as int);
                    assert(visible(self@, ROOT_INODE, Seq::empty()));
                }
                let mut e: InodeEntry = self.copy_of(i);
                if e.dirty {
                    return false;
                }
                if e.cipher_size.is_some() && (xet_hash.is_some() || size.is_some()) {
                    e.needs_size_probe = true;
                }
                match size {
                    Some(n) => {
                        if e.cipher_size.is_some() {
                            e.cipher_size = Some(n);
                        } else {
                            e.size = n;
                        }
                    },
                    None => {},
                }
                match xet_hash {
                    Some(h) => {
                        e.xet_hash = Some(h);
                    },
                    None => {},
                }
                match mtime {
                    Some(t) => {
                        e.mtime = t;
                    },
                    None => {},
                }
                self.replace(i, e);
                true
            },
            None => false,
        }
    }

    /// Takes over the size that was read from a container's header, unless the
    /// file has gone or there are local writes that are not flushed.
    pub fn set_probed_size(&mut self, ino: u64, size: u64)
        requires
            old(self).wf(),
        ensures
            final(self).wf(),
            final(self)@ == if old(self)@.dom().contains(ino) && !old(self)@[ino].dirty {
                old(self)@.insert(
                    ino,
                    InodeView { size, needs_size_probe: false, ..old(self)@[ino] },
                )
            } else {
                old(self)@
            },
    {
        match self.position(ino) {
            Some(i) => {
                proof {
                    lemma_entry(self.entries@, i as int);
                    assert(visible(self@, ROOT_INODE, Seq::empty()));
                }
                let mut e: InodeEntry = self.copy_of(i);
                if !e.dirty {
                    e.size = size;
                    e.needs_size_probe = false;
                    self.replace(i, e);
                }
            },
            None => {},
        }
    }

    /// The nearest directory on the way to `path` that the table holds, and its
    /// path.
    pub fn nearest_dir_ancestor(&self, path: &str) -> (r: (u64, String))
        requires
            self.wf(),
        ensures
            r.0 == nearest_dir(self@, path@),
            self@.dom().contains(r.0),
            r.1@ == self@[r.0].path,
            visible(self@, r.0, r.1@),
            self@[r.0].kind == InodeKind::Directory,
    {
        let mut current: String = path.to_owned();
        while has_parent(current.as_str())
            invariant
                self.wf(),
                nearest_dir(self@, path@) == nearest_dir(self@, current@),
            decreases current@.len(),
        {
            let dir: String = parent_of(current.as_str());
            proof {
                lemma_last_slash(current@);
            }
            match self.get_by_path(dir.as_str()) {
                Some(e) => {
                    if e.kind == InodeKind::Directory {
                        return (e.inode, dir);
                    }
                },
                None => {},
            }
            current = dir;
        }
        proof {
            lemma_last_slash(current@);
            assert(visible(self@, ROOT_INODE, Seq::empty()));
        }
        (ROOT_INODE, String::new())
    }

    /// What every file that a path leads to looks like now.
    pub fn file_snapshot(&self) -> (r: Vec<FileSnapshot>)
        requires
            self.wf(),
        ensures
            shows_files(self@, snapshot_views(r@)),
    {
        let mut r: Vec<FileSnapshot> = Vec::new();
        let mut i: usize = 0;
        while i < self.entries.len()
            invariant
                i <= self.entries@.len(),
                self.wf(),
                forall|k: int|
                    0 <= k < r@.len() ==> is_linked_file(self@, (#[trigger] r@[k]).inode) && r@[k]@
                        == snapshot_of(r@[k].inode, self@[r@[k].inode]),
                forall|k: int|
                    0 <= k < r@.len() ==> exists|j: int|
                        0 <= j < i && (#[trigger] self.entries@[j]).inode == (
                        #[trigger] r@[k]).inode,
                forall|k: int, m: int|
                    0 <= k < m < r@.len() ==> (#[trigger] r@[k]).inode != (#[trigger] r@[m]).inode,
                forall|j: int|
                    0 <= j < i && (#[trigger] self.entries@[j]).nlink > 0 && self.entries@[j].kind
                        == InodeKind::File ==> exists|k: int|
                        0 <= k < r@.len() && (#[trigger] r@[k]).inode == self.entries@[j].inode,
            decreases self.entries@.len() - i,
        {
            let e: &InodeEntry = &self.entries[i];
            proof {
                lemma_entry(self.entries@, i as int);
            }
            if e.nlink > 0 && e.kind == InodeKind::File {
                let s = FileSnapshot {
                    inode: e.inode,
                    path: e.full_path.clone(),
                    xet_hash: http::clone_opt(&e.xet_hash),
                    etag: http::clone_opt(&e.etag),
                    size: e.size,
                    dirty: e.dirty,
                    cipher_size: e.cipher_size,
                };
                let ghost before = r@;
                r.push(s);
                proof {
                    let n = before.len() as int;
                    assert(r@[n].inode == self.entries@[i as int].inode);
                    assert forall|k: int, m: int| 0 <= k < m < r@.len() implies (
                    #[trigger] r@[k]).inode != (#[trigger] r@[m]).inode by {
                        assert(r@[k] == before[k]);
                        if m < n {
                            assert(r@[m] == before[m]);
                        } else {
                            let j = choose|j: int|
                                0 <= j < i && (#[trigger] self.entries@[j]).inode == before[k].inode;
                            assert(self.entries@[j].inode != self.entries@[i as int].inode);
                        }
                    }
                    assert forall|k: int| 0 <= k < r@.len() implies exists|j: int|
                        0 <= j < i + 1 && (#[trigger] self.entries@[j]).inode == (
                        #[trigger] r@[k]).inode by {
                        if k < n {
                            assert(r@[k] == before[k]);
                            let j = choose|j: int|
                                0 <= j < i && (#[trigger] self.entries@[j]).inode == before[k].inode;
                            assert(self.entries@[j].inode == r@[k].inode);
                        } else {
                            assert(self.entries@[i as int].inode == r@[k].inode);
                        }
                    }
                    assert forall|j: int|
                        0 <= j < i + 1 && (#[trigger] self.entries@[j]).nlink > 0
                            && self.entries@[j].kind == InodeKind::File implies exists|k: int|
                        0 <= k < r@.len() && (#[trigger] r@[k]).inode == self.entries@[j].inode by {
                        if j < i {
                            let k = choose|k: int|
                                0 <= k < before.len() && (#[trigger] before[k]).inode
                                    == self.entries@[j].inode;
                            assert(r@[k] == before[k]);
                        } else {
                            assert(r@[n].inode == self.entries@[j].inode);
                        }
                    }
                }
            }
            i = i + 1;
        }
        proof {
            let shots = snapshot_views(r@);
            assert forall|k: int| 0 <= k < shots.len() implies is_linked_file(
                self@,
                (#[trigger] shots[k]).inode,
            ) && shots[k] == snapshot_of(shots[k].inode, self@[shots[k].inode]) by {
                assert(shots[k] == r@[k]@);
            }
            assert forall|k: int, m: int| 0 <= k < m < shots.len() implies (
            #[trigger] shots[k]).inode != (#[trigger] shots[m]).inode by {
                assert(shots[k] == r@[k]@ && shots[m] == r@[m]@);
            }
            assert forall|ino: u64| #[trigger] is_linked_file(self@, ino) implies exists|k: int|
                0 <= k < shots.len() && (#[trigger] shots[k]).inode == ino by {
                assert(has_inode(self.entries@, ino));
                let j = index_of(self.entries@, ino);
                lemma_entry(self.entries@, j);
                let k = choose|k: int|
                    0 <= k < r@.len() && (#[trigger] r@[k]).inode == self.entries@[j].inode;
                assert(shots[k].inode == ino);
            }
        }
        r
    }

    /// Whether one of the first `n` entries is a listed directory with the path.
    spec fn is_loaded_before(&self, n: int, path: Seq<char>) -> bool {
        exists|j: int|
            0 <= j < n && is_loaded_dir(self@, (#[trigger] self.entries@[j]).inode)
                && self.entries@[j].full_path@ == path
    }

    /// The paths of the directories whose children have been listed, each once.
    pub fn loaded_dir_prefixes(&self) -> (r: Vec<String>)
        requires
            self.wf(),
        ensures
            forall|p: Seq<char>| text::views(r@).contains(p) <==> #[trigger] is_loaded_path(self@, p),
            text::views(r@).no_duplicates(),
    {
        let mut r: Vec<String> = Vec::new();
        let mut i: usize = 0;
        while i < self.entries.len()
            invariant
                i <= self.entries@.len(),
                self.wf(),
                forall|k: int| 0 <= k < r@.len() ==> is_loaded_path(self@, (#[trigger] r@[k])@),
                forall|k: int|
                    0 <= k < r@.len() ==> self.is_loaded_before(i as int, (#[trigger] r@[k])@),
                text::views(r@).no_duplicates(),
                forall|j: int|
                    0 <= j < i && is_loaded_dir(self@, (#[trigger] self.entries@[j]).inode)
                        ==> text::views(r@).contains(self.entries@[j].full_path@),
            decreases self.entries@.len() - i,
        {
            let e: &InodeEntry = &self.entries[i];
            proof {
                lemma_entry(self.entries@, i as int);
            }
            let ghost before = r@;
            if e.nlink > 0 && e.kind == InodeKind::Directory && e.children_loaded {
                r.push(e.full_path.clone());
                proof {
                    let n = before.len() as int;
                    assert(is_loaded_dir(self@, self.entries@[i as int].inode));
                    assert(is_loaded_path(self@, r@[n]@));
                    assert(text::views(r@) =~= text::views(before).push(e.full_path@));
                    assert(text::views(r@)[n] == e.full_path@);
                    assert forall|k: int| 0 <= k < n implies #[trigger] text::views(r@)[k]
                        != e.full_path@ by {
                        let j = choose|j: int|
                            0 <= j < i && is_loaded_dir(self@, (#[trigger] self.entries@[j]).inode)
                                && self.entries@[j].full_path@ == before[k]@;
                        lemma_entry(self.entries@, j);
                        assert(self.entries@[j].inode != self.entries@[i as int].inode);
                        if before[k]@ == e.full_path@ {
                            assert(visible(self@, self.entries@[j].inode, e.full_path@));
                            assert(visible(self@, e.inode, e.full_path@));
                        }
                    }
                    assert forall|j: int|
                        0 <= j < i + 1 && is_loaded_dir(
                            self@,
                            (#[trigger] self.entries@[j]).inode,
                        ) implies text::views(r@).contains(self.entries@[j].full_path@) by {
                        if j < i {
                            let p = self.entries@[j].full_path@;
                            let k = choose|k: int|
                                0 <= k < before.len() && text::views(before)[k] == p;
                            assert(text::views(r@)[k] == p);
                        }
                    }
                }
            }
            proof {
                assert forall|k: int| 0 <= k < r@.len() implies self.is_loaded_before(
                    i + 1,
                    (#[trigger] r@[k])@,
                ) by {
                    if k < before.len() {
                        assert(r@[k] == before[k]);
                        let j = choose|j: int|
                            0 <= j < i && is_loaded_dir(self@, (#[trigger] self.entries@[j]).inode)
                                && self.entries@[j].full_path@ == before[k]@;
                        assert(self.entries@[j].full_path@ == r@[k]@);
                    } else {
                        assert(self.entries@[i as int].full_path@ == r@[k]@);
                    }
                }
            }
            i = i + 1;
        }
        proof {
            let paths = text::views(r@);
            assert forall|p: Seq<char>| paths.contains(p) <==> #[trigger] is_loaded_path(
                self@,
                p,
            ) by {
                if paths.contains(p) {
                    let k = choose|k: int| 0 <= k < paths.len() && paths[k] == p;
                    assert(r@[k]@ == p);
                }
                if is_loaded_path(self@, p) {
                    let ino = choose|ino: u64| #[trigger]
                        is_loaded_dir(self@, ino) && self@[ino].path == p;
                    assert(has_inode(self.entries@, ino));
                    let j = index_of(self.entries@, ino);
                    lemma_entry(self.entries@, j);
                    assert(paths.contains(self.entries@[j].full_path@));
                }
            }
        }
        r
    }

    /// The files whose size is to be read from their container's header, with
    /// the object to read it from and its size.
    pub fn pending_size_probes(&self) -> (r: Vec<(u64, String, u64)>)
        requires
            self.wf(),
        ensures
            forall|i: int|
                0 <= i < r@.len() ==> {
                    let ino = (#[trigger] r@[i]).0;
                    &&& awaits_probe(self@, ino)
                    &&& self@[ino].xet_hash == Some(r@[i].1@)
                    &&& self@[ino].cipher_size == Some(r@[i].2)
                },
            forall|ino: u64| #[trigger]
                awaits_probe(self@, ino) ==> exists|i: int|
                    0 <= i < r@.len() && (#[trigger] r@[i]).0 == ino,
    {
        let mut r: Vec<(u64, String, u64)> = Vec::new();
        let mut i: usize = 0;
        while i < self.entries.len()
            invariant
                i <= self.entries@.len(),
                self.wf(),
                forall|k: int|
                    0 <= k < r@.len() ==> {
                        let ino = (#[trigger] r@[k]).0;
                        &&& awaits_probe(self@, ino)
                        &&& self@[ino].xet_hash == Some(r@[k].1@)
                        &&& self@[ino].cipher_size == Some(r@[k].2)
                    },
                forall|j: int|
                    0 <= j < i && awaits_probe(self@, (#[trigger] self.entries@[j]).inode)
                        ==> exists|k: int|
                        0 <= k < r@.len() && (#[trigger] r@[k]).0 == self.entries@[j].inode,
            decreases self.entries@.len() - i,
        {
            let e: &InodeEntry = &self.entries[i];
            let ghost before = r@;
            proof {
                lemma_entry(self.entries@, i as int);
            }
            if e.needs_size_probe && !e.dirty {
                match (&e.xet_hash, e.cipher_size) {
                    (Some(h), Some(n)) => {
                        r.push((e.inode, h.clone(), n));
                        assert(r@[before.len() as int].0 == self.entries@[i as int].inode);
                    },
                    _ => {},
                }
            }
            proof {
                assert forall|k: int| 0 <= k < before.len() implies r@[k] == before[k] by {}
                assert forall|j: int|
                    0 <= j < i + 1 && awaits_probe(
                        self@,
                        (#[trigger] self.entries@[j]).inode,
                    ) implies exists|k: int|
                    0 <= k < r@.len() && (#[trigger] r@[k]).0 == self.entries@[j].inode by {
                    if j < i {
                        let k = choose|k: int|
                            0 <= k < before.len() && (#[trigger] before[k]).0
                                == self.entries@[j].inode;
                        assert(r@[k] == before[k]);
                    }
                }
            }
            i = i + 1;
        }
        proof {
            assert forall|ino: u64| #[trigger] awaits_probe(self@, ino) implies exists|k: int|
                0 <= k < r@.len() && (#[trigger] r@[k]).0 == ino by {
                assert(has_inode(self.entries@, ino));
                let j = index_of(self.entries@, ino);
                lemma_entry(self.entries@, j);
            }
        }
        r
    }
}

/// The paths to list are those that lead to a directory whose children have been
/// listed: such a directory is among them whatever else it is, and each of them
/// leads to one.
pub proof fn law_loaded_paths_lead_to_listed_directories(
    t: Map<u64, InodeView>,
    path: Seq<char>,
    ino: u64,
)
    ensures
        t.dom().contains(ino) && t[ino].nlink > 0 && t[ino].kind == InodeKind::Directory
            && t[ino].children_loaded ==> is_loaded_path(t, t[ino].path),
        is_loaded_path(t, path) ==> exists|dir: u64| #[trigger]
            t.dom().contains(dir) && t[dir].nlink > 0 && t[dir].kind == InodeKind::Directory
                && t[dir].children_loaded && t[dir].path == path,
{
    if t.dom().contains(ino) && t[ino].nlink > 0 && t[ino].kind == InodeKind::Directory
        && t[ino].children_loaded {
        assert(is_loaded_dir(t, ino));
    }
    if is_loaded_path(t, path) {
        let dir = choose|dir: u64| #[trigger] is_loaded_dir(t, dir) && t[dir].path == path;
        assert(t.dom().contains(dir));
    }
}

/// A size is read from a container exactly where it is out of date, the container
/// is known by its hash and size, and there are no writes that are not flushed: no
/// matter whether handles are open or a path still leads there.
pub proof fn law_outdated_sizes_await_a_probe(t: Map<u64, InodeView>, ino: u64, e: InodeView)
    ensures
        t.dom().contains(ino) && t[ino].needs_size_probe && !t[ino].dirty && t[ino].xet_hash is Some
            && t[ino].cipher_size is Some ==> awaits_probe(t, ino),
        !t.dom().contains(ino) ==> !awaits_probe(t, ino),
        !e.needs_size_probe || e.dirty || e.xet_hash is None || e.cipher_size is None
            ==> !awaits_probe(t.insert(ino, e), ino),
{
}

/// A snapshot shows every linked file as it is, and nothing else.
pub proof fn law_snapshots_show_every_file(table: InodeTable, r: Vec<FileSnapshot>, ino: u64)
    requires
        call_ensures(InodeTable::file_snapshot, (&table,), r),
    ensures
        (exists|k: int| 0 <= k < r@.len() && (#[trigger] r@[k]).inode == ino)
            <==> table@.dom().contains(ino) && table@[ino].nlink > 0 && table@[ino].kind
            == InodeKind::File,
        forall|k: int|
            0 <= k < r@.len() && (#[trigger] r@[k]).inode == ino ==> {
                &&& r@[k].path@ == table@[ino].path
                &&& http::opt_view(r@[k].xet_hash) == table@[ino].xet_hash
                &&& http::opt_view(r@[k].etag) == table@[ino].etag
                &&& r@[k].size == table@[ino].size
                &&& r@[k].dirty == table@[ino].dirty
                &&& r@[k].cipher_size == table@[ino].cipher_size
            },
{
    let shots = snapshot_views(r@);
    assert forall|k: int| 0 <= k < r@.len() implies shots[k] == (#[trigger] r@[k])@ by {}
    if table@.dom().contains(ino) && table@[ino].nlink > 0 && table@[ino].kind
        == InodeKind::File {
        assert(is_linked_file(table@, ino));
        let k = choose|k: int| 0 <= k < shots.len() && (#[trigger] shots[k]).inode == ino;
        assert(r@[k].inode == ino);
    }
    assert forall|k: int| 0 <= k < r@.len() && (#[trigger] r@[k]).inode == ino implies {
        &&& is_linked_file(table@, ino)
        &&& r@[k].path@ == table@[ino].path
        &&& http::opt_view(r@[k].xet_hash) == table@[ino].xet_hash
        &&& http::opt_view(r@[k].etag) == table@[ino].etag
        &&& r@[k].size == table@[ino].size
        &&& r@[k].dirty == table@[ino].dirty
        &&& r@[k].cipher_size == table@[ino].cipher_size
    } by {
        assert(shots[k].inode == ino);
        assert(shots[k] == snapshot_of(ino, table@[ino]));
    }
}

/// A new table holds the root and nothing else: a linked directory at the empty
/// path, not listed yet.
pub proof fn law_new_tables_hold_the_root(mtime: Span, table: InodeTable, ino: u64)
    requires
        call_ensures(InodeTable::new, (mtime,), table),
    ensures
        table@.dom().contains(ino) <==> ino == 1,
        table@[1].path.len() == 0,
        table@[1].name.len() == 0,
        table@[1].parent == 1,
        table@[1].kind == InodeKind::Directory,
        table@[1].nlink == 1,
        table@[1].mtime == mtime,
        !table@[1].children_loaded,
        !table@[1].dirty,
        table@[1].open_handles == 0,
{
}

/// A file with those fields replaced that the remote gives.
pub open spec fn merged(
    e: InodeView,
    xet_hash: Option<Seq<char>>,
    size: Option<u64>,
    mtime: Option<Span>,
) -> InodeView {
    let encrypted = e.cipher_size is Some;
    InodeView {
        xet_hash: if xet_hash is Some {
            xet_hash
        } else {
            e.xet_hash
        },
        size: if size is Some && !encrypted {
            size->0
        } else {
            e.size
        },
        cipher_size: if size is Some && encrypted {
            size
        } else {
            e.cipher_size
        },
        needs_size_probe: e.needs_size_probe || (encrypted && (xet_hash is Some || size is Some)),
        mtime: match mtime {
            Some(t) => t,
            None => e.mtime,
        },
        ..e
    }
}

/// Anything fits that lies in a directory or in nothing that is known, but a file
/// only where nothing lies in it. In a file nothing fits.
pub proof fn law_what_fits_in_the_table(
    t: Map<u64, InodeView>,
    ino: u64,
    e: InodeView,
    child: u64,
)
    ensures
        t.dom().contains(e.parent) && t[e.parent].kind == InodeKind::File ==> !fits_among(t, ino, e),
        e.kind == InodeKind::Directory && (!t.dom().contains(e.parent) || t[e.parent].kind
            == InodeKind::Directory) ==> fits_among(t, ino, e),
        e.kind == InodeKind::File && t.dom().contains(child) && t[child].parent == ino
            ==> !fits_among(t, ino, e),
        e.kind == InodeKind::File && e.parent != ino && (!t.dom().contains(e.parent)
            || t[e.parent].kind == InodeKind::Directory) && (forall|c: u64| #[trigger]
            t.dom().contains(c) ==> t[c].parent != ino) ==> fits_among(t, ino, e),
{
}

} // verus!
