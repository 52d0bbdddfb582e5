//! The negative cache: paths that were looked up and did not exist.

use vstd::prelude::*;

use crate::text;
use crate::time::Span;
use crate::virtual_fs::inode;

verus! {

/// A path that did not exist, and when that was found out.
#[derive(Debug, Clone)]
pub struct MissingPath {
    pub path: String,
    pub since: Span,
}

/// Paths that were looked up and did not exist.
pub struct NegativeCache {
    entries: Vec<MissingPath>,
}

/// The entries whose path is to be kept, in order.
pub open spec fn retained(
    keep: spec_fn(Seq<char>) -> bool,
    entries: Seq<(Seq<char>, Span)>,
) -> Seq<(Seq<char>, Span)>
    decreases entries.len(),
{
    if entries.len() == 0 {
        Seq::empty()
    } else if keep(entries.last().0) {
        retained(keep, entries.drop_last()).push(entries.last())
    } else {
        retained(keep, entries.drop_last())
    }
}

/// Since when `path` is known not to exist.
pub open spec fn missing_since(entries: Seq<(Seq<char>, Span)>, path: Seq<char>) -> Option<Span>
    decreases entries.len(),
{
    if entries.len() == 0 {
        None
    } else {
        match missing_since(entries.drop_last(), path) {
            Some(since) => Some(since),
            None => if entries.last().0 == path {
                Some(entries.last().1)
            } else {
                None
            },
        }
    }
}

/// What is known of the paths that are kept stays, and nothing is known of the
/// others.
pub proof fn law_retained_paths(
    keep: spec_fn(Seq<char>) -> bool,
    entries: Seq<(Seq<char>, Span)>,
    path: Seq<char>,
)
    ensures
        missing_since(retained(keep, entries), path) == if keep(path) {
            missing_since(entries, path)
        } else {
            None
        },
    decreases entries.len(),
{
    if entries.len() > 0 {
        let last = entries.last();
        law_retained_paths(keep, entries.drop_last(), path);
        if keep(last.0) {
            let rest = retained(keep, entries.drop_last());
            assert(rest.push(last).drop_last() =~= rest);
        }
    }
}

/// A path that is remembered is known not to exist since then, and nothing
/// changes for other paths.
pub proof fn law_remembered_paths(
    entries: Seq<(Seq<char>, Span)>,
    path: Seq<char>,
    since: Span,
    other: Seq<char>,
)
    ensures
        ({
            let after = retained(|k: Seq<char>| k != path, entries).push((path, since));
            &&& missing_since(after, path) == Some(since)
            &&& other != path ==> missing_since(after, other) == missing_since(entries, other)
        }),
{
    let rest = retained(|k: Seq<char>| k != path, entries);
    law_retained_paths(|k: Seq<char>| k != path, entries, path);
    law_retained_paths(|k: Seq<char>| k != path, entries, other);
    assert(rest.push((path, since)).drop_last() =~= rest);
}

/// Whether `key` lies in the directory `dir`, or is `dir` itself. Everything
/// lies in the root.
pub open spec fn lies_in(dir: Seq<char>, key: Seq<char>) -> bool {
    dir.len() == 0 || key == dir || dir.push('/').is_prefix_of(key)
}

/// Whether `key` is `path` or a directory on the way to it, other than the
/// root.
pub open spec fn is_on_way(path: Seq<char>, key: Seq<char>) -> bool
    decreases path.len(),
{
    ||| key == path
    ||| inode::last_slash(path) >= 0 && ({
        proof {
            inode::lemma_last_slash(path);
        }
        is_on_way(inode::parent_path(path), key)
    })
}

/// On the way to a path lie the path itself and whatever it goes on from with a
/// slash.
pub proof fn law_way_to_a_path(path: Seq<char>, key: Seq<char>)
    ensures
        is_on_way(path, key) <==> key == path || key.push('/').is_prefix_of(path),
    decreases path.len(),
{
    inode::lemma_last_slash(path);
    if inode::last_slash(path) >= 0 {
        let up = inode::parent_path(path);
        law_way_to_a_path(up, key);
        assert(path.take(up.len() as int + 1) =~= up.push('/'));
        if key.push('/').is_prefix_of(up) {
            assert(path.take(key.len() as int + 1) =~= key.push('/'));
        }
        if key.push('/').is_prefix_of(path) {
            assert(path[key.len() as int] == key.push('/')[key.len() as int]);
            assert(key =~= path.take(key.len() as int)) by {
                assert forall|i: int| 0 <= i < key.len() implies key[i] == path[i] by {
                    assert(key.push('/')[i] == path[i]);
                }
            }
            if key.len() == up.len() {
                assert(key =~= up);
            } else {
                assert(up.take(key.len() as int + 1) =~= key.push('/'));
            }
        }
    } else if key.push('/').is_prefix_of(path) {
        assert(path[key.len() as int] == key.push('/')[key.len() as int]);
    }
}

impl View for NegativeCache {
    type V = Seq<(Seq<char>, Span)>;

    closed spec fn view(&self) -> Seq<(Seq<char>, Span)> {
        self.entries@.map_values(|e: MissingPath| (e.path@, e.since))
    }
}

impl NegativeCache {
    /// A cache without entries.
    pub fn new() -> (c: NegativeCache)
        ensures
            c@ == Seq::<(Seq<char>, Span)>::empty(),
    {
        let c = NegativeCache { entries: Vec::new() };
        assert(c@ =~= Seq::empty());
        c
    }

    /// Remembers that `path` does not exist.
    pub fn insert(&mut self, path: &str, since: Span)
        ensures
            final(self)@ == retained(|k: Seq<char>| k != path@, old(self)@).push((path@, since)),
    {
        self.forget_path(path);
        let ghost before = self@;
        self.entries.push(MissingPath { path: path.to_owned(), since });
        assert(self@ =~= before.push((path@, since)));
    }

    /// Since when `path` is known not to exist.
    pub fn get(&self, path: &str) -> (r: Option<Span>)
        ensures
            r == missing_since(self@, path@),
    {
        let ghost all = self@;
        let mut i: usize = 0;
        assert(all.take(0) =~= Seq::empty());
        while i < self.entries.len()
            invariant
                i <= self.entries@.len(),
                all == self@,
                missing_since(all.take(i as int), path@) is None,
            decreases self.entries@.len() - i,
        {
            proof {
                assert(all.take(i + 1).drop_last() =~= all.take(i as int));
                assert(all.take(i + 1).last() == (
                    self.entries@[i as int].path@,
                    self.entries@[i as int].since,
                ));
            }
            if text::eq(self.entries[i].path.as_str(), path) {
                let since: Span = self.entries[i].since;
                proof {
                    lemma_first_missing(all, path@, i + 1);
                }
                return Some(since);
            }
            i = i + 1;
        }
        assert(all.take(all.len() as int) =~= all);
        None
    }

    /// Whether nothing is remembered.
    pub fn is_empty(&self) -> (r: bool)
        ensures
            r == (self@.len() == 0),
    {
        self.entries.len() == 0
    }

    /// A copy of an entry.
    fn copy_of(&self, i: usize) -> (e: MissingPath)
        requires
            i < self.entries@.len(),
        ensures
            (e.path@, e.since) == self@[i as int],
    {
        MissingPath { path: self.entries[i].path.clone(), since: self.entries[i].since }
    }

    /// Forgets what is known of one path.
    pub fn forget_path(&mut self, path: &str)
        ensures
            final(self)@ == retained(|k: Seq<char>| k != path@, old(self)@),
    {
        let ghost keep = |k: Seq<char>| k != path@;
        let ghost all = self@;
        let mut kept: NegativeCache = NegativeCache { entries: Vec::new() };
        let mut i: usize = 0;
        proof {
            assert(kept@ =~= Seq::empty());
            assert(all.take(0) =~= Seq::empty());
        }
        while i < self.entries.len()
            invariant
                i <= self.entries@.len(),
                all == self@,
                *self == *old(self),
                keep == (|k: Seq<char>| k != path@),
                kept@ == retained(keep, all.take(i as int)),
            decreases self.entries@.len() - i,
        {
            proof {
                assert(all.take(i + 1).drop_last() =~= all.take(i as int));
                assert(all.take(i + 1).last() == all[i as int]);
            }
            if !text::eq(self.entries[i].path.as_str(), path) {
                let ghost before = kept@;
                let e: MissingPath = self.copy_of(i);
                kept.entries.push(e);
                assert(kept@ =~= before.push(all[i as int]));
            }
            i = i + 1;
        }
        assert(all.take(all.len() as int) =~= all);
        self.entries = kept.entries;
    }

    /// Forgets what is known of a directory and of everything in it.
    pub fn forget_dir(&mut self, dir: &str)
        ensures
            final(self)@ == retained(|k: Seq<char>| !lies_in(dir@, k), old(self)@),
    {
        let ghost keep = |k: Seq<char>| !lies_in(dir@, k);
        let ghost all = self@;
        let mut prefix: String = dir.to_owned();
        prefix.push('/');
        let mut kept: NegativeCache = NegativeCache { entries: Vec::new() };
        let mut i: usize = 0;
        proof {
            assert(kept@ =~= Seq::empty());
            assert(all.take(0) =~= Seq::empty());
        }
        while i < self.entries.len()
            invariant
                i <= self.entries@.len(),
                all == self@,
                *self == *old(self),
                prefix@ == dir@.push('/'),
                keep == (|k: Seq<char>| !lies_in(dir@, k)),
                kept@ == retained(keep, all.take(i as int)),
            decreases self.entries@.len() - i,
        {
            proof {
                assert(all.take(i + 1).drop_last() =~= all.take(i as int));
                assert(all.take(i + 1).last() == all[i as int]);
            }
            if !(dir.is_empty() || text::eq(self.entries[i].path.as_str(), dir)
                || text::starts_with(self.entries[i].path.as_str(), prefix.as_str())) {
                let ghost before = kept@;
                let e: MissingPath = self.copy_of(i);
                kept.entries.push(e);
                assert(kept@ =~= before.push(all[i as int]));
            }
            i = i + 1;
        }
        assert(all.take(all.len() as int) =~= all);
        self.entries = kept.entries;
    }

    /// Forgets what is known of a path and of every directory on the way to it.
    pub fn forget_way(&mut self, path: &str)
        ensures
            final(self)@ == retained(|k: Seq<char>| !is_on_way(path@, k), old(self)@),
    {
        let mut current: String = path.to_owned();
        let ghost start = self@;
        let ghost all = |k: Seq<char>| !is_on_way(path@, k);
        let ghost mut done: spec_fn(Seq<char>) -> bool = |k: Seq<char>| true;
        proof {
            lemma_retained_all(start);
        }
        loop
            invariant_except_break
                self@ == retained(done, start),
                forall|k: Seq<char>|
                    #![trigger done(k)]
                    (done(k) && !is_on_way(current@, k)) == !is_on_way(path@, k),
            ensures
                self@ == retained(|k: Seq<char>| !is_on_way(path@, k), start),
            decreases current@.len(),
        {
            let ghost drop = |k: Seq<char>| k != current@;
            let ghost next = |k: Seq<char>| done(k) && k != current@;
            self.forget_path(current.as_str());
            proof {
                lemma_retained_twice(done, drop, next, start);
            }
            if !inode::has_parent(current.as_str()) {
                proof {
                    assert forall|k: Seq<char>| next(k) == !is_on_way(path@, k) by {
                        assert((done(k) && !is_on_way(current@, k)) == !is_on_way(path@, k));
                    }
                    lemma_retained_same(next, |k: Seq<char>| !is_on_way(path@, k), start);
                }
                break;
            }
            let dir: String = inode::parent_of(current.as_str());
            proof {
                inode::lemma_last_slash(current@);
                assert forall|k: Seq<char>|
                    #![trigger next(k)]
                    (next(k) && !is_on_way(dir@, k)) == !is_on_way(path@, k) by {
                    assert((done(k) && !is_on_way(current@, k)) == !is_on_way(path@, k));
                }
                done = next;
            }
            current = dir;
        }
    }
}

/// What the first entries say of a path is what all of them say.
proof fn lemma_first_missing(entries: Seq<(Seq<char>, Span)>, path: Seq<char>, n: int)
    requires
        0 <= n <= entries.len(),
        missing_since(entries.take(n), path) is Some,
    ensures
        missing_since(entries, path) == missing_since(entries.take(n), path),
    decreases entries.len(),
{
    if n < entries.len() {
        assert(entries.drop_last().take(n) =~= entries.take(n));
        lemma_first_missing(entries.drop_last(), path, n);
    } else {
        assert(entries.take(n) =~= entries);
    }
}

proof fn lemma_retained_all(entries: Seq<(Seq<char>, Span)>)
    ensures
        retained(|k: Seq<char>| true, entries) == entries,
    decreases entries.len(),
{
    if entries.len() > 0 {
        lemma_retained_all(entries.drop_last());
        assert(entries.drop_last().push(entries.last()) =~= entries);
    } else {
        assert(entries =~= Seq::empty());
    }
}

proof fn lemma_retained_twice(
    a: spec_fn(Seq<char>) -> bool,
    b: spec_fn(Seq<char>) -> bool,
    both: spec_fn(Seq<char>) -> bool,
    entries: Seq<(Seq<char>, Span)>,
)
    requires
        forall|k: Seq<char>| #[trigger] both(k) == (a(k) && b(k)),
    ensures
        retained(b, retained(a, entries)) == retained(both, entries),
    decreases entries.len(),
{
    if entries.len() > 0 {
        let rest = entries.drop_last();
        let last = entries.last();
        lemma_retained_twice(a, b, both, rest);
        assert(both(last.0) == (a(last.0) && b(last.0)));
        if a(last.0) {
            let r = retained(a, rest).push(last);
            assert(r.drop_last() =~= retained(a, rest));
            assert(r.last() == last);
        }
    }
}

proof fn lemma_retained_same(
    a: spec_fn(Seq<char>) -> bool,
    b: spec_fn(Seq<char>) -> bool,
    entries: Seq<(Seq<char>, Span)>,
)
    requires
        forall|k: Seq<char>| #[trigger] a(k) == b(k),
    ensures
        retained(a, entries) == retained(b, entries),
    decreases entries.len(),
{
    if entries.len() > 0 {
        lemma_retained_same(a, b, entries.drop_last());
        assert(a(entries.last().0) == b(entries.last().0));
    }
}

/// Everything lies in the root. In another directory lie the directory itself and
/// what a slash leads to from it, but not a path that merely begins alike.
pub proof fn law_what_lies_in_a_directory(dir: Seq<char>, rest: Seq<char>, c: char)
    ensures
        lies_in(Seq::empty(), rest),
        lies_in(dir, dir),
        lies_in(dir, dir.push('/') + rest),
        dir.len() > 0 && c != '/' ==> !lies_in(dir, dir.push(c) + rest),
        dir.len() > 0 && rest.len() < dir.len() ==> !lies_in(dir, rest),
{
    let below = dir.push('/') + rest;
    assert(below.subrange(0, dir.len() as int + 1) =~= dir.push('/'));
    if dir.len() > 0 && c != '/' {
        let beside = dir.push(c) + rest;
        assert(beside[dir.len() as int] == c);
        if dir.push('/').is_prefix_of(beside) {
            assert(dir.push('/')[dir.len() as int] == beside[dir.len() as int]);
        }
    }
}

/// What is kept is kept in order, and as often as it was there.
pub proof fn law_kept_entries_keep_their_order(
    keep: spec_fn(Seq<char>) -> bool,
    entries: Seq<(Seq<char>, Span)>,
)
    ensures
        retained(keep, entries) == entries.filter(|e: (Seq<char>, Span)| keep(e.0)),
    decreases entries.len(),
{
    reveal(Seq::filter);
    if entries.len() > 0 {
        law_kept_entries_keep_their_order(keep, entries.drop_last());
    }
}

/// A path is missing since the first entry for it says so, and not known to be
/// missing where there is none.
pub proof fn law_first_entry_counts(entries: Seq<(Seq<char>, Span)>, path: Seq<char>, k: int)
    requires
        forall|j: int| 0 <= j < k && j < entries.len() ==> (#[trigger] entries[j]).0 != path,
        0 <= k <= entries.len(),
        k < entries.len() ==> entries[k].0 == path,
    ensures
        missing_since(entries, path) == if k < entries.len() {
            Some(entries[k].1)
        } else {
            None
        },
    decreases entries.len(),
{
    if entries.len() > 0 {
        let rest = entries.drop_last();
        let last = entries.len() - 1;
        assert(entries[last] == entries.last());
        assert forall|j: int| 0 <= j < k && j < rest.len() implies (#[trigger] rest[j]).0
            != path by {
            assert(rest[j] == entries[j]);
        }
        if k < last {
            assert(rest[k] == entries[k]);
            law_first_entry_counts(rest, path, k);
        } else {
            law_first_entry_counts(rest, path, last);
        }
    }
}

} // verus!
