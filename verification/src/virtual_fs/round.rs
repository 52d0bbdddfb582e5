//! Poll rounds: what the listings of a round show, and when the next round is
//! due.

use vstd::arithmetic::power2::lemma2_to64;
use vstd::prelude::*;

use crate::error::{Error, Result};
use crate::hub_api::client;
use crate::hub_api::client::{EntryView, TreeEntry};
use crate::hub_api::http;
use crate::text;
use crate::time::Span;
use crate::virtual_fs::backoff;
use crate::virtual_fs::backoff::Backoff;
use crate::virtual_fs::inode;
use crate::virtual_fs::inode::{InodeTable, InodeView};
use crate::virtual_fs::poll;

verus! {

/// The listing of one directory.
pub struct Listing {
    pub prefix: String,
    pub result: Result<Vec<TreeEntry>>,
}

/// What a listing gave: its entries, unless it failed.
pub open spec fn listed(l: Listing) -> Option<Seq<EntryView>> {
    match l.result {
        Ok(entries) => Some(client::entry_views(entries@)),
        Err(_) => None,
    }
}

/// Whether `path` was listed successfully.
pub open spec fn listed_ok(listings: Seq<Listing>, path: Seq<char>) -> bool {
    exists|i: int|
        0 <= i < listings.len() && (#[trigger] listings[i]).prefix@ == path && listed(
            listings[i],
        ) is Some
}

/// Whether listing `path` failed.
pub open spec fn listing_failed(listings: Seq<Listing>, path: Seq<char>) -> bool {
    exists|i: int|
        0 <= i < listings.len() && (#[trigger] listings[i]).prefix@ == path && listed(
            listings[i],
        ) is None
}

/// Everything that was listed.
pub open spec fn all_listed(listings: Seq<Listing>) -> Seq<EntryView>
    decreases listings.len(),
{
    if listings.len() == 0 {
        Seq::empty()
    } else {
        match listed(listings.last()) {
            Some(entries) => all_listed(listings.drop_last()) + entries,
            None => all_listed(listings.drop_last()),
        }
    }
}

/// Whether `path` was listed as a directory.
pub open spec fn shown_as_dir(entries: Seq<EntryView>, path: Seq<char>) -> bool {
    exists|i: int|
        0 <= i < entries.len() && (#[trigger] entries[i]).entry_type == "directory"@
            && entries[i].path == path
}

/// Whether the remote contents of the directory `path` are known after a round:
/// it was listed, or its listing failed because it is gone. It is gone if the
/// directory that it lies in is known and does not show it.
pub open spec fn is_known(listings: Seq<Listing>, path: Seq<char>) -> bool
    decreases path.len(),
{
    ||| listed_ok(listings, path)
    ||| path.len() > 0 && listing_failed(listings, path) && !shown_as_dir(
        all_listed(listings),
        path,
    ) && ({
        proof {
            inode::lemma_last_slash(path);
        }
        is_known(listings, inode::parent_path(path))
    })
}

/// What the listings of a round show.
pub struct RoundOutcome {
    /// Everything that was listed.
    pub entries: Vec<TreeEntry>,
    /// The directories whose remote contents are known.
    pub polled: Vec<String>,
    /// A listing failed with a status the caller should back off on
    /// (401/transient).
    pub saw_backoff_status: bool,
    /// Every directory was listed or confirmed deleted, so the inode table will
    /// mirror the remote for the directories it has loaded.
    pub complete: bool,
}

fn find_listing(listings: &Vec<Listing>, path: &str, ok: bool) -> (r: bool)
    ensures
        r == if ok {
            listed_ok(listings@, path@)
        } else {
            listing_failed(listings@, path@)
        },
{
    let mut i: usize = 0;
    while i < listings.len()
        invariant
            i <= listings@.len(),
            forall|j: int|
                0 <= j < i ==> !((#[trigger] listings@[j]).prefix@ == path@ && (listed(
                    listings@[j],
                ) is Some) == ok),
        decreases listings@.len() - i,
    {
        if text::eq(listings[i].prefix.as_str(), path) && listings[i].result.is_ok() == ok {
            assert(listings@[i as int].prefix@ == path@);
            return true;
        }
        i = i + 1;
    }
    false
}

fn find_dir(entries: &Vec<TreeEntry>, path: &str) -> (r: bool)
    ensures
        r == shown_as_dir(client::entry_views(entries@), path@),
{
    let ghost views = client::entry_views(entries@);
    let mut i: usize = 0;
    while i < entries.len()
        invariant
            i <= entries@.len(),
            views == client::entry_views(entries@),
            forall|j: int|
                0 <= j < i ==> !((#[trigger] views[j]).entry_type == "directory"@ && views[j].path
                    == path@),
        decreases entries@.len() - i,
    {
        assert(views[i as int] == entries@[i as int]@);
        if text::eq(entries[i].entry_type.as_str(), "directory") && text::eq(
            entries[i].path.as_str(),
            path,
        ) {
            return true;
        }
        i = i + 1;
    }
    false
}

fn check_known(listings: &Vec<Listing>, entries: &Vec<TreeEntry>, path: &str) -> (r: bool)
    requires
        client::entry_views(entries@) == all_listed(listings@),
    ensures
        r == is_known(listings@, path@),
    decreases path@.len(),
{
    if find_listing(listings, path, true) {
        return true;
    }
    if path.is_empty() || !find_listing(listings, path, false) || find_dir(entries, path) {
        return false;
    }
    let parent: String = inode::parent_of(path);
    proof {
        inode::lemma_last_slash(path@);
    }
    check_known(listings, entries, parent.as_str())
}

/// Everything that was listed.
fn collect_entries(listings: &Vec<Listing>) -> (r: Vec<TreeEntry>)
    ensures
        client::entry_views(r@) == all_listed(listings@),
{
    let mut all: Vec<TreeEntry> = Vec::new();
    let mut i: usize = 0;
    proof {
        assert(listings@.take(0) =~= Seq::empty());
        assert(client::entry_views(all@) =~= Seq::empty());
    }
    while i < listings.len()
        invariant
            i <= listings@.len(),
            client::entry_views(all@) == all_listed(listings@.take(i as int)),
        decreases listings@.len() - i,
    {
        proof {
            assert(listings@.take(i + 1).drop_last() =~= listings@.take(i as int));
            assert(listings@.take(i + 1).last() == listings@[i as int]);
        }
        let ghost before = client::entry_views(all@);
        match &listings[i].result {
            Ok(entries) => {
                let ghost views = client::entry_views(entries@);
                let mut k: usize = 0;
                assert(before + views.take(0) =~= before);
                while k < entries.len()
                    invariant
                        k <= entries@.len(),
                        views == client::entry_views(entries@),
                        client::entry_views(all@) == before + views.take(k as int),
                    decreases entries@.len() - k,
                {
                    let e: TreeEntry = entries[k].with_path(entries[k].path.clone());
                    let ghost so_far = all@;
                    all.push(e);
                    proof {
                        assert(e@ == entries@[k as int]@);
                        assert(client::entry_views(all@) =~= client::entry_views(so_far).push(e@));
                        assert(client::entry_views(all@) =~= before + views.take(k + 1));
                    }
                    k = k + 1;
                }
                assert(views.take(views.len() as int) =~= views);
            },
            Err(_) => {},
        }
        i = i + 1;
    }
    assert(listings@.take(listings@.len() as int) =~= listings@);
    all
}

/// What the listings of a round show. A listing that failed because its
/// directory is gone counts as known, so that the files in it are dropped.
pub fn classify_round(listings: &Vec<Listing>) -> (r: RoundOutcome)
    ensures
        client::entry_views(r.entries@) == all_listed(listings@),
        forall|p: Seq<char>| text::views(r.polled@).contains(p) <==> #[trigger] is_known(listings@, p),
        r.saw_backoff_status <==> exists|i: int|
            0 <= i < listings@.len() && ((#[trigger] listings@[i]).result matches Err(e)
                && poll::calls_for_back_off(e)),
        r.complete <==> forall|p: Seq<char>| #[trigger]
            listing_failed(listings@, p) ==> is_known(listings@, p),
{
    let entries: Vec<TreeEntry> = collect_entries(listings);
    let mut polled: Vec<String> = Vec::new();
    let mut saw_backoff_status: bool = false;
    let mut complete: bool = true;
    let mut i: usize = 0;
    while i < listings.len()
        invariant
            i <= listings@.len(),
            client::entry_views(entries@) == all_listed(listings@),
            forall|k: int| 0 <= k < polled@.len() ==> is_known(listings@, (#[trigger] polled@[k])@),
            forall|j: int|
                0 <= j < i && is_known(listings@, (#[trigger] listings@[j]).prefix@)
                    ==> text::views(polled@).contains(listings@[j].prefix@),
            saw_backoff_status <==> exists|j: int|
                0 <= j < i && ((#[trigger] listings@[j]).result matches Err(e)
                    && poll::calls_for_back_off(e)),
            complete <==> forall|j: int|
                0 <= j < i && listed(#[trigger] listings@[j]) is None ==> is_known(
                    listings@,
                    listings@[j].prefix@,
                ),
        decreases listings@.len() - i,
    {
        let l: &Listing = &listings[i];
        let known: bool = check_known(listings, &entries, l.prefix.as_str());
        let ghost before = polled@;
        if known {
            polled.push(l.prefix.clone());
            proof {
                let n = before.len() as int;
                assert(text::views(polled@) =~= text::views(before).push(l.prefix@));
                assert(text::views(polled@)[n] == l.prefix@);
                assert forall|j: int|
                    0 <= j < i + 1 && is_known(
                        listings@,
                        (#[trigger] listings@[j]).prefix@,
                    ) implies text::views(polled@).contains(listings@[j].prefix@) by {
                    if j < i {
                        let p = listings@[j].prefix@;
                        let k = choose|k: int| 0 <= k < before.len() && text::views(before)[k] == p;
                        assert(text::views(polled@)[k] == p);
                    }
                }
            }
        }
        match &l.result {
            Ok(_) => {},
            Err(e) => {
                if poll::should_back_off(e) {
                    saw_backoff_status = true;
                }
                if !known {
                    complete = false;
                }
            },
        }
        i = i + 1;
    }
    proof {
        let paths = text::views(polled@);
        assert forall|p: Seq<char>| paths.contains(p) <==> #[trigger] is_known(listings@, p) by {
            if paths.contains(p) {
                let k = choose|k: int| 0 <= k < paths.len() && paths[k] == p;
                assert(polled@[k]@ == p);
            }
            if is_known(listings@, p) {
                let j = choose|j: int|
                    0 <= j < listings@.len() && (#[trigger] listings@[j]).prefix@ == p;
                assert(listings@[j].prefix@ == p);
            }
        }
        assert(complete <==> forall|p: Seq<char>| #[trigger]
            listing_failed(listings@, p) ==> is_known(listings@, p)) by {
            if complete {
                assert forall|p: Seq<char>| #[trigger] listing_failed(
                    listings@,
                    p,
                ) implies is_known(listings@, p) by {
                    let j = choose|j: int|
                        0 <= j < listings@.len() && (#[trigger] listings@[j]).prefix@ == p
                            && listed(listings@[j]) is None;
                    assert(listed(listings@[j]) is None);
                }
            } else {
                let j = choose|j: int|
                    0 <= j < listings@.len() && listed(#[trigger] listings@[j]) is None
                        && !is_known(listings@, listings@[j].prefix@);
                assert(listing_failed(listings@, listings@[j].prefix@));
            }
        }
    }
    RoundOutcome { entries, polled, saw_backoff_status, complete }
}

/// A directory that was listed as such by the directory that it lies in is not
/// taken for gone because its own listing failed.
pub proof fn law_shown_directories_are_not_gone(listings: Seq<Listing>, path: Seq<char>)
    requires
        shown_as_dir(all_listed(listings), path),
        !listed_ok(listings, path),
    ensures
        !is_known(listings, path),
{
}

/// When a directory is gone, so are those in it: where nothing shows them, a
/// failed listing of one in a known directory makes it known too.
pub proof fn law_deletion_cascades(listings: Seq<Listing>, path: Seq<char>)
    requires
        path.len() > 0,
        listing_failed(listings, path),
        !shown_as_dir(all_listed(listings), path),
        is_known(listings, inode::parent_path(path)),
    ensures
        is_known(listings, path),
{
}

/// What a poll loop does next.
#[derive(Debug, Clone, Copy, PartialEq, Eq, Structural)]
pub enum PollStep {
    /// Wait for the next probe.
    Wait,
    /// List every loaded directory.
    List,
}

/// What a poll loop makes of a probe: the revision that it has seen then, how many
/// times its wait has doubled, and what it does next.
pub open spec fn after_poll_probe(
    revision: Option<Seq<char>>,
    level: nat,
    probe: core::result::Result<Seq<char>, Error>,
) -> (Option<Seq<char>>, nat, PollStep) {
    match probe {
        Ok(rev) => (
            Some(rev),
            0,
            if revision == Some(rev) {
                PollStep::Wait
            } else {
                PollStep::List
            },
        ),
        Err(e) => (
            revision,
            if poll::calls_for_back_off(e) {
                backoff::next_level(level)
            } else {
                level
            },
            if e.spec_status() == Some(401u16) {
                PollStep::Wait
            } else {
                PollStep::List
            },
        ),
    }
}

/// A probe that succeeds ends every wait, is remembered, and leads to a listing
/// exactly where the revision is another than the one seen last: asked again, it
/// leads to none.
pub proof fn law_probes_lead_to_a_listing_once(
    revision: Option<Seq<char>>,
    level: nat,
    rev: Seq<char>,
)
    ensures
        ({
            let once = after_poll_probe(revision, level, Ok(rev));
            let twice = after_poll_probe(once.0, once.1, Ok(rev));
            &&& once.0 == Some(rev)
            &&& once.1 == 0
            &&& once.2 == PollStep::List <==> revision != Some(rev)
            &&& twice.0 == Some(rev)
            &&& twice.1 == 0
            &&& twice.2 == PollStep::Wait
        }),
{
}

/// A probe that fails is not remembered, and leads to a listing all the same, unless
/// the token was refused. Where the server is overloaded, does not answer or refuses
/// the token, the wait doubles; other failures leave it.
pub proof fn law_failed_probes_lead_to_a_listing(
    revision: Option<Seq<char>>,
    level: nat,
    e: Error,
)
    requires
        level <= 6,
    ensures
        ({
            let r = after_poll_probe(revision, level, Err(e));
            let refused = e matches Error::Hub { status: Some(s), message } && s == 401;
            let overloaded = e is Http || (e matches Error::Hub { status: Some(s), message } && (s
                == 408 || s == 429 || (500 <= s && s < 600)));
            &&& r.0 == revision
            &&& r.2 == PollStep::Wait <==> refused
            &&& refused || overloaded ==> r.1 == if level < 6 {
                level + 1
            } else {
                6
            }
            &&& !refused && !overloaded ==> r.1 == level
        }),
{
}

/// How many times the wait of a poll loop has doubled after a round.
pub open spec fn level_after_round(level: nat, saw_backoff_status: bool) -> nat {
    if saw_backoff_status {
        backoff::next_level(level)
    } else {
        0
    }
}

/// A round that was not held up ends every wait, and one that was doubles it, up to
/// 64 times the interval.
pub proof fn law_rounds_set_the_wait(interval: Span, level: nat)
    requires
        interval.wf(),
        level <= 6,
        64 * interval.total() <= Span::longest().total(),
    ensures
        backoff::backoff_nanos(interval, level_after_round(level, false)) == interval.total(),
        level < 6 ==> backoff::backoff_nanos(interval, level_after_round(level, true)) == 2
            * backoff::backoff_nanos(interval, level),
        backoff::backoff_nanos(interval, level_after_round(6, true)) == 64 * interval.total(),
{
    backoff::law_backoff_doubles(interval, level);
    backoff::law_backoff_is_bounded(interval, level);
    if level < 6 {
        backoff::law_backoff_is_bounded(interval, 5);
        backoff::law_backoff_grows(interval, level, 5);
        backoff::law_backoff_doubles(interval, 5);
        lemma2_to64();
    }
}

/// A loop that is not backing off waits for its interval.
pub proof fn law_quiet_loops_wait_for_their_interval(l: PollLoop, d: Span)
    requires
        l.wf(),
        call_ensures(PollLoop::delay, (&l,), d),
        l.level() == 0,
        l.interval().wf(),
    ensures
        d.total() == l.interval().total(),
{
    backoff::law_backoff_doubles(l.interval(), 0);
}

/// A poll loop: it waits, asks for the revision, and lists the loaded
/// directories where the revision has changed.
pub struct PollLoop {
    last_revision: Option<String>,
    backoff: Backoff,
}

impl PollLoop {
    /// The revision that was seen last. None forces a full listing.
    pub closed spec fn revision(self) -> Option<Seq<char>> {
        crate::hub_api::http::opt_view(self.last_revision)
    }

    /// The interval between probes while all is well.
    pub closed spec fn interval(self) -> Span {
        self.backoff.base()
    }

    /// How many times the wait has doubled.
    pub closed spec fn level(self) -> nat {
        self.backoff.level()
    }

    /// Whether the wait is within bounds.
    pub closed spec fn wf(self) -> bool {
        self.backoff.wf()
    }

    /// A loop that probes every `interval`, primed with the revision that an
    /// initial probe gave, so that a freshly mounted source is not listed again
    /// without need.
    pub fn new(interval: Span, revision: Option<String>) -> (l: PollLoop)
        requires
            interval.wf(),
        ensures
            l.wf(),
            l.interval() == interval,
            l.revision() == crate::hub_api::http::opt_view(revision),
            l.level() == 0,
    {
        PollLoop { last_revision: revision, backoff: Backoff::new(interval) }
    }

    /// How long to wait before the next probe.
    pub fn delay(&self) -> (d: Span)
        requires
            self.wf(),
        ensures
            d.wf(),
            d.total() == backoff::backoff_nanos(self.interval(), self.level()),
    {
        self.backoff.delay()
    }

    /// Takes in what a probe gave. A successful probe means that the Hub
    /// recovered, even when the revision is unchanged: otherwise a
    /// healthy-but-quiet mount would stay at the longest interval until the next
    /// remote change. A failed probe leads to a full listing, since the probe is
    /// an optimization, not a gate; only a refused token (401) waits instead,
    /// because a listing would be refused as well. A failure that calls for it
    /// makes the next wait longer.
    pub fn on_probe(&mut self, probe: Result<String>) -> (step: PollStep)
        requires
            old(self).wf(),
        ensures
            final(self).wf(),
            final(self).interval() == old(self).interval(),
            (final(self).revision(), final(self).level(), step) == after_poll_probe(
                old(self).revision(),
                old(self).level(),
                match probe {
                    Ok(rev) => Ok(rev@),
                    Err(e) => Err(e),
                },
            ),
            match probe {
                Ok(rev) => {
                    &&& final(self).level() == 0
                    &&& final(self).revision() == Some(rev@)
                    &&& step == if old(self).revision() == Some(rev@) {
                        PollStep::Wait
                    } else {
                        PollStep::List
                    }
                },
                Err(e) => {
                    &&& final(self).revision() == old(self).revision()
                    &&& step == if e.spec_status() == Some(401u16) {
                        PollStep::Wait
                    } else {
                        PollStep::List
                    }
                    &&& final(self).level() == if poll::calls_for_back_off(e) {
                        backoff::next_level(old(self).level())
                    } else {
                        old(self).level()
                    }
                },
            },
    {
        match probe {
            Ok(rev) => {
                self.backoff.reset();
                let same: bool = match &self.last_revision {
                    Some(last) => text::eq(last.as_str(), rev.as_str()),
                    None => false,
                };
                self.last_revision = Some(rev);
                if same {
                    PollStep::Wait
                } else {
                    PollStep::List
                }
            },
            Err(e) => {
                if poll::should_back_off(&e) {
                    self.backoff.next();
                }
                match e.status() {
                    Some(401) => PollStep::Wait,
                    _ => PollStep::List,
                }
            },
        }
    }

    /// Takes in how a round went: failures that call for it make the next wait
    /// longer, anything else ends the waiting.
    pub fn on_round(&mut self, saw_backoff_status: bool)
        requires
            old(self).wf(),
        ensures
            final(self).wf(),
            final(self).interval() == old(self).interval(),
            final(self).revision() == old(self).revision(),
            final(self).level() == level_after_round(old(self).level(), saw_backoff_status),
            final(self).level() == if saw_backoff_status {
                backoff::next_level(old(self).level())
            } else {
                0
            },
    {
        if saw_backoff_status {
            self.backoff.next();
        } else {
            self.backoff.reset();
        }
    }
}

/// The table after the sizes that were read from containers were taken over; a
/// probe that failed changes nothing, so that the next round tries again.
pub open spec fn after_probes(
    t: Map<u64, InodeView>,
    probed: Seq<(u64, Option<u64>)>,
) -> Map<u64, InodeView>
    decreases probed.len(),
{
    if probed.len() == 0 {
        t
    } else {
        let before = after_probes(t, probed.drop_last());
        let (ino, size) = probed.last();
        match size {
            Some(n) => if before.dom().contains(ino) && !before[ino].dirty {
                before.insert(
                    ino,
                    InodeView { size: n, needs_size_probe: false, ..before[ino] },
                )
            } else {
                before
            },
            None => before,
        }
    }
}

/// Takes over the sizes that were read from the headers of containers.
pub fn apply_probed_sizes(inode_table: &mut InodeTable, probed: &Vec<(u64, Option<u64>)>)
    requires
        old(inode_table).wf(),
    ensures
        final(inode_table).wf(),
        final(inode_table)@ == after_probes(old(inode_table)@, probed@),
{
    let ghost t0 = inode_table@;
    let mut i: usize = 0;
    assert(probed@.take(0) =~= Seq::empty());
    while i < probed.len()
        invariant
            i <= probed@.len(),
            inode_table.wf(),
            inode_table@ == after_probes(t0, probed@.take(i as int)),
        decreases probed@.len() - i,
    {
        proof {
            assert(probed@.take(i + 1).drop_last() =~= probed@.take(i as int));
            assert(probed@.take(i + 1).last() == probed@[i as int]);
        }
        let (ino, size) = probed[i];
        match size {
            Some(n) => {
                inode_table.set_probed_size(ino, n);
            },
            None => {},
        }
        i = i + 1;
    }
    assert(probed@.take(probed@.len() as int) =~= probed@);
}

proof fn lemma_all_listed(listings: Seq<Listing>, i: int, k: int) -> (m: int)
    requires
        0 <= i < listings.len(),
        listed(listings[i]) is Some,
        0 <= k < listed(listings[i])->0.len(),
    ensures
        0 <= m < all_listed(listings).len(),
        all_listed(listings)[m] == listed(listings[i])->0[k],
    decreases listings.len(),
{
    let rest = listings.drop_last();
    if i < rest.len() {
        assert(rest[i] == listings[i]);
        lemma_all_listed(rest, i, k)
    } else {
        all_listed(rest).len() as int + k
    }
}

proof fn lemma_listed_somewhere(listings: Seq<Listing>, m: int) -> (at: (int, int))
    requires
        0 <= m < all_listed(listings).len(),
    ensures
        0 <= at.0 < listings.len(),
        listed(listings[at.0]) is Some,
        0 <= at.1 < listed(listings[at.0])->0.len(),
        all_listed(listings)[m] == listed(listings[at.0])->0[at.1],
    decreases listings.len(),
{
    let rest = listings.drop_last();
    let before = all_listed(rest);
    if m < before.len() {
        let at = lemma_listed_somewhere(rest, m);
        assert(rest[at.0] == listings[at.0]);
        at
    } else {
        (listings.len() - 1, m - before.len())
    }
}

/// A round loses nothing of what its listings show: every entry of a listing that
/// succeeded is among those of the round, field by field.
pub proof fn law_rounds_keep_every_entry(
    listings: Vec<Listing>,
    r: RoundOutcome,
    i: int,
    entries: Vec<TreeEntry>,
    k: int,
) -> (m: int)
    requires
        call_ensures(classify_round, (&listings,), r),
        0 <= i < listings@.len(),
        listings@[i].result == Ok::<Vec<TreeEntry>, Error>(entries),
        0 <= k < entries@.len(),
    ensures
        0 <= m < r.entries@.len(),
        r.entries@[m].path@ == entries@[k].path@,
        r.entries@[m].entry_type@ == entries@[k].entry_type@,
        r.entries@[m].size == entries@[k].size,
        http::opt_view(r.entries@[m].xet_hash) == http::opt_view(entries@[k].xet_hash),
        http::opt_view(r.entries@[m].oid) == http::opt_view(entries@[k].oid),
        http::opt_view(r.entries@[m].mtime) == http::opt_view(entries@[k].mtime),
{
    assert(client::entry_views(entries@)[k] == entries@[k]@);
    let m = lemma_all_listed(listings@, i, k);
    assert(client::entry_views(r.entries@)[m] == r.entries@[m]@);
    assert(r.entries@[m]@ == entries@[k]@);
    m
}

/// A round makes nothing up: every entry of it is one of a listing that succeeded.
pub proof fn law_rounds_make_nothing_up(
    listings: Vec<Listing>,
    r: RoundOutcome,
    m: int,
) -> (at: (int, int))
    requires
        call_ensures(classify_round, (&listings,), r),
        0 <= m < r.entries@.len(),
    ensures
        0 <= at.0 < listings@.len(),
        listings@[at.0].result matches Ok(entries) && 0 <= at.1 < entries@.len()
            && r.entries@[m].path@ == entries@[at.1].path@ && r.entries@[m].entry_type@
            == entries@[at.1].entry_type@ && r.entries@[m].size == entries@[at.1].size,
{
    assert(client::entry_views(r.entries@)[m] == r.entries@[m]@);
    let at = lemma_listed_somewhere(listings@, m);
    let entries = listings@[at.0].result->Ok_0;
    assert(client::entry_views(entries@)[at.1] == entries@[at.1]@);
    at
}

/// The contents of a directory that was listed successfully are known, and only of
/// directories that the round asked for.
pub proof fn law_listed_directories_are_known(
    listings: Vec<Listing>,
    r: RoundOutcome,
    path: Seq<char>,
)
    requires
        call_ensures(classify_round, (&listings,), r),
    ensures
        (exists|i: int|
            0 <= i < listings@.len() && (#[trigger] listings@[i]).prefix@ == path
                && listings@[i].result is Ok) ==> text::views(r.polled@).contains(path),
        text::views(r.polled@).contains(path) ==> exists|i: int|
            0 <= i < listings@.len() && (#[trigger] listings@[i]).prefix@ == path,
{
    assert(text::views(r.polled@).contains(path) == is_known(listings@, path));
    if exists|i: int|
        0 <= i < listings@.len() && (#[trigger] listings@[i]).prefix@ == path
            && listings@[i].result is Ok {
        let i = choose|i: int|
            0 <= i < listings@.len() && (#[trigger] listings@[i]).prefix@ == path
                && listings@[i].result is Ok;
        assert(listed(listings@[i]) is Some);
        assert(listed_ok(listings@, path));
    }
}

/// A directory whose listing failed counts as gone only if it is not shown: neither
/// the root, nor one that an entry of the round shows as a directory, nor one in a
/// directory that is not known itself. Where all of that is so, it does.
pub proof fn law_failed_directories_are_gone_if_not_shown(
    listings: Vec<Listing>,
    r: RoundOutcome,
    path: Seq<char>,
    i: int,
)
    requires
        call_ensures(classify_round, (&listings,), r),
        0 <= i < listings@.len(),
        listings@[i].prefix@ == path,
        listings@[i].result is Err,
        forall|j: int|
            0 <= j < listings@.len() && (#[trigger] listings@[j]).prefix@ == path
                ==> listings@[j].result is Err,
    ensures
        text::views(r.polled@).contains(path) <==> {
            &&& path.len() > 0
            &&& forall|m: int|
                0 <= m < r.entries@.len() ==> (#[trigger] r.entries@[m]).entry_type@
                    != "directory"@ || r.entries@[m].path@ != path
            &&& text::views(r.polled@).contains(inode::parent_path(path))
        },
{
    let up = inode::parent_path(path);
    let views = client::entry_views(r.entries@);
    assert(text::views(r.polled@).contains(path) == is_known(listings@, path));
    assert(text::views(r.polled@).contains(up) == is_known(listings@, up));
    assert(listed(listings@[i]) is None);
    assert(listing_failed(listings@, path));
    assert(!listed_ok(listings@, path));
    assert forall|m: int| 0 <= m < r.entries@.len() implies views[m] == r.entries@[m]@ by {}
    if shown_as_dir(views, path) {
        let m = choose|m: int|
            0 <= m < views.len() && (#[trigger] views[m]).entry_type == "directory"@
                && views[m].path == path;
        assert(r.entries@[m].entry_type@ == "directory"@);
    } else {
        assert forall|m: int| 0 <= m < r.entries@.len() implies (#[trigger] r.entries@[m]).entry_type@
            != "directory"@ || r.entries@[m].path@ != path by {
            assert(views[m] == r.entries@[m]@);
        }
    }
}

/// A round is complete where every directory that was asked for is known in the
/// end.
pub proof fn law_complete_rounds_know_every_directory(listings: Vec<Listing>, r: RoundOutcome)
    requires
        call_ensures(classify_round, (&listings,), r),
    ensures
        r.complete <==> forall|i: int|
            0 <= i < listings@.len() ==> text::views(r.polled@).contains(
                (#[trigger] listings@[i]).prefix@,
            ),
{
    let known = text::views(r.polled@);
    if r.complete {
        assert forall|i: int| 0 <= i < listings@.len() implies known.contains(
            (#[trigger] listings@[i]).prefix@,
        ) by {
            let p = listings@[i].prefix@;
            assert(known.contains(p) == is_known(listings@, p));
            if listings@[i].result is Ok {
                assert(listed(listings@[i]) is Some);
                assert(listed_ok(listings@, p));
            } else {
                assert(listed(listings@[i]) is None);
                assert(listing_failed(listings@, p));
            }
        }
    } else {
        let p = choose|p: Seq<char>| #[trigger] listing_failed(listings@, p) && !is_known(
            listings@,
            p,
        );
        let i = choose|i: int|
            0 <= i < listings@.len() && (#[trigger] listings@[i]).prefix@ == p && listed(
                listings@[i],
            ) is None;
        assert(known.contains(p) == is_known(listings@, p));
        assert(!known.contains(listings@[i].prefix@));
    }
}

/// A round calls for backing off exactly where a listing failed because the token
/// was refused, a limit was hit, the server was at fault, or no answer came.
pub proof fn law_rounds_back_off_on_overload(listings: Vec<Listing>, r: RoundOutcome)
    requires
        call_ensures(classify_round, (&listings,), r),
    ensures
        r.saw_backoff_status <==> exists|i: int|
            0 <= i < listings@.len() && match (#[trigger] listings@[i]).result {
                Err(Error::Hub { status: Some(s), message }) => s == 401 || s == 408 || s == 429 || (
                500 <= s && s < 600),
                Err(Error::Http(_)) => true,
                _ => false,
            },
{
    if r.saw_backoff_status {
        let i = choose|i: int|
            0 <= i < listings@.len() && ((#[trigger] listings@[i]).result matches Err(e)
                && poll::calls_for_back_off(e));
        assert(match listings@[i].result {
            Err(Error::Hub { status: Some(s), message }) => s == 401 || s == 408 || s == 429 || (500
                <= s && s < 600),
            Err(Error::Http(_)) => true,
            _ => false,
        });
    }
}

proof fn lemma_probes_of_others(
    t: Map<u64, InodeView>,
    probed: Seq<(u64, Option<u64>)>,
    ino: u64,
)
    requires
        forall|j: int|
            0 <= j < probed.len() ==> (#[trigger] probed[j]).0 != ino || probed[j].1 is None,
    ensures
        after_probes(t, probed).dom().contains(ino) == t.dom().contains(ino),
        after_probes(t, probed)[ino] == t[ino],
    decreases probed.len(),
{
    if probed.len() > 0 {
        let rest = probed.drop_last();
        assert forall|j: int| 0 <= j < rest.len() implies (#[trigger] rest[j]).0 != ino
            || rest[j].1 is None by {
            assert(rest[j] == probed[j]);
        }
        lemma_probes_of_others(t, rest, ino);
        assert(probed[probed.len() - 1] == probed.last());
    }
}

proof fn lemma_probes_keep_dirty(
    t: Map<u64, InodeView>,
    probed: Seq<(u64, Option<u64>)>,
    ino: u64,
)
    ensures
        after_probes(t, probed).dom().contains(ino) == t.dom().contains(ino),
        t.dom().contains(ino) ==> after_probes(t, probed)[ino].dirty == t[ino].dirty,
        t.dom().contains(ino) && t[ino].dirty ==> after_probes(t, probed)[ino] == t[ino],
        t.dom().contains(ino) ==> after_probes(t, probed)[ino] == (InodeView {
            size: after_probes(t, probed)[ino].size,
            needs_size_probe: after_probes(t, probed)[ino].needs_size_probe,
            ..t[ino]
        }),
    decreases probed.len(),
{
    if probed.len() > 0 {
        lemma_probes_keep_dirty(t, probed.drop_last(), ino);
    }
}

/// A size that was read from a container becomes the size that the user sees, and
/// is not asked for again; the last reading counts. Nothing else changes.
pub proof fn law_probed_sizes_are_shown(
    t: Map<u64, InodeView>,
    probed: Seq<(u64, Option<u64>)>,
    i: int,
)
    requires
        0 <= i < probed.len(),
        t.dom().contains(probed[i].0),
        !t[probed[i].0].dirty,
        probed[i].1 is Some,
        forall|j: int|
            i < j < probed.len() ==> (#[trigger] probed[j]).0 != probed[i].0 || probed[j].1 is None,
    ensures
        ({
            let after = after_probes(t, probed);
            let ino = probed[i].0;
            &&& after.dom().contains(ino)
            &&& Some(after[ino].size) == probed[i].1
            &&& !after[ino].needs_size_probe
            &&& after[ino].xet_hash == t[ino].xet_hash
            &&& after[ino].etag == t[ino].etag
            &&& after[ino].cipher_size == t[ino].cipher_size
            &&& after[ino].mtime == t[ino].mtime
            &&& after[ino].path == t[ino].path
            &&& after[ino].nlink == t[ino].nlink
            &&& after[ino].open_handles == t[ino].open_handles
        }),
    decreases probed.len(),
{
    let rest = probed.drop_last();
    let last = probed.len() - 1;
    let ino = probed[i].0;
    lemma_probes_keep_dirty(t, rest, ino);
    assert(probed[last] == probed.last());
    if i < last {
        assert(rest[i] == probed[i]);
        assert forall|j: int| i < j < rest.len() implies (#[trigger] rest[j]).0 != rest[i].0
            || rest[j].1 is None by {
            assert(rest[j] == probed[j]);
        }
        law_probed_sizes_are_shown(t, rest, i);
    }
}

/// A file whose size was not read, or whose reading failed, stays as it is, and so
/// does one with writes that are not flushed.
pub proof fn law_failed_probes_change_nothing(
    t: Map<u64, InodeView>,
    probed: Seq<(u64, Option<u64>)>,
    ino: u64,
)
    requires
        t.dom().contains(ino),
        t[ino].dirty || forall|j: int|
            0 <= j < probed.len() ==> (#[trigger] probed[j]).0 != ino || probed[j].1 is None,
    ensures
        after_probes(t, probed).dom().contains(ino),
        after_probes(t, probed)[ino] == t[ino],
{
    if t[ino].dirty {
        lemma_probes_keep_dirty(t, probed, ino);
    } else {
        lemma_probes_of_others(t, probed, ino);
    }
}

} // verus!
