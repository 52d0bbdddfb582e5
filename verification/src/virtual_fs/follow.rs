//! Live follow: changes as the Hub pushes them, and how the connection that
//! brings them is kept.

use vstd::arithmetic::power2::lemma2_to64;
use vstd::prelude::*;

use crate::error::{Error, Result};
use crate::hub_api::http;
use crate::text;
use crate::time::Span;
use crate::virtual_fs::backoff;
use crate::virtual_fs::backoff::Backoff;
use crate::virtual_fs::inode;
use crate::virtual_fs::inode::{InodeKind, InodeTable, InodeView};
use crate::virtual_fs::negative;
use crate::virtual_fs::negative::NegativeCache;
use crate::virtual_fs::poll;
use crate::virtual_fs::poll::InvalKind;

verus! {

/// What happened to a path.
#[derive(Debug, Clone, Copy, PartialEq, Eq, Structural)]
pub enum FollowOp {
    Add,
    Update,
    Delete,
}

/// One change. An update carries only the fields that changed; absent fields
/// keep their current value (an omitted hash means "unchanged or not readable
/// with this token", never "cleared").
#[derive(Debug, Clone)]
pub struct FollowChange {
    pub op: FollowOp,
    pub path: String,
    pub xet_hash: Option<String>,
    pub size: Option<u64>,
    pub mtime: Option<String>,
    pub uploaded_at: Option<String>,
}

/// The contents of a change.
#[verifier::ext_equal]
pub struct ChangeView {
    pub op: FollowOp,
    pub path: Seq<char>,
    pub xet_hash: Option<Seq<char>>,
    pub size: Option<u64>,
    pub mtime: Option<Seq<char>>,
    pub uploaded_at: Option<Seq<char>>,
}

impl View for FollowChange {
    type V = ChangeView;

    open spec fn view(&self) -> ChangeView {
        ChangeView {
            op: self.op,
            path: self.path@,
            xet_hash: http::opt_view(self.xet_hash),
            size: self.size,
            mtime: http::opt_view(self.mtime),
            uploaded_at: http::opt_view(self.uploaded_at),
        }
    }
}

/// The contents of a list of changes.
pub open spec fn change_views(changes: Seq<FollowChange>) -> Seq<ChangeView> {
    changes.map_values(|c: FollowChange| c@)
}

/// The modification time that a change gives: that of the file, else that of
/// its upload.
pub open spec fn change_mtime(c: ChangeView) -> Option<Span> {
    match c.mtime {
        Some(m) => Some(http::mtime_of(http::rfc3339_seconds(m))),
        None => match c.uploaded_at {
            Some(m) => Some(http::mtime_of(http::rfc3339_seconds(m))),
            None => None,
        },
    }
}

/// The file in the table that a change is about.
pub open spec fn changed_file(t: Map<u64, InodeView>, c: ChangeView) -> Option<u64> {
    match inode::inode_at(t, c.path) {
        Some(ino) => if t[ino].kind == InodeKind::File {
            Some(ino)
        } else {
            None
        },
        None => None,
    }
}

/// The table after a change: a file that is known is updated or dropped in
/// place, unless there are local writes that are not flushed. Anything else is
/// left to the next listing.
pub open spec fn after_change(t: Map<u64, InodeView>, c: ChangeView) -> Map<u64, InodeView> {
    match changed_file(t, c) {
        Some(ino) => if t[ino].dirty {
            t
        } else if c.op == FollowOp::Delete {
            poll::after_removal(t, ino)
        } else {
            t.insert(ino, inode::merged(t[ino], c.xet_hash, c.size, change_mtime(c)))
        },
        None => t,
    }
}

/// What the kernel is told of a change to a known file.
pub open spec fn change_invals(t: Map<u64, InodeView>, c: ChangeView) -> Seq<(u64, InvalKind)> {
    match changed_file(t, c) {
        Some(ino) => if t[ino].dirty {
            Seq::empty()
        } else if c.op == FollowOp::Delete {
            poll::removal_invals(t, ino)
        } else {
            seq![(ino, poll::inval_kind(t, ino))]
        },
        None => Seq::empty(),
    }
}

/// The directory whose listing is stale because of a change to a path at which
/// no file is known: the nearest one on the way there, if it was listed.
pub open spec fn change_stale_dir(t: Map<u64, InodeView>, c: ChangeView) -> Option<u64> {
    let dir = inode::nearest_dir(t, c.path);
    if changed_file(t, c) is None && t.dom().contains(dir) && t[dir].children_loaded {
        Some(dir)
    } else {
        None
    }
}

/// The table after several changes, before stale listings are dropped.
pub open spec fn after_changes(t: Map<u64, InodeView>, changes: Seq<ChangeView>) -> Map<
    u64,
    InodeView,
>
    decreases changes.len(),
{
    if changes.len() == 0 {
        t
    } else {
        after_change(after_changes(t, changes.drop_last()), changes.last())
    }
}

/// What the kernel is told of several changes to known files.
pub open spec fn changes_invals(t: Map<u64, InodeView>, changes: Seq<ChangeView>) -> Seq<
    (u64, InvalKind),
>
    decreases changes.len(),
{
    if changes.len() == 0 {
        Seq::empty()
    } else {
        changes_invals(t, changes.drop_last()) + change_invals(
            after_changes(t, changes.drop_last()),
            changes.last(),
        )
    }
}

/// The directories whose listing is stale because of several changes, each once.
pub open spec fn changes_stale_dirs(t: Map<u64, InodeView>, changes: Seq<ChangeView>) -> Seq<u64>
    decreases changes.len(),
{
    if changes.len() == 0 {
        Seq::empty()
    } else {
        let rest = changes_stale_dirs(t, changes.drop_last());
        match change_stale_dir(after_changes(t, changes.drop_last()), changes.last()) {
            Some(dir) => if rest.contains(dir) {
                rest
            } else {
                rest.push(dir)
            },
            None => rest,
        }
    }
}

/// The negative cache after several changes: what was added or updated is no
/// longer missing, nor is any directory on the way there.
pub open spec fn cache_after_changes(
    changes: Seq<ChangeView>,
    cache: Seq<(Seq<char>, Span)>,
) -> Seq<(Seq<char>, Span)>
    decreases changes.len(),
{
    if changes.len() == 0 {
        cache
    } else {
        let before = cache_after_changes(changes.drop_last(), cache);
        if changes.last().op == FollowOp::Delete {
            before
        } else {
            negative::retained(
                |k: Seq<char>| !negative::is_on_way(changes.last().path, k),
                before,
            )
        }
    }
}

/// The file in the table that a change is about.
fn find_changed(inode_table: &InodeTable, path: &str) -> (r: Option<u64>)
    requires
        inode_table.wf(),
    ensures
        r == match inode::inode_at(inode_table@, path@) {
            Some(ino) => if inode_table@[ino].kind == InodeKind::File {
                Some(ino)
            } else {
                None
            },
            None => None,
        },
        r matches Some(ino) ==> inode_table@.dom().contains(ino),
{
    match inode_table.get_by_path(path) {
        Some(e) => if e.kind == InodeKind::File {
            Some(e.inode)
        } else {
            None
        },
        None => None,
    }
}

/// The modification time that a change gives.
fn mtime_of_change(c: &FollowChange) -> (r: Option<Span>)
    ensures
        r == change_mtime(c@),
{
    match &c.mtime {
        Some(m) => Some(http::mtime_from_str(m.as_str())),
        None => match &c.uploaded_at {
            Some(m) => Some(http::mtime_from_str(m.as_str())),
            None => None,
        },
    }
}

fn push_new(list: &mut Vec<u64>, n: u64)
    ensures
        final(list)@ == if old(list)@.contains(n) {
            old(list)@
        } else {
            old(list)@.push(n)
        },
{
    if !poll::has_number(list, n) {
        list.push(n);
    }
}

/// Carries out one change.
fn apply_change(
    inode_table: &mut InodeTable,
    c: &FollowChange,
    invals: &mut Vec<(u64, InvalKind)>,
    dirs: &mut Vec<u64>,
)
    requires
        old(inode_table).wf(),
    ensures
        final(inode_table).wf(),
        final(inode_table)@ == after_change(old(inode_table)@, c@),
        final(invals)@ == old(invals)@ + change_invals(old(inode_table)@, c@),
        final(dirs)@ == match change_stale_dir(old(inode_table)@, c@) {
            Some(dir) => if old(dirs)@.contains(dir) {
                old(dirs)@
            } else {
                old(dirs)@.push(dir)
            },
            None => old(dirs)@,
        },
{
    let ghost t0 = inode_table@;
    let ghost queue = invals@;
    assert(queue + Seq::<(u64, InvalKind)>::empty() =~= queue);
    let ino: u64 = match find_changed(inode_table, c.path.as_str()) {
        Some(ino) => ino,
        None => {
            let (dir, _path) = inode_table.nearest_dir_ancestor(c.path.as_str());
            if inode_table.is_children_loaded(dir) {
                push_new(dirs, dir);
            }
            return;
        },
    };
    let dirty: bool = match inode_table.get(ino) {
        Some(e) => e.is_dirty(),
        None => true,
    };
    if dirty {
        return;
    }
    match c.op {
        FollowOp::Delete => {
            proof {
                inode_table.law_paths_are_unambiguous();
            }
            poll::remove_remote_file(inode_table, ino, invals);
        },
        FollowOp::Add | FollowOp::Update => {
            let mtime: Option<Span> = mtime_of_change(c);
            let merged: bool = inode_table.merge_remote_file(
                ino,
                http::clone_opt(&c.xet_hash),
                c.size,
                mtime,
            );
            if merged {
                poll::queue_file_invalidation(inode_table, ino, invals);
                assert(invals@ =~= queue + change_invals(t0, c@));
            }
        },
    }
}

/// Apply one live-follow `changes` batch, mirroring what a poll round derives
/// from a full re-list, but per changed path instead of per loaded directory:
/// - Files already in the inode table are updated/removed in place so content
///   hand-off doesn't wait for a TTL. Dirty inodes are never touched.
/// - Every other path (not in the table, or a directory) drops the cached
///   listing of the nearest directory on the way there, if that one was listed,
///   so the next visit re-lists just that directory. A directory that was never
///   listed needs nothing: its first listing will be fresh.
/// - `add`/`update` clear negative-cache entries for the path and every
///   ancestor, so a consumer that probed the path before it existed sees it on
///   the next lookup.
///
/// Returns what the kernel is to be told, in order.
pub fn apply_follow_changes(
    changes: &Vec<FollowChange>,
    inode_table: &mut InodeTable,
    negative_cache: &mut NegativeCache,
) -> (invals: Vec<(u64, InvalKind)>)
    requires
        old(inode_table).wf(),
    ensures
        final(inode_table).wf(),
        ({
            let t = old(inode_table)@;
            let cs = change_views(changes@);
            let dirs = changes_stale_dirs(t, cs);
            &&& final(inode_table)@ == poll::after_invalidation(after_changes(t, cs), dirs)
            &&& invals@ == changes_invals(t, cs) + poll::dirs_invals(dirs)
            &&& final(negative_cache)@ == cache_after_changes(cs, old(negative_cache)@)
        }),
{
    let ghost t0 = inode_table@;
    let ghost all = change_views(changes@);
    let ghost cache0 = negative_cache@;
    let mut invals: Vec<(u64, InvalKind)> = Vec::new();
    let mut dirs: Vec<u64> = Vec::new();
    let mut i: usize = 0;
    assert(all.take(0) =~= Seq::empty());
    while i < changes.len()
        invariant
            i <= changes@.len(),
            all == change_views(changes@),
            inode_table.wf(),
            inode_table@ == after_changes(t0, all.take(i as int)),
            invals@ == changes_invals(t0, all.take(i as int)),
            dirs@ == changes_stale_dirs(t0, all.take(i as int)),
            negative_cache@ == cache_after_changes(all.take(i as int), cache0),
        decreases changes@.len() - i,
    {
        let c: &FollowChange = &changes[i];
        proof {
            assert(all.take(i + 1).drop_last() =~= all.take(i as int));
            assert(all.take(i + 1).last() == c@);
        }
        apply_change(inode_table, c, &mut invals, &mut dirs);
        if c.op != FollowOp::Delete {
            negative_cache.forget_way(c.path.as_str());
        }
        i = i + 1;
    }
    assert(all.take(all.len() as int) =~= all);
    poll::drop_listings(inode_table, &dirs);
    poll::queue_dirs(&dirs, &mut invals);
    invals
}

/// Local writes win: a change to a file with writes that are not flushed does
/// not touch it, nor is the kernel told of it.
pub proof fn law_dirty_files_ignore_changes(t: Map<u64, InodeView>, c: ChangeView, ino: u64)
    requires
        changed_file(t, c) == Some(ino),
        t[ino].dirty,
    ensures
        after_change(t, c) == t,
        change_invals(t, c).len() == 0,
{
}

/// A change touches no other inode than the one that it is about.
pub proof fn law_changes_are_local(t: Map<u64, InodeView>, c: ChangeView, other: u64)
    requires
        t.dom().contains(other),
        changed_file(t, c) != Some(other),
    ensures
        after_change(t, c).dom().contains(other),
        after_change(t, c)[other] == t[other],
{
}

/// A field that a change does not give keeps its value.
pub proof fn law_absent_fields_are_kept(e: InodeView, mtime: Option<Span>)
    ensures
        inode::merged(e, None, None, mtime).xet_hash == e.xet_hash,
        inode::merged(e, None, None, mtime).size == e.size,
        inode::merged(e, None, None, mtime).cipher_size == e.cipher_size,
        inode::merged(e, None, None, None) == e,
{
}

/// What a batch adds or updates is not known to be missing afterwards, nor is
/// any directory on the way there.
pub proof fn law_added_paths_are_not_missing(
    changes: Seq<ChangeView>,
    cache: Seq<(Seq<char>, Span)>,
    i: int,
    key: Seq<char>,
)
    requires
        0 <= i < changes.len(),
        changes[i].op != FollowOp::Delete,
        negative::is_on_way(changes[i].path, key),
    ensures
        negative::missing_since(cache_after_changes(changes, cache), key) is None,
    decreases changes.len(),
{
    let rest = changes.drop_last();
    let before = cache_after_changes(rest, cache);
    if i < rest.len() {
        law_added_paths_are_not_missing(rest, cache, i, key);
    }
    if changes.last().op != FollowOp::Delete {
        negative::law_retained_paths(
            |k: Seq<char>| !negative::is_on_way(changes.last().path, k),
            before,
            key,
        );
    }
}

/// Where the next subscription resumes from.
#[derive(Debug, Clone)]
pub enum Resume {
    /// Strictly after this server cursor.
    Cursor(String),
    /// From the revision seen last, after a probe and a reconcile round.
    Since,
    /// Live only: the server refused the revision. One-shot — the next session
    /// goes back to `Since` so a dropped stream reconciles.
    Live,
}

/// The same in the abstract.
pub enum ResumeView {
    Cursor(Seq<char>),
    Since,
    Live,
}

impl View for Resume {
    type V = ResumeView;

    open spec fn view(&self) -> ResumeView {
        match *self {
            Resume::Cursor(c) => ResumeView::Cursor(c@),
            Resume::Since => ResumeView::Since,
            Resume::Live => ResumeView::Live,
        }
    }
}

/// Delay in seconds while the feed keeps failing (connect error, incomplete
/// reconcile, stream dead before `ready`), escalated by the backoff and reset by
/// a `ready`.
pub const RETRY_BASE_SECS: u64 = 10;

/// Pause in seconds before any reconnect, server-directed included, so a pod
/// rotating clients in a tight loop can't drive a hot loop.
pub const RECONNECT_FLOOR_SECS: u64 = 1;

/// Streams that connect but end without ever sending `ready` (a buffering proxy
/// hitting the read timeout, a pod closing on accept) this many times in a row
/// mean the feed is unusable here.
pub const MAX_SESSIONS_WITHOUT_READY: u32 = 3;

/// What the follow loop does next.
#[derive(Debug, Clone, Copy, PartialEq, Eq, Structural)]
pub enum FollowStep {
    /// Ask for the revision.
    Probe,
    /// Run a full poll round.
    Reconcile,
    /// Subscribe from the current resume point.
    Connect,
    /// Wait for the next event of the stream.
    Listen,
    /// Sleep, then start over.
    Sleep(Span),
    /// Start over at once.
    Restart,
    /// The feed is unusable for this source: poll instead.
    GiveUp,
}

/// The same with the sleep in nanoseconds.
pub enum StepView {
    Probe,
    Reconcile,
    Connect,
    Listen,
    Sleep(nat),
    Restart,
    GiveUp,
}

impl View for FollowStep {
    type V = StepView;

    open spec fn view(&self) -> StepView {
        match *self {
            FollowStep::Probe => StepView::Probe,
            FollowStep::Reconcile => StepView::Reconcile,
            FollowStep::Connect => StepView::Connect,
            FollowStep::Listen => StepView::Listen,
            FollowStep::Sleep(d) => StepView::Sleep(d.total()),
            FollowStep::Restart => StepView::Restart,
            FollowStep::GiveUp => StepView::GiveUp,
        }
    }
}

impl FollowStep {
    /// Whether a sleep is a proper span of time.
    pub open spec fn wf(self) -> bool {
        self matches FollowStep::Sleep(d) ==> d.wf()
    }
}

/// How an attempt to subscribe went.
pub enum ConnectOutcome {
    /// A stream is open.
    Stream,
    /// The feed is not served here (repo source, older deployment, or an answer
    /// that is no stream).
    NotServed,
    /// The attempt failed, perhaps with a hint when to try again.
    Failed { error: Error, retry_after: Option<Span> },
}

/// The same in the abstract: a failure by its status and the hint in
/// nanoseconds.
pub enum OutcomeView {
    Stream,
    NotServed,
    Failed { status: Option<u16>, retry_after: Option<nat> },
}

impl View for ConnectOutcome {
    type V = OutcomeView;

    open spec fn view(&self) -> OutcomeView {
        match *self {
            ConnectOutcome::Stream => OutcomeView::Stream,
            ConnectOutcome::NotServed => OutcomeView::NotServed,
            ConnectOutcome::Failed { error, retry_after } => OutcomeView::Failed {
                status: error.spec_status(),
                retry_after: match retry_after {
                    Some(hint) => Some(hint.total()),
                    None => None,
                },
            },
        }
    }
}

/// An event of the stream. A missing cursor means that the feed has seen no
/// change yet.
pub enum FollowEvent {
    Ready { cursor: Option<String> },
    /// A batch of changes, which is to be applied.
    Changes { cursor: String, changes: Vec<FollowChange> },
    /// The resume point is older than what the server holds.
    Reset,
    /// The server asks to reconnect.
    Reconnect { cursor: Option<String> },
}

/// What came of waiting for an event, as far as the connection goes.
pub enum StreamEvent {
    Ready { cursor: Option<String> },
    Changes { cursor: String },
    Reset,
    Reconnect { cursor: Option<String> },
    /// The stream ended or broke.
    Ended,
}

/// The same in the abstract.
pub enum EventView {
    Ready { cursor: Option<Seq<char>> },
    Changes { cursor: Seq<char> },
    Reset,
    Reconnect { cursor: Option<Seq<char>> },
    Ended,
}

impl View for StreamEvent {
    type V = EventView;

    open spec fn view(&self) -> EventView {
        match *self {
            StreamEvent::Ready { cursor } => EventView::Ready { cursor: http::opt_view(cursor) },
            StreamEvent::Changes { cursor } => EventView::Changes { cursor: cursor@ },
            StreamEvent::Reset => EventView::Reset,
            StreamEvent::Reconnect { cursor } => EventView::Reconnect {
                cursor: http::opt_view(cursor),
            },
            StreamEvent::Ended => EventView::Ended,
        }
    }
}

/// Parts what came of waiting for an event into the changes to apply and what
/// it means for the connection. Any end of the stream that the server did not
/// direct (a close, a read timeout after missed pings, a transport error) is an
/// end.
pub fn split_event(event: Result<Option<FollowEvent>>) -> (r: (Vec<FollowChange>, StreamEvent))
    ensures
        match event {
            Ok(Some(FollowEvent::Ready { cursor })) => r.0@.len() == 0 && r.1
                == (StreamEvent::Ready { cursor }),
            Ok(Some(FollowEvent::Changes { cursor, changes })) => r.0 == changes && r.1
                == (StreamEvent::Changes { cursor }),
            Ok(Some(FollowEvent::Reset)) => r.0@.len() == 0 && r.1 == StreamEvent::Reset,
            Ok(Some(FollowEvent::Reconnect { cursor })) => r.0@.len() == 0 && r.1
                == (StreamEvent::Reconnect { cursor }),
            Ok(None) | Err(_) => r.0@.len() == 0 && r.1 == StreamEvent::Ended,
        },
{
    match event {
        Ok(Some(FollowEvent::Ready { cursor })) => (Vec::new(), StreamEvent::Ready { cursor }),
        Ok(Some(FollowEvent::Changes { cursor, changes })) => (
            changes,
            StreamEvent::Changes { cursor },
        ),
        Ok(Some(FollowEvent::Reset)) => (Vec::new(), StreamEvent::Reset),
        Ok(Some(FollowEvent::Reconnect { cursor })) => (
            Vec::new(),
            StreamEvent::Reconnect { cursor },
        ),
        Ok(None) | Err(_) => (Vec::new(), StreamEvent::Ended),
    }
}

/// The state of the follow loop.
pub struct FollowState {
    /// Where the next subscription resumes from.
    pub resume: ResumeView,
    /// The next probe is skipped, because the revision was just seen.
    pub skip_probe: bool,
    /// The revision that was seen last.
    pub revision: Option<Seq<char>>,
    /// The revision that a reconcile round is run for.
    pub pending: Option<Seq<char>>,
    /// How many times the wait has doubled.
    pub level: nat,
    /// How many streams in a row ended before `ready`.
    pub dead_sessions: nat,
    /// The current stream has sent `ready`.
    pub ready: bool,
}

/// How long to wait, in nanoseconds, when the wait has doubled `level` times.
pub open spec fn retry_nanos(level: nat) -> nat {
    backoff::backoff_nanos(Span { secs: RETRY_BASE_SECS, nanos: 0 }, level)
}

/// The pause before a reconnect, in nanoseconds.
pub open spec fn floor_nanos() -> nat {
    (Span { secs: RECONNECT_FLOOR_SECS, nanos: 0 }).total()
}

/// The resume point after an optional cursor came.
pub open spec fn resume_at(cursor: Option<Seq<char>>, before: ResumeView) -> ResumeView {
    match cursor {
        Some(c) => ResumeView::Cursor(c),
        None => before,
    }
}

/// A one-shot resume point is used up when a session ends.
pub open spec fn after_session(r: ResumeView) -> ResumeView {
    match r {
        ResumeView::Live => ResumeView::Since,
        other => other,
    }
}

/// What a new session begins with: without a cursor the revision is asked for,
/// unless it was just seen.
pub open spec fn session_begin(s: FollowState) -> (FollowState, StepView) {
    if s.resume == ResumeView::Since {
        (
            FollowState { skip_probe: false, ..s },
            if s.skip_probe {
                StepView::Connect
            } else {
                StepView::Probe
            },
        )
    } else {
        (s, StepView::Connect)
    }
}

/// What a probe leads to: where the source has moved on, a full round reconciles
/// first; a probe that failed leaves the last known revision.
pub open spec fn after_probe(s: FollowState, probe: Option<Seq<char>>) -> (FollowState, StepView) {
    if probe is None || probe == s.revision {
        (s, StepView::Connect)
    } else {
        (FollowState { pending: probe, ..s }, StepView::Reconcile)
    }
}

/// What a reconcile round leads to: the revision is taken over only where the
/// round was complete.
pub open spec fn after_reconcile(s: FollowState, complete: bool) -> (FollowState, StepView) {
    if complete {
        (
            FollowState {
                revision: if s.pending is Some {
                    s.pending
                } else {
                    s.revision
                },
                pending: None,
                ..s
            },
            StepView::Connect,
        )
    } else {
        (
            FollowState { pending: None, level: backoff::next_level(s.level), ..s },
            StepView::Sleep(retry_nanos(s.level)),
        )
    }
}

/// What an attempt to subscribe leads to.
pub open spec fn after_connect(s: FollowState, outcome: OutcomeView) -> (FollowState, StepView) {
    match outcome {
        OutcomeView::Stream => (FollowState { ready: false, ..s }, StepView::Listen),
        OutcomeView::NotServed => (s, StepView::GiveUp),
        OutcomeView::Failed { status, retry_after } => if status == Some(400u16) {
            match s.resume {
                ResumeView::Cursor(_) => (
                    FollowState { resume: ResumeView::Since, ..s },
                    StepView::Restart,
                ),
                ResumeView::Since => (
                    FollowState { resume: ResumeView::Live, ..s },
                    StepView::Restart,
                ),
                ResumeView::Live => (s, StepView::GiveUp),
            }
        } else {
            match retry_after {
                Some(hint) => {
                    let longest = retry_nanos(backoff::MAX_EXP as nat);
                    (
                        s,
                        StepView::Sleep(
                            if hint < longest {
                                hint
                            } else {
                                longest
                            },
                        ),
                    )
                },
                None => (
                    FollowState { level: backoff::next_level(s.level), ..s },
                    StepView::Sleep(retry_nanos(s.level)),
                ),
            }
        },
    }
}

/// What an event of the stream leads to.
pub open spec fn after_event(s: FollowState, event: EventView) -> (FollowState, StepView) {
    match event {
        EventView::Ready { cursor } => (
            FollowState {
                resume: resume_at(cursor, s.resume),
                ready: true,
                level: 0,
                dead_sessions: 0,
                ..s
            },
            StepView::Listen,
        ),
        EventView::Changes { cursor } => (
            FollowState { resume: ResumeView::Cursor(cursor), ..s },
            StepView::Listen,
        ),
        EventView::Reset => (
            FollowState { resume: ResumeView::Since, ..s },
            StepView::Sleep(floor_nanos()),
        ),
        EventView::Reconnect { cursor } => (
            FollowState { resume: after_session(resume_at(cursor, s.resume)), ..s },
            StepView::Sleep(floor_nanos()),
        ),
        EventView::Ended => {
            let ended = FollowState { resume: after_session(s.resume), ..s };
            if s.ready {
                (ended, StepView::Sleep(floor_nanos()))
            } else {
                let dead = s.dead_sessions + 1;
                if dead >= MAX_SESSIONS_WITHOUT_READY {
                    (FollowState { dead_sessions: dead, ..ended }, StepView::GiveUp)
                } else {
                    (
                        FollowState {
                            dead_sessions: dead,
                            level: backoff::next_level(s.level),
                            ..ended
                        },
                        StepView::Sleep(retry_nanos(s.level)),
                    )
                }
            }
        },
    }
}

/// Whether the counts of a state are within bounds.
pub open spec fn state_wf(s: FollowState) -> bool {
    &&& s.level <= backoff::MAX_EXP
    &&& s.dead_sessions < MAX_SESSIONS_WITHOUT_READY
}

/// An event that does not make the loop give up keeps the counts within bounds.
pub proof fn law_follow_counts_stay_bounded(s: FollowState, event: EventView)
    requires
        state_wf(s),
    ensures
        after_event(s, event).1 != StepView::GiveUp ==> state_wf(after_event(s, event).0),
{
}

/// A stream makes the loop give up only when it and the ones right before it, as
/// many as are allowed, ended on their own before `ready`.
pub proof fn law_stream_gives_up_after_dead_sessions(s: FollowState, event: EventView)
    ensures
        after_event(s, event).1 == StepView::GiveUp <==> event == EventView::Ended && !s.ready
            && s.dead_sessions + 1 >= MAX_SESSIONS_WITHOUT_READY,
{
}

/// An attempt to subscribe makes the loop give up only where the feed is not
/// served, or where a bare subscribe was refused.
pub proof fn law_connect_gives_up_when_unusable(s: FollowState, outcome: OutcomeView)
    ensures
        after_connect(s, outcome).1 == StepView::GiveUp <==> outcome == OutcomeView::NotServed || (
        outcome matches OutcomeView::Failed { status, .. } && status == Some(400u16) && s.resume
            == ResumeView::Live),
{
}

/// Each refusal goes one step further back, and the third in a row ends it.
pub proof fn law_refusals_go_further_back(s: FollowState, hint: Option<nat>)
    requires
        s.resume is Cursor,
    ensures
        ({
            let refused = OutcomeView::Failed { status: Some(400u16), retry_after: hint };
            let once = after_connect(s, refused);
            let twice = after_connect(once.0, refused);
            let thrice = after_connect(twice.0, refused);
            &&& once.0.resume == ResumeView::Since && once.1 == StepView::Restart
            &&& twice.0.resume == ResumeView::Live && twice.1 == StepView::Restart
            &&& thrice.1 == StepView::GiveUp
        }),
{
}

/// After a reset the next session asks for the revision before it subscribes, so
/// that what the feed no longer holds is found by listing.
pub proof fn law_reset_leads_to_a_probe(s: FollowState)
    requires
        !s.skip_probe,
    ensures
        session_begin(after_event(s, EventView::Reset).0).1 == StepView::Probe,
{
}

/// A live-only session is followed by one that asks for the revision, unless a
/// cursor came in the meantime: what was missed is found by listing.
pub proof fn law_live_sessions_reconcile_when_dropped(s: FollowState)
    requires
        !s.skip_probe,
        s.resume == ResumeView::Live,
    ensures
        session_begin(after_event(s, EventView::Ended).0).1 == StepView::Probe,
        session_begin(after_event(s, EventView::Reconnect { cursor: None }).0).1
            == StepView::Probe,
{
}

/// A stream that breaks is resumed strictly after the last batch that came.
pub proof fn law_broken_streams_resume_at_the_cursor(s: FollowState, cursor: Seq<char>)
    ensures
        ({
            let broken = after_event(after_event(s, EventView::Changes { cursor }).0, EventView::Ended).0;
            broken.resume == ResumeView::Cursor(cursor) && session_begin(broken).1
                == StepView::Connect
        }),
{
}

/// The revision is taken over only after a complete round: an incomplete one
/// leaves the next probe to find the same difference again.
pub proof fn law_incomplete_rounds_are_repeated(s: FollowState, rev: Seq<char>)
    requires
        s.revision != Some(rev),
    ensures
        ({
            let listing = after_probe(s, Some(rev));
            let failed = after_reconcile(listing.0, false);
            let done = after_reconcile(listing.0, true);
            &&& listing.1 == StepView::Reconcile
            &&& after_probe(failed.0, Some(rev)).1 == StepView::Reconcile
            &&& done.0.revision == Some(rev)
            &&& after_probe(done.0, Some(rev)).1 == StepView::Connect
        }),
{
}

/// The first wait while the feed keeps failing is ten seconds, each further one is
/// twice as long, and the longest is 640 seconds.
pub proof fn law_retry_waits(level: nat)
    requires
        level <= 6,
    ensures
        retry_nanos(0) == 10_000_000_000,
        level < 6 ==> retry_nanos(backoff::next_level(level)) == 2 * retry_nanos(level),
        backoff::next_level(level) == level || level < 6,
        retry_nanos(6) == 640_000_000_000,
        backoff::next_level(6) == 6,
        10_000_000_000 <= retry_nanos(level) <= 640_000_000_000,
{
    lemma2_to64();
}

/// Failures in a row are waited out longer and longer, up to the longest wait,
/// whatever it is that fails: the connection, a round, or a stream before `ready`.
pub proof fn law_failures_wait_longer(
    s: FollowState,
    first: Option<u16>,
    second: Option<u16>,
)
    requires
        state_wf(s),
        first != Some(400u16),
        second != Some(400u16),
    ensures
        ({
            let connect = after_connect(
                s,
                OutcomeView::Failed { status: first, retry_after: None },
            );
            let round = after_reconcile(s, false);
            let stream = after_event(FollowState { ready: false, ..s }, EventView::Ended);
            &&& connect.1 is Sleep
            &&& round.1 == connect.1
            &&& stream.1 == StepView::GiveUp || stream.1 == connect.1
            &&& after_connect(
                connect.0,
                OutcomeView::Failed { status: second, retry_after: None },
            ).1 == StepView::Sleep(
                if connect.1->Sleep_0 < 640_000_000_000 {
                    2 * connect.1->Sleep_0
                } else {
                    connect.1->Sleep_0
                },
            )
            &&& after_connect(
                round.0,
                OutcomeView::Failed { status: second, retry_after: None },
            ).1 == after_connect(
                connect.0,
                OutcomeView::Failed { status: second, retry_after: None },
            ).1
            &&& stream.1 != StepView::GiveUp ==> after_connect(
                stream.0,
                OutcomeView::Failed { status: second, retry_after: None },
            ).1 == after_connect(
                connect.0,
                OutcomeView::Failed { status: second, retry_after: None },
            ).1
        }),
{
    lemma2_to64();
    law_retry_waits(s.level);
    assert(s.level == 0 || s.level == 1 || s.level == 2 || s.level == 3 || s.level == 4 || s.level
        == 5 || s.level == 6);
}

/// A wait that the server asks for is kept, up to the longest wait of the loop, and
/// changes nothing else.
pub proof fn law_server_hints_are_kept(s: FollowState, status: Option<u16>, hint: nat)
    requires
        status != Some(400u16),
    ensures
        ({
            let step = after_connect(
                s,
                OutcomeView::Failed { status, retry_after: Some(hint) },
            );
            &&& step.0 == s
            &&& hint <= 640_000_000_000 ==> step.1 == StepView::Sleep(hint)
            &&& hint > 640_000_000_000 ==> step.1 == StepView::Sleep(640_000_000_000)
        }),
{
    lemma2_to64();
}

/// A `ready` heals: the next failure is waited out for ten seconds again, and it
/// takes three more streams in a row that end before `ready` to give up.
pub proof fn law_ready_heals(s: FollowState, cursor: Option<Seq<char>>, status: Option<u16>)
    requires
        status != Some(400u16),
    ensures
        ({
            let well = after_event(s, EventView::Ready { cursor }).0;
            let once = after_event(after_connect(well, OutcomeView::Stream).0, EventView::Ended);
            let twice = after_event(after_connect(once.0, OutcomeView::Stream).0, EventView::Ended);
            let thrice = after_event(
                after_connect(twice.0, OutcomeView::Stream).0,
                EventView::Ended,
            );
            &&& well.ready
            &&& after_event(s, EventView::Ready { cursor }).1 == StepView::Listen
            &&& after_connect(well, OutcomeView::Failed { status, retry_after: None }).1
                == StepView::Sleep(10_000_000_000)
            &&& once.1 == StepView::Sleep(10_000_000_000)
            &&& twice.1 == StepView::Sleep(20_000_000_000)
            &&& thrice.1 == StepView::GiveUp
        }),
{
    lemma2_to64();
}

/// A session that the server ends, or that ends after `ready`, is followed by one
/// second's pause, however often; such an end counts as no failure.
pub proof fn law_healthy_sessions_pause_for_a_second(s: FollowState, cursor: Option<Seq<char>>)
    ensures
        s.ready ==> after_event(s, EventView::Ended).1 == StepView::Sleep(1_000_000_000),
        after_event(s, EventView::Reset).1 == StepView::Sleep(1_000_000_000),
        after_event(s, EventView::Reconnect { cursor }).1 == StepView::Sleep(1_000_000_000),
        s.ready ==> after_event(s, EventView::Ended).0.level == s.level && after_event(
            s,
            EventView::Ended,
        ).0.dead_sessions == s.dead_sessions,
        after_event(s, EventView::Reset).0.level == s.level,
        after_event(s, EventView::Reset).0.dead_sessions == s.dead_sessions,
        after_event(s, EventView::Reconnect { cursor }).0.level == s.level,
        after_event(s, EventView::Reconnect { cursor }).0.dead_sessions == s.dead_sessions,
{
}

/// The cursor that came last is where the next session resumes, without a probe,
/// whichever event brought it; an event without one leaves it.
pub proof fn law_last_cursor_is_resumed_from(s: FollowState, cursor: Seq<char>)
    ensures
        ({
            let ready = after_event(s, EventView::Ready { cursor: Some(cursor) }).0;
            let changes = after_event(s, EventView::Changes { cursor }).0;
            let reconnect = after_event(s, EventView::Reconnect { cursor: Some(cursor) }).0;
            &&& ready.resume == ResumeView::Cursor(cursor)
            &&& changes.resume == ResumeView::Cursor(cursor)
            &&& reconnect.resume == ResumeView::Cursor(cursor)
            &&& session_begin(ready) == (ready, StepView::Connect)
            &&& session_begin(changes) == (changes, StepView::Connect)
            &&& session_begin(reconnect) == (reconnect, StepView::Connect)
        }),
        after_event(s, EventView::Ready { cursor: None }).0.resume == s.resume,
        s.resume is Cursor ==> after_event(s, EventView::Reconnect { cursor: None }).0.resume
            == s.resume && after_event(s, EventView::Ended).0.resume == s.resume,
        s.resume == ResumeView::Since ==> after_event(
            s,
            EventView::Reconnect { cursor: None },
        ).0.resume == ResumeView::Since && after_event(s, EventView::Ended).0.resume
            == ResumeView::Since,
{
}

/// Batches leave the health of a stream alone: a change is no `ready`, and the loop
/// listens on.
pub proof fn law_changes_do_not_heal(s: FollowState, cursor: Seq<char>)
    ensures
        ({
            let step = after_event(s, EventView::Changes { cursor });
            &&& step.1 == StepView::Listen
            &&& step.0.ready == s.ready
            &&& step.0.level == s.level
            &&& step.0.dead_sessions == s.dead_sessions
        }),
{
}

/// The revision changes by complete rounds only, and then to the one that the
/// round was run for. No event, no connection and no probe touches it.
pub proof fn law_revision_changes_by_rounds_only(
    s: FollowState,
    event: EventView,
    outcome: OutcomeView,
    probe: Option<Seq<char>>,
)
    ensures
        after_event(s, event).0.revision == s.revision,
        after_connect(s, outcome).0.revision == s.revision,
        after_probe(s, probe).0.revision == s.revision,
        session_begin(s).0.revision == s.revision,
        after_reconcile(s, false).0.revision == s.revision,
        s.pending is Some ==> after_reconcile(s, true).0.revision == s.pending,
        s.pending is None ==> after_reconcile(s, true).0.revision == s.revision,
        after_reconcile(s, true).1 == StepView::Connect,
        after_reconcile(s, true).0.level == s.level,
{
}

/// A round is run exactly where a probe found another revision, and for that one;
/// a probe that failed leads to a connection all the same.
pub proof fn law_rounds_are_run_for_new_revisions(s: FollowState, probe: Option<Seq<char>>)
    ensures
        after_probe(s, None).1 == StepView::Connect,
        probe is Some && probe == s.revision ==> after_probe(s, probe).1 == StepView::Connect,
        probe is Some && probe != s.revision ==> after_probe(s, probe).1 == StepView::Reconcile
            && after_probe(s, probe).0.pending == probe,
        probe is None || probe == s.revision ==> after_probe(s, probe).0 == s,
{
}

/// A session without a cursor begins with a probe, but for the first after one; a
/// live-only session begins without.
pub proof fn law_sessions_begin_with_a_probe(s: FollowState)
    requires
        s.resume == ResumeView::Since,
    ensures
        !s.skip_probe ==> session_begin(s) == (s, StepView::Probe),
        s.skip_probe ==> session_begin(s).1 == StepView::Connect && session_begin(
            session_begin(s).0,
        ).1 == StepView::Probe,
        session_begin(FollowState { resume: ResumeView::Live, ..s }).1 == StepView::Connect,
{
}

/// A new stream is not ready yet, and nothing else changes.
pub proof fn law_new_streams_are_not_ready(s: FollowState)
    ensures
        after_connect(s, OutcomeView::Stream).1 == StepView::Listen,
        !after_connect(s, OutcomeView::Stream).0.ready,
        after_connect(s, OutcomeView::Stream).0 == (FollowState { ready: false, ..s }),
{
}

/// A refused resume point is no failure of the feed: nothing is waited for, and
/// only the resume point changes.
pub proof fn law_refusals_change_the_resume_point_only(s: FollowState, hint: Option<nat>)
    ensures
        ({
            let step = after_connect(
                s,
                OutcomeView::Failed { status: Some(400u16), retry_after: hint },
            );
            &&& step.1 == StepView::Restart || step.1 == StepView::GiveUp
            &&& step.0 == (FollowState { resume: step.0.resume, ..s })
            &&& s.resume is Cursor ==> step.0.resume == ResumeView::Since
            &&& s.resume == ResumeView::Since ==> step.0.resume == ResumeView::Live
        }),
{
}

/// The live-follow loop: which request it makes next, and where the stream
/// resumes.
pub struct FollowLoop {
    resume: Resume,
    skip_probe: bool,
    backoff: Backoff,
    sessions_without_ready: u32,
    last_revision: Option<String>,
    pending_revision: Option<String>,
    got_ready: bool,
}

impl View for FollowLoop {
    type V = FollowState;

    closed spec fn view(&self) -> FollowState {
        FollowState {
            resume: self.resume@,
            skip_probe: self.skip_probe,
            revision: http::opt_view(self.last_revision),
            pending: http::opt_view(self.pending_revision),
            level: self.backoff.level(),
            dead_sessions: self.sessions_without_ready as nat,
            ready: self.got_ready,
        }
    }
}

impl FollowLoop {
    /// Whether the counts are within bounds.
    pub closed spec fn wf(self) -> bool {
        &&& self.backoff.wf()
        &&& self.backoff.base() == (Span { secs: RETRY_BASE_SECS, nanos: 0 })
        &&& self.sessions_without_ready < MAX_SESSIONS_WITHOUT_READY
    }

    /// A loop that starts from the revision that was just seen, if one was; only
    /// where none was is it asked for before the first connection.
    pub fn new(last_revision: Option<String>) -> (l: FollowLoop)
        ensures
            l.wf(),
            l@ == (FollowState {
                resume: ResumeView::Since,
                skip_probe: last_revision is Some,
                revision: http::opt_view(last_revision),
                pending: None,
                level: 0,
                dead_sessions: 0,
                ready: false,
            }),
    {
        FollowLoop {
            resume: Resume::Since,
            skip_probe: last_revision.is_some(),
            backoff: Backoff::new(Span::from_secs(RETRY_BASE_SECS)),
            sessions_without_ready: 0,
            last_revision,
            pending_revision: None,
            got_ready: false,
        }
    }

    /// The cursor to subscribe with.
    pub fn cursor(&self) -> (r: Option<&str>)
        ensures
            match r {
                Some(c) => self@.resume == ResumeView::Cursor(c@),
                None => !(self@.resume is Cursor),
            },
    {
        match &self.resume {
            Resume::Cursor(c) => Some(c.as_str()),
            _ => None,
        }
    }

    /// The revision to subscribe from.
    pub fn since(&self) -> (r: Option<&str>)
        ensures
            match r {
                Some(s) => self@.resume == ResumeView::Since && self@.revision == Some(s@),
                None => self@.resume != ResumeView::Since || self@.revision is None,
            },
    {
        match (&self.resume, &self.last_revision) {
            (Resume::Since, Some(s)) => Some(s.as_str()),
            _ => None,
        }
    }

    /// The revision that was seen last.
    pub fn into_revision(self) -> (r: Option<String>)
        ensures
            http::opt_view(r) == self@.revision,
    {
        self.last_revision
    }

    /// Begins a session.
    pub fn begin(&mut self) -> (step: FollowStep)
        requires
            old(self).wf(),
        ensures
            final(self).wf(),
            (final(self)@, step@) == session_begin(old(self)@),
    {
        match &self.resume {
            Resume::Since => {
                if self.skip_probe {
                    self.skip_probe = false;
                    FollowStep::Connect
                } else {
                    FollowStep::Probe
                }
            },
            _ => FollowStep::Connect,
        }
    }

    /// Takes in the revision that a probe gave, or that it failed.
    pub fn on_probe(&mut self, probe: Option<String>) -> (step: FollowStep)
        requires
            old(self).wf(),
        ensures
            final(self).wf(),
            (final(self)@, step@) == after_probe(old(self)@, http::opt_view(probe)),
    {
        match probe {
            Some(rev) => {
                let same: bool = match &self.last_revision {
                    Some(last) => text::eq(last.as_str(), rev.as_str()),
                    None => false,
                };
                if same {
                    FollowStep::Connect
                } else {
                    self.pending_revision = Some(rev);
                    FollowStep::Reconcile
                }
            },
            None => FollowStep::Connect,
        }
    }

    /// Takes in whether a reconcile round was complete.
    pub fn on_reconcile(&mut self, complete: bool) -> (step: FollowStep)
        requires
            old(self).wf(),
        ensures
            final(self).wf(),
            step.wf(),
            (final(self)@, step@) == after_reconcile(old(self)@, complete),
    {
        let pending: Option<String> = self.pending_revision.take();
        if complete {
            match pending {
                Some(rev) => {
                    self.last_revision = Some(rev);
                },
                None => {},
            }
            FollowStep::Connect
        } else {
            FollowStep::Sleep(self.backoff.next())
        }
    }

    /// Takes in how an attempt to subscribe went. A refused resume point (cursor
    /// encoding changed by a deploy, revision too old or unparseable) is retried
    /// one step further back; a bare subscribe refused means the feed isn't
    /// usable here. Any other failure is retried after a while: as long as the
    /// server asks for, within bounds, else longer each time.
    pub fn on_connect(&mut self, outcome: ConnectOutcome) -> (step: FollowStep)
        requires
            old(self).wf(),
            outcome matches ConnectOutcome::Failed { error, retry_after: Some(hint) } ==> hint.wf(),
        ensures
            final(self).wf(),
            step.wf(),
            (final(self)@, step@) == after_connect(old(self)@, outcome@),
    {
        match outcome {
            ConnectOutcome::Stream => {
                self.got_ready = false;
                FollowStep::Listen
            },
            ConnectOutcome::NotServed => FollowStep::GiveUp,
            ConnectOutcome::Failed { error, retry_after } => {
                let refused: bool = match error.status() {
                    Some(s) => s == 400,
                    None => false,
                };
                if refused {
                    match &self.resume {
                        Resume::Cursor(_) => {
                            self.resume = Resume::Since;
                            FollowStep::Restart
                        },
                        Resume::Since => {
                            self.resume = Resume::Live;
                            FollowStep::Restart
                        },
                        Resume::Live => FollowStep::GiveUp,
                    }
                } else {
                    match retry_after {
                        Some(hint) => {
                            let longest: Span = self.backoff.max_delay();
                            if hint.at_least(&longest) {
                                FollowStep::Sleep(longest)
                            } else {
                                FollowStep::Sleep(hint)
                            }
                        },
                        None => FollowStep::Sleep(self.backoff.next()),
                    }
                }
            },
        }
    }

    /// Takes in an event of the stream. The end of a session that was healthy is
    /// followed by a short pause; the session is healthy once the server sent
    /// `ready`, or if it directed the end. One that was not is followed by a
    /// longer pause, and a few in a row end the attempts.
    pub fn on_event(&mut self, event: StreamEvent) -> (step: FollowStep)
        requires
            old(self).wf(),
        ensures
            step.wf(),
            (final(self)@, step@) == after_event(old(self)@, event@),
            step != FollowStep::GiveUp ==> final(self).wf(),
    {
        match event {
            StreamEvent::Ready { cursor } => {
                match cursor {
                    Some(c) => {
                        self.resume = Resume::Cursor(c);
                    },
                    None => {},
                }
                self.got_ready = true;
                self.backoff.reset();
                self.sessions_without_ready = 0;
                FollowStep::Listen
            },
            StreamEvent::Changes { cursor } => {
                self.resume = Resume::Cursor(cursor);
                FollowStep::Listen
            },
            StreamEvent::Reset => {
                self.resume = Resume::Since;
                FollowStep::Sleep(Span::from_secs(RECONNECT_FLOOR_SECS))
            },
            StreamEvent::Reconnect { cursor } => {
                match cursor {
                    Some(c) => {
                        self.resume = Resume::Cursor(c);
                    },
                    None => {
                        self.end_session();
                    },
                }
                FollowStep::Sleep(Span::from_secs(RECONNECT_FLOOR_SECS))
            },
            StreamEvent::Ended => {
                self.end_session();
                if self.got_ready {
                    FollowStep::Sleep(Span::from_secs(RECONNECT_FLOOR_SECS))
                } else {
                    self.sessions_without_ready = self.sessions_without_ready + 1;
                    if self.sessions_without_ready >= MAX_SESSIONS_WITHOUT_READY {
                        FollowStep::GiveUp
                    } else {
                        FollowStep::Sleep(self.backoff.next())
                    }
                }
            },
        }
    }

    /// Uses up a one-shot resume point.
    fn end_session(&mut self)
        ensures
            final(self).resume@ == after_session(old(self).resume@),
            final(self).skip_probe == old(self).skip_probe,
            final(self).backoff == old(self).backoff,
            final(self).sessions_without_ready == old(self).sessions_without_ready,
            final(self).last_revision == old(self).last_revision,
            final(self).pending_revision == old(self).pending_revision,
            final(self).got_ready == old(self).got_ready,
    {
        let live: bool = match &self.resume {
            Resume::Live => true,
            _ => false,
        };
        if live {
            self.resume = Resume::Since;
        }
    }
}

/// A loop that has seen a revision connects with it at once; one that has not asks
/// for it first.
pub proof fn law_new_loops_start_from_the_revision(seen: Option<String>, l: FollowLoop)
    requires
        call_ensures(FollowLoop::new, (seen,), l),
    ensures
        seen is Some ==> session_begin(l@).1 == StepView::Connect,
        seen is None ==> session_begin(l@).1 == StepView::Probe,
        l@.revision == http::opt_view(seen),
        l@.level == 0,
        l@.dead_sessions == 0,
        l@.resume == ResumeView::Since,
{
}

/// A subscription resumes from one point only: a cursor, the revision seen last, or
/// neither.
pub proof fn law_subscriptions_resume_from_one_point(
    l: FollowLoop,
    cursor: Option<&str>,
    since: Option<&str>,
)
    requires
        call_ensures(FollowLoop::cursor, (&l,), cursor),
        call_ensures(FollowLoop::since, (&l,), since),
    ensures
        cursor is None || since is None,
        l@.resume matches ResumeView::Cursor(c) ==> cursor is Some && cursor->0@ == c,
        l@.resume == ResumeView::Since && l@.revision is Some ==> since is Some && Some(since->0@)
            == l@.revision,
        l@.resume == ResumeView::Live ==> cursor is None && since is None,
{
}

/// Only a batch brings changes, and brings all of them; an end that the server did
/// not direct is an end, however it came.
pub proof fn law_events_are_parted(
    event: Result<Option<FollowEvent>>,
    changes: Vec<FollowChange>,
    what: StreamEvent,
)
    requires
        call_ensures(split_event, (event,), (changes, what)),
    ensures
        event is Err || event->Ok_0 is None ==> what is Ended && changes@.len() == 0,
        event is Ok && event->Ok_0 is Some ==> (match event->Ok_0->0 {
            FollowEvent::Changes { cursor, changes: all } => changes@ == all@ && (
            what matches StreamEvent::Changes { cursor: c } && c@ == cursor@),
            FollowEvent::Ready { cursor } => changes@.len() == 0 && (
            what matches StreamEvent::Ready { cursor: c } && http::opt_view(c) == http::opt_view(
                cursor,
            )),
            FollowEvent::Reconnect { cursor } => changes@.len() == 0 && (
            what matches StreamEvent::Reconnect { cursor: c } && http::opt_view(c)
                == http::opt_view(cursor)),
            FollowEvent::Reset => changes@.len() == 0 && what is Reset,
        }),
{
}

} // verus!
