use hf_mount::error::Error;
use hf_mount::time::Span;
use hf_mount::virtual_fs::follow::{
    apply_follow_changes, split_event, ConnectOutcome, FollowChange, FollowEvent, FollowLoop,
    FollowOp, FollowStep, StreamEvent,
};
use hf_mount::virtual_fs::inode::{InodeEntry, InodeKind, InodeTable, ROOT_INODE};
use hf_mount::virtual_fs::negative::NegativeCache;
use hf_mount::virtual_fs::poll::InvalKind;

const NOW: Span = Span { secs: 1000, nanos: 0 };

fn file(ino: u64, path: &str) -> InodeEntry {
    InodeEntry {
        inode: ino,
        parent: ROOT_INODE,
        name: path.to_string(),
        full_path: path.to_string(),
        kind: InodeKind::File,
        xet_hash: Some("h".to_string()),
        etag: None,
        size: 10,
        mtime: NOW,
        cipher_size: None,
        needs_size_probe: false,
        dirty: false,
        children_loaded: false,
        nlink: 1,
        open_handles: 0,
    }
}

fn table(entries: Vec<InodeEntry>) -> InodeTable {
    let mut t = InodeTable::new(NOW);
    t.mark_children_loaded(ROOT_INODE);
    for e in entries {
        assert!(t.insert(e));
    }
    t
}

fn change(op: FollowOp, path: &str) -> FollowChange {
    FollowChange {
        op,
        path: path.to_string(),
        xet_hash: None,
        size: None,
        mtime: None,
        uploaded_at: None,
    }
}

#[test]
fn changes_update_known_files() {
    let mut t = table(vec![file(2, "a")]);
    let mut c = change(FollowOp::Update, "a");
    c.xet_hash = Some("h2".to_string());
    c.size = Some(99);
    c.uploaded_at = Some("1970-01-01T00:00:07Z".to_string());
    let invals = apply_follow_changes(&vec![c], &mut t, &mut NegativeCache::new());
    assert_eq!(invals, vec![(2, InvalKind::Pages)]);
    let e = t.get(2).unwrap();
    assert_eq!(e.xet_hash.as_deref(), Some("h2"));
    assert_eq!(e.size, 99);
    assert_eq!(e.mtime, Span::from_secs(7));
    assert!(t.is_children_loaded(ROOT_INODE), "the listing is still good");
}

#[test]
fn absent_fields_keep_their_value() {
    let mut t = table(vec![file(2, "a")]);
    let mut c = change(FollowOp::Update, "a");
    c.mtime = Some("1970-01-01T00:00:03Z".to_string());
    c.uploaded_at = Some("1970-01-01T00:00:07Z".to_string());
    apply_follow_changes(&vec![c], &mut t, &mut NegativeCache::new());
    let e = t.get(2).unwrap();
    assert_eq!(e.xet_hash.as_deref(), Some("h"));
    assert_eq!(e.size, 10);
    assert_eq!(e.mtime, Span::from_secs(3));
}

#[test]
fn changes_do_not_touch_local_writes() {
    let mut dirty = file(2, "a");
    dirty.dirty = true;
    let mut t = table(vec![dirty]);
    let mut c = change(FollowOp::Update, "a");
    c.size = Some(1);
    let batch = vec![c, change(FollowOp::Delete, "a")];
    assert!(apply_follow_changes(&batch, &mut t, &mut NegativeCache::new()).is_empty());
    assert_eq!(t.get(2).unwrap().size, 10);
    assert!(t.get_by_path("a").is_some());
}

#[test]
fn deletions_drop_known_files() {
    let mut open = file(2, "open");
    open.open_handles = 1;
    let mut t = table(vec![open, file(3, "closed")]);
    let batch = vec![change(FollowOp::Delete, "open"), change(FollowOp::Delete, "closed")];
    let invals = apply_follow_changes(&batch, &mut t, &mut NegativeCache::new());
    assert_eq!(
        invals,
        vec![
            (ROOT_INODE, InvalKind::Pages),
            (2, InvalKind::AttrOnly),
            (ROOT_INODE, InvalKind::Pages),
            (3, InvalKind::Pages)
        ]
    );
    assert_eq!(t.get(2).unwrap().nlink, 0);
    assert!(t.get(3).is_none());
}

#[test]
fn batches_spare_open_and_dirty_files() {
    let mut open = file(2, "open");
    open.open_handles = 1;
    let mut dirty = file(3, "dirty");
    dirty.dirty = true;
    let mut t = table(vec![open, dirty]);
    let batch = vec![
        change(FollowOp::Update, "open"),
        change(FollowOp::Update, "dirty"),
        change(FollowOp::Add, "new"),
        change(FollowOp::Delete, "dirty"),
        change(FollowOp::Delete, "open"),
    ];
    let invals = apply_follow_changes(&batch, &mut t, &mut NegativeCache::new());
    assert_eq!(
        invals,
        vec![
            (2, InvalKind::AttrOnly),
            (ROOT_INODE, InvalKind::Pages),
            (2, InvalKind::AttrOnly),
            (ROOT_INODE, InvalKind::Pages)
        ]
    );
}

#[test]
fn unknown_paths_drop_the_listing() {
    let mut t = table(vec![]);
    let mut cache = NegativeCache::new();
    cache.insert("dir/new", NOW);
    cache.insert("dir", NOW);
    cache.insert("other", NOW);
    let batch = vec![change(FollowOp::Add, "dir/new"), change(FollowOp::Delete, "other")];
    let invals = apply_follow_changes(&batch, &mut t, &mut cache);
    assert_eq!(invals, vec![(ROOT_INODE, InvalKind::Pages)]);
    assert!(!t.is_children_loaded(ROOT_INODE));
    // What was added is not missing any more, what was deleted is.
    assert_eq!(cache.get("dir/new"), None);
    assert_eq!(cache.get("dir"), None);
    assert_eq!(cache.get("other"), Some(NOW));
    // A directory that was not listed needs nothing.
    assert!(apply_follow_changes(&batch, &mut t, &mut cache).is_empty());
}

fn refused() -> ConnectOutcome {
    ConnectOutcome::Failed {
        error: Error::hub_status(400, "x"),
        retry_after: None,
    }
}

#[test]
fn following_starts_from_the_revision() {
    let mut l = FollowLoop::new(Some("r1".to_string()));
    assert_eq!(l.begin(), FollowStep::Connect);
    assert_eq!(l.cursor(), None);
    assert_eq!(l.since(), Some("r1"));
    assert_eq!(l.on_connect(ConnectOutcome::Stream), FollowStep::Listen);
    assert_eq!(
        l.on_event(StreamEvent::Changes { cursor: "c1".to_string() }),
        FollowStep::Listen
    );
    assert_eq!(l.on_event(StreamEvent::Ready { cursor: None }), FollowStep::Listen);
    // A stream that breaks resumes at the cursor, after a short pause.
    assert_eq!(l.on_event(StreamEvent::Ended), FollowStep::Sleep(Span::from_secs(1)));
    assert_eq!(l.begin(), FollowStep::Connect);
    assert_eq!(l.cursor(), Some("c1"));
    assert_eq!(l.since(), None);
    assert_eq!(l.into_revision().as_deref(), Some("r1"));
}

#[test]
fn following_reconciles_first() {
    let mut l = FollowLoop::new(None);
    assert_eq!(l.begin(), FollowStep::Probe);
    assert_eq!(l.on_probe(Some("r1".to_string())), FollowStep::Reconcile);
    // An incomplete round is repeated, less and less often.
    assert_eq!(l.on_reconcile(false), FollowStep::Sleep(Span::from_secs(10)));
    assert_eq!(l.begin(), FollowStep::Probe);
    assert_eq!(l.on_probe(Some("r1".to_string())), FollowStep::Reconcile);
    assert_eq!(l.on_reconcile(false), FollowStep::Sleep(Span::from_secs(20)));
    assert_eq!(l.on_probe(Some("r1".to_string())), FollowStep::Reconcile);
    assert_eq!(l.on_reconcile(true), FollowStep::Connect);
    assert_eq!(l.since(), Some("r1"));
    // Nothing has moved: no round is needed.
    assert_eq!(l.on_probe(Some("r1".to_string())), FollowStep::Connect);
    assert_eq!(l.on_probe(None), FollowStep::Connect);
}

#[test]
fn resets_lead_to_a_probe() {
    let mut l = FollowLoop::new(Some("r1".to_string()));
    l.begin();
    l.on_connect(ConnectOutcome::Stream);
    l.on_event(StreamEvent::Changes { cursor: "c1".to_string() });
    assert_eq!(l.on_event(StreamEvent::Reset), FollowStep::Sleep(Span::from_secs(1)));
    assert_eq!(l.begin(), FollowStep::Probe);
}

#[test]
fn refusals_go_further_back() {
    let mut l = FollowLoop::new(Some("r1".to_string()));
    l.begin();
    l.on_connect(ConnectOutcome::Stream);
    let cursor = Some("c1".to_string());
    assert_eq!(
        l.on_event(StreamEvent::Reconnect { cursor }),
        FollowStep::Sleep(Span::from_secs(1))
    );
    assert_eq!(l.cursor(), Some("c1"));
    assert_eq!(l.on_connect(refused()), FollowStep::Restart);
    assert_eq!(l.since(), Some("r1"));
    assert_eq!(l.on_connect(refused()), FollowStep::Restart);
    assert_eq!(l.since(), None);
    assert_eq!(l.cursor(), None);
    assert_eq!(l.begin(), FollowStep::Connect);
    assert_eq!(l.on_connect(refused()), FollowStep::GiveUp);
}

#[test]
fn live_sessions_are_one_shot() {
    let mut l = FollowLoop::new(Some("r1".to_string()));
    l.begin();
    l.on_connect(refused());
    l.on_connect(ConnectOutcome::Stream);
    l.on_event(StreamEvent::Ready { cursor: None });
    l.on_event(StreamEvent::Ended);
    assert_eq!(l.begin(), FollowStep::Probe);
}

#[test]
fn feeds_that_are_unusable_are_given_up() {
    let mut l = FollowLoop::new(Some("r1".to_string()));
    assert_eq!(l.on_connect(ConnectOutcome::NotServed), FollowStep::GiveUp);
    let mut l = FollowLoop::new(Some("r1".to_string()));
    assert_eq!(l.on_event(StreamEvent::Ended), FollowStep::Sleep(Span::from_secs(10)));
    assert_eq!(l.on_event(StreamEvent::Ended), FollowStep::Sleep(Span::from_secs(20)));
    assert_eq!(l.on_event(StreamEvent::Ended), FollowStep::GiveUp);
    // A `ready` forgives.
    let mut l = FollowLoop::new(Some("r1".to_string()));
    l.on_event(StreamEvent::Ended);
    l.on_event(StreamEvent::Ended);
    l.on_event(StreamEvent::Ready { cursor: None });
    l.on_event(StreamEvent::Ended);
    l.on_connect(ConnectOutcome::Stream);
    assert_eq!(l.on_event(StreamEvent::Ended), FollowStep::Sleep(Span::from_secs(10)));
}

#[test]
fn failed_connections_wait() {
    let failed = |hint: Option<Span>| ConnectOutcome::Failed {
        error: Error::hub_status(503, "x"),
        retry_after: hint,
    };
    let mut l = FollowLoop::new(Some("r1".to_string()));
    assert_eq!(l.on_connect(failed(None)), FollowStep::Sleep(Span::from_secs(10)));
    assert_eq!(l.on_connect(failed(None)), FollowStep::Sleep(Span::from_secs(20)));
    // The hint of the server counts, within bounds.
    assert_eq!(
        l.on_connect(failed(Some(Span::from_secs(3)))),
        FollowStep::Sleep(Span::from_secs(3))
    );
    let long = l.on_connect(failed(Some(Span::from_secs(1_000_000))));
    match long {
        FollowStep::Sleep(d) => assert!(d.secs < 1_000_000 && d.secs >= 40),
        other => panic!("unexpected: {other:?}"),
    }
}

#[test]
fn events_are_split() {
    let (changes, event) = split_event(Ok(Some(FollowEvent::Changes {
        cursor: "c".to_string(),
        changes: vec![change(FollowOp::Add, "a")],
    })));
    assert_eq!(changes.len(), 1);
    assert!(matches!(event, StreamEvent::Changes { cursor } if cursor == "c"));
    assert!(matches!(split_event(Ok(None)).1, StreamEvent::Ended));
    assert!(matches!(split_event(Err(Error::hub("x"))).1, StreamEvent::Ended));
    assert!(matches!(split_event(Ok(Some(FollowEvent::Reset))).1, StreamEvent::Reset));
}
