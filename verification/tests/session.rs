use trade::order_book::{LimitUpdate, Side};
use trade::session::{
    mdi_step, reconcile_snapshot, Action, BookSnapshot, CloseReason, Event, Session,
    SnapshotPoll, SnapshotState, TaggedUpdates,
};
use trade::api::Notification;

fn upd(side: Side, price: u64, size: u64) -> LimitUpdate {
    LimitUpdate { side, price, size }
}

fn depth(first_u: u64, last_u: u64, price: u64) -> Event {
    Event::Depth { first_u, last_u, updates: vec![upd(Side::Bid, price, 1)] }
}

#[test]
fn handshake_emits_snapshot_then_late_buffers() {
    // Deliver depth events (U=11,u=12), (U=13,u=15); then a snapshot with
    // last_update_id=13; then a live event (U=16,u=16).  One LimitUpdates
    // for the snapshot, one for the (13,15) buffered delta, one live; the
    // (11,12) delta is dropped.
    let s = Session::new();
    let (s, acts) = mdi_step(s, Event::Opened);
    assert_eq!(acts, vec![Action::SendPing, Action::ArmPing, Action::ArmExpire]);
    let (s, acts) = mdi_step(s, depth(11, 12, 100));
    assert_eq!(acts, vec![Action::FetchSnapshot, Action::ArmSnapshotPoll]);
    let (s, acts) = mdi_step(s, depth(13, 15, 101));
    assert_eq!(acts, vec![]);
    let snap = BookSnapshot {
        last_update_id: 13,
        updates: vec![upd(Side::Ask, 105, 3)],
    };
    let (s, acts) = mdi_step(s, Event::SnapshotTimer(SnapshotPoll::Delivered(snap)));
    assert_eq!(
        acts,
        vec![
            Action::Emit(Notification::LimitUpdates(vec![upd(Side::Ask, 105, 3)])),
            Action::Emit(Notification::LimitUpdates(vec![upd(Side::Bid, 101, 1)])),
        ]
    );
    assert_eq!(s.snapshot, SnapshotState::Synced);
    let (_s, acts) = mdi_step(s, depth(16, 16, 102));
    assert_eq!(
        acts,
        vec![Action::Emit(Notification::LimitUpdates(vec![upd(Side::Bid, 102, 1)]))]
    );
}

#[test]
fn sequence_gap_closes_session_and_silences_it() {
    let s = Session::new();
    let (s, _) = mdi_step(s, depth(11, 12, 100));
    // previous.u + 1 = 13, but the next batch starts at 14: a gap.
    let (s, acts) = mdi_step(s, depth(14, 15, 101));
    assert_eq!(acts, vec![Action::Close(CloseReason::SequenceGap)]);
    assert!(!s.open);
    // A closed session emits nothing further.
    let (s, acts) = mdi_step(s, depth(16, 16, 102));
    assert_eq!(acts, vec![]);
    let (_s, acts) = mdi_step(s, Event::Frame);
    assert_eq!(acts, vec![]);
}

#[test]
fn timers_and_liveness() {
    let s = Session::new();
    let (s, acts) = mdi_step(s, Event::PingTimer);
    assert_eq!(acts, vec![Action::SendPing, Action::ArmPing]);
    let (s, acts) = mdi_step(s, Event::Frame);
    assert_eq!(acts, vec![Action::ArmExpire]);
    let (s, acts) = mdi_step(s, Event::ExpireTimer);
    assert_eq!(acts, vec![Action::Close(CloseReason::Expired)]);
    assert!(!s.open);
}

#[test]
fn snapshot_failures_close() {
    let s = Session::new();
    let (s, _) = mdi_step(s, depth(1, 2, 100));
    let (s, acts) = mdi_step(s, Event::SnapshotTimer(SnapshotPoll::NotReady));
    assert_eq!(acts, vec![Action::ArmSnapshotPoll]);
    let (s2, acts) = mdi_step(s.clone(), Event::SnapshotTimer(SnapshotPoll::FetchFailed));
    assert_eq!(acts, vec![Action::Close(CloseReason::SnapshotFetchFailed)]);
    assert!(!s2.open);
    let (s3, acts) = mdi_step(s, Event::SnapshotTimer(SnapshotPoll::SenderDropped));
    assert_eq!(acts, vec![Action::Close(CloseReason::SnapshotSenderDropped)]);
    assert!(!s3.open);
}

#[test]
fn reconcile_drops_stale_batches_only() {
    let out = reconcile_snapshot(
        vec![upd(Side::Bid, 10, 1)],
        20,
        vec![
            TaggedUpdates { u: 19, updates: vec![upd(Side::Bid, 11, 1)] },
            TaggedUpdates { u: 20, updates: vec![upd(Side::Bid, 12, 1)] },
            TaggedUpdates { u: 21, updates: vec![upd(Side::Bid, 13, 1)] },
            TaggedUpdates { u: 25, updates: vec![upd(Side::Bid, 14, 1)] },
        ],
    );
    assert_eq!(
        out,
        vec![
            vec![upd(Side::Bid, 10, 1)],
            vec![upd(Side::Bid, 13, 1)],
            vec![upd(Side::Bid, 14, 1)],
        ]
    );
}
