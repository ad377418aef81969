//! The market-data ingest state machine: a session against a venue that
//! streams incremental depth updates plus a one-shot snapshot.
//!
//! The session buffers live deltas while the snapshot is fetched, verifies
//! contiguous sequence numbers, reconciles the snapshot against the buffer,
//! and emits normalized notifications.  All decisions are made here, as a
//! pure step function from state and event to next state and actions; the
//! transport performs the actions (sending pings, arming timers, fetching
//! the snapshot, delivering notifications) and feeds back the events.

use vstd::prelude::*;
use crate::order_book::LimitUpdate;
use crate::api::{Trade, Notification};

verus! {

#[derive(Clone, PartialEq, Eq, Debug)]
/// A batch of depth updates tagged with the last sequence number `u` of
/// the venue message that carried it.
pub struct TaggedUpdates {
    /// The venue's last sequence number for this batch.
    pub u: u64,

    /// The batch's normalized updates, in wire order.
    pub updates: Vec<LimitUpdate>,
}

#[derive(Clone, PartialEq, Eq, Debug)]
/// State of the book-snapshot handshake.
pub enum SnapshotState {
    /// No depth event has arrived yet; the snapshot is not requested.
    NotRequested,
    /// The snapshot request is in flight; live depth batches are buffered.
    Waiting {
        /// The batches received since the request, in arrival order.
        buffered: Vec<TaggedUpdates>,
    },
    /// The snapshot was delivered and reconciled against the buffer.
    Synced,
}

#[derive(Clone, Copy, PartialEq, Eq, Structural, Debug)]
/// Why a session closed.  Every reason is fatal: the notification stream
/// terminates and recovery is the supervisor's responsibility.
pub enum CloseReason {
    /// Consecutive depth messages were not contiguous.
    SequenceGap,
    /// The remote stayed silent past the liveness timeout.
    Expired,
    /// The snapshot fetch failed.
    SnapshotFetchFailed,
    /// The task fetching the snapshot exited without delivering.
    SnapshotSenderDropped,
    /// The notification consumer was dropped.
    ConsumerGone,
}

#[derive(Clone, PartialEq, Eq, Debug)]
/// A full book image plus the sequence cursor up to which it is current.
pub struct BookSnapshot {
    /// The venue's sequence number the snapshot reflects.
    pub last_update_id: u64,

    /// The snapshot's bids and asks as one list of limit updates.
    pub updates: Vec<LimitUpdate>,
}

#[derive(Clone, PartialEq, Eq, Debug)]
/// What polling the snapshot channel produced.
pub enum SnapshotPoll {
    /// The fetch has not completed yet.
    NotReady,
    /// The snapshot arrived.
    Delivered(BookSnapshot),
    /// The fetch completed with an error.
    FetchFailed,
    /// The fetching task exited without delivering.
    SenderDropped,
}

#[derive(Clone, PartialEq, Eq, Debug)]
/// An event delivered to the session by the transport.
pub enum Event {
    /// The connection opened.
    Opened,
    /// Any inbound frame arrived (liveness signal).
    Frame,
    /// The ping timer fired.
    PingTimer,
    /// The liveness timer fired.
    ExpireTimer,
    /// The snapshot-poll timer fired; carries the poll outcome.
    SnapshotTimer(SnapshotPoll),
    /// A depth message arrived, already normalized.
    Depth {
        /// The venue's first sequence number of the batch.
        first_u: u64,
        /// The venue's last sequence number of the batch.
        last_u: u64,
        /// The normalized updates of the batch.
        updates: Vec<LimitUpdate>,
    },
    /// A trade message arrived, already normalized.
    TradeMessage(Trade),
    /// A frame the normalizer could not recognize: dropped, the session
    /// continues.
    Unrecognized,
    /// The notification consumer was dropped.
    ConsumerDropped,
}

#[derive(Clone, PartialEq, Eq, Debug)]
/// An action the transport must perform after a step.
pub enum Action {
    /// Send a ping to the venue.
    SendPing,
    /// (Re)arm the ping timer.
    ArmPing,
    /// (Re)arm the liveness timer, cancelling the previous one.
    ArmExpire,
    /// (Re)arm the snapshot-poll timer.
    ArmSnapshotPoll,
    /// Start the one-shot snapshot fetch.
    FetchSnapshot,
    /// Deliver a notification to the consumer.
    Emit(Notification),
    /// Close the session for the given reason.
    Close(CloseReason),
}

#[derive(Clone, PartialEq, Eq, Debug)]
/// The per-session state.
pub struct Session {
    /// The last sequence number `u` seen, used to check that consecutive
    /// depth messages are contiguous.
    pub previous_u: Option<u64>,

    /// State of the book-snapshot handshake.
    pub snapshot: SnapshotState,

    /// Whether the session is still open; a closed session reacts to
    /// nothing and emits nothing.
    pub open: bool,
}

impl Session {
    /// A fresh session: no sequence cursor, snapshot not requested, open.
    pub fn new() -> (s: Session)
        ensures
            s.previous_u is None,
            s.snapshot is NotRequested,
            s.open,
    {
        Session { previous_u: None, snapshot: SnapshotState::NotRequested, open: true }
    }
}

/// Consecutive depth messages must satisfy `previous.u + 1 == next.U`.
/// Returns whether the new batch is coherent, and the sequence cursor to
/// carry forward: advanced to the batch's `u` on success, unchanged on a
/// gap.
pub fn check_sequence(previous_u: Option<u64>, first_u: u64, last_u: u64) -> (r: (
    bool,
    Option<u64>,
))
    ensures
        r.0 <==> !(previous_u is Some && previous_u->0 + 1 != first_u),
        r.0 ==> r.1 == Some(last_u),
        !r.0 ==> r.1 == previous_u,
{
    match previous_u {
        None => (true, Some(last_u)),
        Some(p) => {
            if p < u64::MAX && p + 1 == first_u {
                (true, Some(last_u))
            } else {
                (false, previous_u)
            }
        },
    }
}

/// The notification batches owed to the consumer once the snapshot
/// arrives: the snapshot's own updates first, then every buffered batch
/// whose sequence number exceeds the snapshot's cursor, in arrival order.
pub open spec fn reconciled(
    snapshot_updates: Seq<LimitUpdate>,
    last_update_id: u64,
    buffered: Seq<TaggedUpdates>,
) -> Seq<Seq<LimitUpdate>> {
    seq![snapshot_updates] + buffered.filter(|t: TaggedUpdates| t.u > last_update_id).map_values(
        |t: TaggedUpdates| t.updates@,
    )
}

/// Reconcile the book snapshot against the batches buffered while it was
/// fetched: deltas at or before the snapshot's cursor are redundant and
/// are dropped; later ones are emitted after it, in order.
pub fn reconcile_snapshot(
    snapshot_updates: Vec<LimitUpdate>,
    last_update_id: u64,
    buffered: Vec<TaggedUpdates>,
) -> (out: Vec<Vec<LimitUpdate>>)
    ensures
        out@.map_values(|v: Vec<LimitUpdate>| v@) == reconciled(
            snapshot_updates@,
            last_update_id,
            buffered@,
        ),
{
    let ghost gsnap = snapshot_updates@;
    let ghost gbuf = buffered@;
    let mut out: Vec<Vec<LimitUpdate>> = Vec::new();
    out.push(snapshot_updates);
    proof {
        assert(out@.map_values(|v: Vec<LimitUpdate>| v@) =~= seq![gsnap]
            + gbuf.subrange(0, 0).filter(|t: TaggedUpdates| t.u > last_update_id).map_values(
            |t: TaggedUpdates| t.updates@,
        )) by {
            reveal(Seq::filter);
            assert(gbuf.subrange(0, 0) =~= Seq::<TaggedUpdates>::empty());
        }
    }
    let n = buffered.len();
    let mut rest = buffered;
    let mut i: usize = 0;
    while i < n
        invariant
            n == gbuf.len(),
            0 <= i <= n,
            rest@ =~= gbuf.subrange(i as int, n as int),
            out@.map_values(|v: Vec<LimitUpdate>| v@) == seq![gsnap] + gbuf.subrange(
                0,
                i as int,
            ).filter(|t: TaggedUpdates| t.u > last_update_id).map_values(
                |t: TaggedUpdates| t.updates@,
            ),
        decreases n - i,
    {
        let ghost prefix = gbuf.subrange(0, i as int);
        let ghost out0 = out@;
        let t = rest.remove(0);
        proof {
            assert(t == gbuf[i as int]);
            assert(rest@ =~= gbuf.subrange(i + 1, n as int));
        }
        if t.u > last_update_id {
            out.push(t.updates);
        }
        proof {
            reveal(Seq::filter);
            let prefix2 = gbuf.subrange(0, i + 1);
            assert(prefix2.drop_last() =~= prefix);
            assert(prefix2.drop_last() == prefix);
            assert(prefix2.last() == gbuf[i as int]);
            let fold1 = prefix.filter(|t: TaggedUpdates| t.u > last_update_id);
            let fold2 = prefix2.filter(|t: TaggedUpdates| t.u > last_update_id);
            if gbuf[i as int].u > last_update_id {
                assert(fold2 == fold1.push(gbuf[i as int]));
                assert(fold2.map_values(|t: TaggedUpdates| t.updates@) =~= fold1.map_values(
                    |t: TaggedUpdates| t.updates@,
                ).push(gbuf[i as int].updates@));
                assert(out@ == out0.push(gbuf[i as int].updates));
                assert(out@.map_values(|v: Vec<LimitUpdate>| v@) =~= out0.map_values(
                    |v: Vec<LimitUpdate>| v@,
                ).push(gbuf[i as int].updates@));
            } else {
                assert(fold2 == fold1);
                assert(out@ == out0);
            }
            assert(out@.map_values(|v: Vec<LimitUpdate>| v@) =~= seq![gsnap] + fold2.map_values(
                |t: TaggedUpdates| t.updates@,
            ));
        }
        i = i + 1;
    }
    proof {
        assert(gbuf.subrange(0, n as int) =~= gbuf);
    }
    out
}

/// One step of the ingest state machine: from the current session state
/// and an inbound event to the next state and the actions the transport
/// must perform, exactly as the session protocol prescribes.  A closed
/// session reacts to nothing and emits nothing.  A sequence gap, a failed
/// or undeliverable snapshot, a liveness expiry and a dropped consumer
/// all close the session.
pub fn mdi_step(s: Session, e: Event) -> (r: (Session, Vec<Action>))
    requires
        e is SnapshotTimer ==> !s.open || s.snapshot is Waiting,
    ensures
        !s.open ==> r.0 == s && r.1@ =~= Seq::<Action>::empty(),
        s.open ==> match e {
            Event::Opened => r.0 == (Session {
                snapshot: SnapshotState::NotRequested,
                ..s
            }) && r.1@ =~= seq![Action::SendPing, Action::ArmPing, Action::ArmExpire],
            Event::Frame => r.0 == s && r.1@ =~= seq![Action::ArmExpire],
            Event::PingTimer => r.0 == s && r.1@ =~= seq![Action::SendPing, Action::ArmPing],
            Event::ExpireTimer => r.0 == (Session { open: false, ..s }) && r.1@ =~= seq![
                Action::Close(CloseReason::Expired),
            ],
            Event::TradeMessage(t) => r.0 == s && r.1@ =~= seq![
                Action::Emit(Notification::Trade(t)),
            ],
            Event::Unrecognized => r.0 == s && r.1@ =~= Seq::<Action>::empty(),
            Event::ConsumerDropped => r.0 == (Session { open: false, ..s }) && r.1@ =~= seq![
                Action::Close(CloseReason::ConsumerGone),
            ],
            Event::Depth { first_u, last_u, updates } => {
                if s.previous_u is Some && s.previous_u->0 + 1 != first_u {
                    // Desynchronized: the book cannot be trusted any more.
                    r.0 == (Session { open: false, ..s }) && r.1@ =~= seq![
                        Action::Close(CloseReason::SequenceGap),
                    ]
                } else {
                    match s.snapshot {
                        SnapshotState::NotRequested => r.0.previous_u == Some(last_u) && r.0.open
                            && (r.0.snapshot matches SnapshotState::Waiting { buffered }
                            && buffered@ =~= seq![TaggedUpdates { u: last_u, updates }]) && r.1@
                            =~= seq![Action::FetchSnapshot, Action::ArmSnapshotPoll],
                        SnapshotState::Waiting { buffered } => r.0.previous_u == Some(last_u)
                            && r.0.open && (r.0.snapshot matches SnapshotState::Waiting {
                            buffered: b2,
                        } && b2@ =~= buffered@.push(TaggedUpdates { u: last_u, updates })) && r.1@
                            =~= Seq::<Action>::empty(),
                        SnapshotState::Synced => r.0 == (Session {
                            previous_u: Some(last_u),
                            ..s
                        }) && r.1@ =~= seq![Action::Emit(Notification::LimitUpdates(updates))],
                    }
                }
            },
            Event::SnapshotTimer(poll) => {
                let buffered = s.snapshot->Waiting_buffered;
                match poll {
                    SnapshotPoll::NotReady => r.0 == s && r.1@ =~= seq![Action::ArmSnapshotPoll],
                    SnapshotPoll::FetchFailed => r.0 == (Session { open: false, ..s }) && r.1@
                        =~= seq![Action::Close(CloseReason::SnapshotFetchFailed)],
                    SnapshotPoll::SenderDropped => r.0 == (Session { open: false, ..s }) && r.1@
                        =~= seq![Action::Close(CloseReason::SnapshotSenderDropped)],
                    SnapshotPoll::Delivered(snap) => r.0 == (Session {
                        snapshot: SnapshotState::Synced,
                        ..s
                    }) && r.1@.len() == reconciled(
                        snap.updates@,
                        snap.last_update_id,
                        buffered@,
                    ).len() && (forall|j: int|
                        0 <= j < r.1@.len() ==> ((#[trigger] r.1@[j]) matches Action::Emit(n)
                            && (n matches Notification::LimitUpdates(v) && v@ == reconciled(
                            snap.updates@,
                            snap.last_update_id,
                            buffered@,
                        )[j]))),
                }
            },
        },
{
    if !s.open {
        return (s, Vec::new());
    }
    match e {
        Event::Opened => {
            let mut acts: Vec<Action> = Vec::new();
            acts.push(Action::SendPing);
            acts.push(Action::ArmPing);
            acts.push(Action::ArmExpire);
            (Session { snapshot: SnapshotState::NotRequested, ..s }, acts)
        },
        Event::Frame => {
            let mut acts: Vec<Action> = Vec::new();
            acts.push(Action::ArmExpire);
            (s, acts)
        },
        Event::PingTimer => {
            let mut acts: Vec<Action> = Vec::new();
            acts.push(Action::SendPing);
            acts.push(Action::ArmPing);
            (s, acts)
        },
        Event::ExpireTimer => {
            let mut acts: Vec<Action> = Vec::new();
            acts.push(Action::Close(CloseReason::Expired));
            (Session { open: false, ..s }, acts)
        },
        Event::TradeMessage(t) => {
            let mut acts: Vec<Action> = Vec::new();
            acts.push(Action::Emit(Notification::Trade(t)));
            (s, acts)
        },
        Event::Unrecognized => (s, Vec::new()),
        Event::ConsumerDropped => {
            let mut acts: Vec<Action> = Vec::new();
            acts.push(Action::Close(CloseReason::ConsumerGone));
            (Session { open: false, ..s }, acts)
        },
        Event::Depth { first_u, last_u, updates } => {
            let (coherent, cursor) = check_sequence(s.previous_u, first_u, last_u);
            if !coherent {
                let mut acts: Vec<Action> = Vec::new();
                acts.push(Action::Close(CloseReason::SequenceGap));
                (Session { open: false, ..s }, acts)
            } else {
                match s.snapshot {
                    SnapshotState::NotRequested => {
                        let mut buffered: Vec<TaggedUpdates> = Vec::new();
                        buffered.push(TaggedUpdates { u: last_u, updates });
                        let mut acts: Vec<Action> = Vec::new();
                        acts.push(Action::FetchSnapshot);
                        acts.push(Action::ArmSnapshotPoll);
                        (
                            Session {
                                previous_u: cursor,
                                snapshot: SnapshotState::Waiting { buffered },
                                open: true,
                            },
                            acts,
                        )
                    },
                    SnapshotState::Waiting { mut buffered } => {
                        buffered.push(TaggedUpdates { u: last_u, updates });
                        (
                            Session {
                                previous_u: cursor,
                                snapshot: SnapshotState::Waiting { buffered },
                                open: true,
                            },
                            Vec::new(),
                        )
                    },
                    SnapshotState::Synced => {
                        let mut acts: Vec<Action> = Vec::new();
                        acts.push(Action::Emit(Notification::LimitUpdates(updates)));
                        (
                            Session {
                                previous_u: cursor,
                                snapshot: SnapshotState::Synced,
                                open: true,
                            },
                            acts,
                        )
                    },
                }
            }
        },
        Event::SnapshotTimer(poll) => {
            match s.snapshot {
                SnapshotState::Waiting { buffered } => match poll {
                    SnapshotPoll::NotReady => {
                        let mut acts: Vec<Action> = Vec::new();
                        acts.push(Action::ArmSnapshotPoll);
                        (
                            Session {
                                snapshot: SnapshotState::Waiting { buffered },
                                ..s
                            },
                            acts,
                        )
                    },
                    SnapshotPoll::FetchFailed => {
                        let mut acts: Vec<Action> = Vec::new();
                        acts.push(Action::Close(CloseReason::SnapshotFetchFailed));
                        (
                            Session {
                                snapshot: SnapshotState::Waiting { buffered },
                                open: false,
                                ..s
                            },
                            acts,
                        )
                    },
                    SnapshotPoll::SenderDropped => {
                        let mut acts: Vec<Action> = Vec::new();
                        acts.push(Action::Close(CloseReason::SnapshotSenderDropped));
                        (
                            Session {
                                snapshot: SnapshotState::Waiting { buffered },
                                open: false,
                                ..s
                            },
                            acts,
                        )
                    },
                    SnapshotPoll::Delivered(snap) => {
                        let ghost gbuf = buffered@;
                        let batches = reconcile_snapshot(
                            snap.updates,
                            snap.last_update_id,
                            buffered,
                        );
                        let ghost gbatches = batches@;
                        let mut acts: Vec<Action> = Vec::new();
                        let n = batches.len();
                        let mut i: usize = 0;
                        let mut rest = batches;
                        proof {
                            assert(rest@ =~= gbatches.subrange(0, gbatches.len() as int));
                        }
                        let mut idx: usize = 0;
                        while idx < n
                            invariant
                                n == gbatches.len(),
                                0 <= idx <= n,
                                rest@ =~= gbatches.subrange(idx as int, n as int),
                                acts@.len() == idx,
                                forall|j: int|
                                    0 <= j < idx ==> ((#[trigger] acts@[j]) matches Action::Emit(
                                        nf,
                                    ) && (nf matches Notification::LimitUpdates(v) && v@
                                        == gbatches[j]@)),
                            decreases n - idx,
                        {
                            let v = rest.remove(0);
                            proof {
                                assert(v@ == gbatches[idx as int]@);
                            }
                            acts.push(Action::Emit(Notification::LimitUpdates(v)));
                            proof {
                                assert(rest@ =~= gbatches.subrange(idx + 1, n as int));
                            }
                            idx = idx + 1;
                        }
                        proof {
                            assert(gbatches.map_values(|v: Vec<LimitUpdate>| v@) == reconciled(
                                snap.updates@,
                                snap.last_update_id,
                                gbuf,
                            ));
                            assert forall|j: int| 0 <= j < acts@.len() implies (
                            #[trigger] acts@[j]) matches Action::Emit(nf) && (nf
                                matches Notification::LimitUpdates(v) && (v@ == reconciled(
                                snap.updates@,
                                snap.last_update_id,
                                gbuf,
                            )[j])) by {
                                assert(gbatches.map_values(|v: Vec<LimitUpdate>| v@)[j]
                                    == gbatches[j]@);
                            }
                        }
                        (Session { snapshot: SnapshotState::Synced, ..s }, acts)
                    },
                },
                _ => {
                    proof {
                        assert(false);
                    }
                    (s, Vec::new())
                },
            }
        },
    }
}

} // verus!
