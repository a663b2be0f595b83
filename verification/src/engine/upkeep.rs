//! Timers of the engine.

use vstd::prelude::*;

use crate::audio::upkeep::{
    audio_deadline, audio_pass, housekeeping, min_time, peer_gone, peer_left, sooner,
};
use crate::engine::Engine;
use crate::engine::elect::loss_checked;
use crate::engine::measure::{after_failure, next_started, remeasure_queued};
use crate::engine::send::{alive_sent, post, posted};
use crate::engine::state::{
    is_clock, is_deadline, peers_ok, state_ok, MeasurementView, Outlet, PeerEntry, State, StateView,
    ALIVE_PERIOD, MAX_MEASUREMENT_RETRIES, MAX_TTL, MEASUREMENT_RETRY, PRUNE_PADDING,
    REMEASURE_PERIOD,
};
use crate::table::{lemma_distinct_filter, Route, Table};
use crate::wire::sync;
use crate::wire::sync::ping_bytes;
use crate::wire::types::NodeId;

verus! {

// -------------------------------------------------------------------- alive

/// The state after the Alive timer, then a delayed broadcast, were looked at.
pub open spec fn alive_kept(s: StateView, now: i64) -> StateView {
    let t = if now >= s.last_alive_at + ALIVE_PERIOD {
        alive_sent(s, now)
    } else {
        s
    };
    match t.broadcast_due {
        Some(due) => if now >= due {
            alive_sent(t, now)
        } else {
            t
        },
        None => t,
    }
}

/// When the Alive timer or a delayed broadcast is due next. (A broadcast that
/// was due leaves the deadline as it was before it.)
pub open spec fn alive_deadline(s: StateView, now: i64) -> i64 {
    let t = if now >= s.last_alive_at + ALIVE_PERIOD {
        alive_sent(s, now)
    } else {
        s
    };
    let next = sooner((now + ALIVE_PERIOD) as i64, (t.last_alive_at + ALIVE_PERIOD) as i64);
    match t.broadcast_due {
        Some(due) => if now >= due {
            next
        } else {
            sooner(next, due)
        },
        None => next,
    }
}

// ------------------------------------------------------------------ pruning

/// The earliest deadline of peers.
pub open spec fn earliest_deadline(peers: Seq<(Route, PeerEntry)>) -> Option<i64>
    decreases peers.len(),
{
    if peers.len() == 0 {
        None
    } else {
        Some(
            match earliest_deadline(peers.drop_last()) {
                Some(e) => sooner(e, peers.last().1.deadline),
                None => peers.last().1.deadline,
            },
        )
    }
}

/// The earliest deadline of peers.
pub fn find_earliest_deadline(peers: &Table<Route, PeerEntry>) -> (r: Option<i64>)
    requires
        peers_ok(peers@),
    ensures
        r == earliest_deadline(peers@),
        r matches Some(e) ==> is_deadline(e, MAX_TTL),
{
    let ghost all = peers@;
    let mut r: Option<i64> = None;
    let mut i: usize = 0;
    proof {
        assert(all.take(0) =~= Seq::empty());
    }
    while i < peers.items.len()
        invariant
            i <= peers.items@.len(),
            all == peers@,
            peers_ok(all),
            r == earliest_deadline(all.take(i as int)),
            r matches Some(e) ==> is_deadline(e, MAX_TTL),
        decreases peers.items@.len() - i,
    {
        let deadline = peers.items[i].1.deadline;
        proof {
            assert(all.take(i + 1).drop_last() =~= all.take(i as int));
            assert(all.take(i + 1).last() == all[i as int]);
            assert(is_deadline(all[i as int].1.deadline, MAX_TTL));
        }
        r = match r {
            Some(e) => Some(min_time(e, deadline)),
            None => Some(deadline),
        };
        i = i + 1;
    }
    proof {
        assert(all.take(i as int) =~= all);
    }
    r
}

/// The peers whose time is not over.
pub open spec fn live_peers(peers: Seq<(Route, PeerEntry)>, now: i64) -> Seq<(Route, PeerEntry)> {
    peers.filter(|e: (Route, PeerEntry)| e.1.deadline > now)
}

/// The nodes, by entry, whose time is over.
pub open spec fn expired_nodes(peers: Seq<(Route, PeerEntry)>, now: i64) -> Seq<NodeId>
    decreases peers.len(),
{
    if peers.len() == 0 {
        Seq::empty()
    } else {
        let front = expired_nodes(peers.drop_last(), now);
        if peers.last().1.deadline <= now {
            front.push(peers.last().0.id)
        } else {
            front
        }
    }
}

fn find_expired(peers: &Table<Route, PeerEntry>, now: i64) -> (v: Vec<NodeId>)
    ensures
        v@ == expired_nodes(peers@, now),
{
    let ghost all = peers@;
    let mut v: Vec<NodeId> = Vec::new();
    let mut i: usize = 0;
    proof {
        assert(all.take(0) =~= Seq::empty());
    }
    while i < peers.items.len()
        invariant
            i <= peers.items@.len(),
            all == peers@,
            v@ == expired_nodes(all.take(i as int), now),
        decreases peers.items@.len() - i,
    {
        proof {
            assert(all.take(i + 1).drop_last() =~= all.take(i as int));
            assert(all.take(i + 1).last() == all[i as int]);
        }
        if peers.items[i].1.deadline <= now {
            v.push(peers.items[i].0.id);
        }
        i = i + 1;
    }
    proof {
        assert(all.take(i as int) =~= all);
    }
    v
}

/// Whether a node is known through any gateway.
pub open spec fn is_visible(peers: Seq<(Route, PeerEntry)>, node: NodeId) -> bool {
    exists|i: int| 0 <= i < peers.len() && (#[trigger] peers[i]).0.id == node
}

fn visible(peers: &Table<Route, PeerEntry>, node: NodeId) -> (r: bool)
    ensures
        r == is_visible(peers@, node),
{
    let mut i: usize = 0;
    while i < peers.items.len()
        invariant
            i <= peers.items@.len(),
            forall|j: int| 0 <= j < i ==> (#[trigger] peers@[j]).0.id != node,
        decreases peers.items@.len() - i,
    {
        if peers.items[i].0.id == node {
            proof {
                assert(peers@[i as int].0.id == node);
            }
            return true;
        }
        i = i + 1;
    }
    false
}

/// The state after the channels of those nodes were forgotten that are known
/// through no gateway any more.
pub open spec fn nodes_gone(s: StateView, nodes: Seq<NodeId>) -> StateView
    decreases nodes.len(),
{
    if nodes.len() == 0 {
        s
    } else {
        let front = nodes_gone(s, nodes.drop_last());
        if is_visible(s.peers, nodes.last()) {
            front
        } else {
            peer_gone(front, nodes.last())
        }
    }
}

pub proof fn lemma_nodes_gone(s: StateView, nodes: Seq<NodeId>)
    ensures
        nodes_gone(s, nodes) == (StateView { audio: nodes_gone(s, nodes).audio, ..s }),
    decreases nodes.len(),
{
    if nodes.len() > 0 {
        lemma_nodes_gone(s, nodes.drop_last());
    }
}

/// The state after peers were pruned, a while after the earliest deadline.
pub open spec fn peers_pruned(s: StateView, now: i64, fresh: NodeId) -> StateView {
    match earliest_deadline(s.peers) {
        Some(e) => if now >= e + PRUNE_PADDING {
            loss_checked(
                nodes_gone(
                    StateView { peers: live_peers(s.peers, now), ..s },
                    expired_nodes(s.peers, now),
                ),
                now,
                fresh,
            )
        } else {
            s
        },
        None => s,
    }
}

// -------------------------------------------------------------- measurement

/// The state after the retry timer was looked at: a fresh ping while there are
/// retries left, failure when the budget is spent.
pub open spec fn retry_kept(s: StateView, now: i64) -> StateView {
    match s.measurement {
        Some(m) => if now < m.retry_deadline {
            s
        } else if m.timeouts >= MAX_MEASUREMENT_RETRIES {
            after_failure(StateView { measurement: None, ..s }, m.task, now)
        } else {
            posted(
                StateView {
                    measurement: Some(
                        MeasurementView {
                            timeouts: (m.timeouts + 1) as u32,
                            retry_deadline: (now + MEASUREMENT_RETRY) as i64,
                            ..m
                        },
                    ),
                    ..s
                },
                m.task.gateway,
                Outlet::Measurement(m.task.target),
                ping_bytes(now, None),
            )
        },
        None => s,
    }
}

/// The soonest of `next` and the retry timer. (A failure leaves it as it is.)
pub open spec fn retry_deadline(s: StateView, now: i64, next: i64) -> i64 {
    match s.measurement {
        Some(m) => if now < m.retry_deadline {
            sooner(next, m.retry_deadline)
        } else if m.timeouts >= MAX_MEASUREMENT_RETRIES {
            next
        } else {
            sooner(next, (now + MEASUREMENT_RETRY) as i64)
        },
        None => next,
    }
}

/// The state after the re-measurement timer was looked at.
pub open spec fn remeasure_kept(s: StateView, now: i64) -> StateView {
    match s.next_remeasure_at {
        Some(t) => if now >= t {
            StateView {
                next_remeasure_at: Some((now + REMEASURE_PERIOD) as i64),
                ..remeasure_queued(s)
            }
        } else {
            s
        },
        None => s,
    }
}

/// The soonest of `next` and the re-measurement timer.
pub open spec fn remeasure_deadline(s: StateView, now: i64, next: i64) -> i64 {
    match s.next_remeasure_at {
        Some(t) => if now >= t {
            sooner(next, (now + REMEASURE_PERIOD) as i64)
        } else {
            sooner(next, t)
        },
        None => next,
    }
}

// --------------------------------------------------------------------- pass

/// The state before the audio part of a pass.
pub open spec fn core_pass(s: StateView, now: i64, fresh: NodeId) -> StateView {
    next_started(
        remeasure_kept(retry_kept(peers_pruned(alive_kept(s, now), now, fresh), now), now),
        now,
    )
}

/// The state after one pass.
pub open spec fn passed(s: StateView, now: i64, fresh: NodeId) -> StateView {
    if s.enabled {
        audio_pass(core_pass(s, now, fresh), now)
    } else {
        s
    }
}

/// When the next pass is wanted.
pub open spec fn pass_deadline(s: StateView, now: i64, fresh: NodeId) -> i64 {
    if s.enabled {
        let pruned = peers_pruned(alive_kept(s, now), now, fresh);
        let t1 = match earliest_deadline(pruned.peers) {
            Some(e) => sooner(alive_deadline(s, now), (e + PRUNE_PADDING) as i64),
            None => alive_deadline(s, now),
        };
        let t2 = retry_deadline(pruned, now, t1);
        let t3 = remeasure_deadline(retry_kept(pruned, now), now, t2);
        sooner(t3, audio_deadline(core_pass(s, now, fresh), now))
    } else {
        (now + ALIVE_PERIOD) as i64
    }
}

impl Engine {
    fn keep_alive(&self, st: &mut State, now: i64) -> (next: i64)
        requires
            is_clock(now),
            state_ok(old(st)@),
        ensures
            final(st)@ == alive_kept(old(st)@, now),
            next == alive_deadline(old(st)@, now),
            state_ok(final(st)@),
    {
        if now >= st.last_alive_at + ALIVE_PERIOD {
            self.send_alive(st, now);
        }
        let mut next = min_time(now + ALIVE_PERIOD, st.last_alive_at + ALIVE_PERIOD);
        if let Some(due) = st.broadcast_due {
            if now >= due {
                self.send_alive(st, now);
            } else {
                next = min_time(next, due);
            }
        }
        next
    }

    fn forget_nodes(&self, st: &mut State, nodes: &Vec<NodeId>)
        requires
            state_ok(old(st)@),
        ensures
            final(st)@ == nodes_gone(old(st)@, nodes@),
            state_ok(final(st)@),
    {
        let ghost s = st@;
        let mut i: usize = 0;
        proof {
            assert(nodes@.take(0) =~= Seq::empty());
        }
        while i < nodes.len()
            invariant
                i <= nodes@.len(),
                state_ok(st@),
                st@ == nodes_gone(s, nodes@.take(i as int)),
            decreases nodes@.len() - i,
        {
            proof {
                assert(nodes@.take(i + 1).drop_last() =~= nodes@.take(i as int));
                assert(nodes@.take(i + 1).last() == nodes@[i as int]);
                lemma_nodes_gone(s, nodes@.take(i as int));
            }
            if !visible(&st.peers, nodes[i]) {
                peer_left(st, nodes[i]);
            }
            i = i + 1;
        }
        proof {
            assert(nodes@.take(i as int) =~= nodes@);
        }
    }

    fn prune_peers(&self, st: &mut State, now: i64, fresh: NodeId)
        requires
            is_clock(now),
            state_ok(old(st)@),
        ensures
            final(st)@ == peers_pruned(old(st)@, now, fresh),
            state_ok(final(st)@),
    {
        if let Some(earliest) = find_earliest_deadline(&st.peers) {
            if now >= earliest + PRUNE_PADDING {
                let ghost all = st@.peers;
                let ghost keep = |e: (Route, PeerEntry)| e.1.deadline > now;
                let expired = find_expired(&st.peers, now);
                let live = |_k: &Route, e: &PeerEntry| -> (b: bool)
                    ensures
                        b == (e.deadline > now),
                {
                    e.deadline > now
                };
                st.peers.retain(live);
                proof {
                    assert(st@.peers == all.filter(keep));
                    lemma_distinct_filter(all, keep);
                    let kept = all.filter(keep);
                    assert forall|i: int| 0 <= i < kept.len() implies is_deadline(
                        (#[trigger] kept[i]).1.deadline,
                        MAX_TTL,
                    ) by {
                        assert(kept.contains(kept[i]));
                        all.lemma_filter_contains_rev(keep, kept[i]);
                    }
                }
                self.forget_nodes(st, &expired);
                self.check_session_loss(st, now, fresh);
            }
        }
    }

    fn keep_retrying(&self, st: &mut State, now: i64, next: i64) -> (r: i64)
        requires
            is_clock(now),
            state_ok(old(st)@),
        ensures
            final(st)@ == retry_kept(old(st)@, now),
            r == retry_deadline(old(st)@, now, next),
            state_ok(final(st)@),
    {
        let mut m = match st.measurement.take() {
            Some(m) => m,
            None => {
                return next;
            },
        };
        if now < m.retry_deadline {
            let deadline = m.retry_deadline;
            st.measurement = Some(m);
            return min_time(next, deadline);
        }
        if m.timeouts >= MAX_MEASUREMENT_RETRIES {
            self.measurement_failed(st, m.task, now);
            return next;
        }
        let task = m.task;
        m.timeouts = m.timeouts + 1;
        m.retry_deadline = now + MEASUREMENT_RETRY;
        st.measurement = Some(m);
        // A fresh ping, without the previous ghost time.
        post(st, task.gateway, Outlet::Measurement(task.target), sync::encode_ping(now, None));
        min_time(next, now + MEASUREMENT_RETRY)
    }

    fn keep_measured(&self, st: &mut State, now: i64, next: i64) -> (r: i64)
        requires
            is_clock(now),
            state_ok(old(st)@),
        ensures
            final(st)@ == remeasure_kept(old(st)@, now),
            r == remeasure_deadline(old(st)@, now, next),
            state_ok(final(st)@),
    {
        match st.next_remeasure_at {
            Some(t) => {
                if now >= t {
                    self.queue_remeasure(st);
                    st.next_remeasure_at = Some(now + REMEASURE_PERIOD);
                    min_time(next, now + REMEASURE_PERIOD)
                } else {
                    min_time(next, t)
                }
            },
            None => next,
        }
    }

    /// One housekeeping pass; returns the next deadline (µs on our clock).
    /// `fresh` is the identifier of the session that is founded if pruning
    /// leaves us without members.
    pub fn housekeeping_pass(&self, st: &mut State, now: i64, fresh: NodeId) -> (next: i64)
        requires
            is_clock(now),
            state_ok(old(st)@),
        ensures
            final(st)@ == passed(old(st)@, now, fresh),
            next == pass_deadline(old(st)@, now, fresh),
            state_ok(final(st)@),
    {
        if !st.enabled {
            return now + ALIVE_PERIOD;
        }
        let mut next = self.keep_alive(st, now);
        self.prune_peers(st, now, fresh);
        if let Some(e) = find_earliest_deadline(&st.peers) {
            next = min_time(next, e + PRUNE_PADDING);
        }
        next = self.keep_retrying(st, now, next);
        next = self.keep_measured(st, now, next);
        self.start_next_measurement(st, now);
        let audio_next = housekeeping(st, now);
        min_time(next, audio_next)
    }
}

} // verus!
