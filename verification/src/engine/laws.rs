//! Laws of the engine: what every event keeps.

use vstd::prelude::*;

use crate::audio::announce::{published, round_of};
use crate::audio::inbound::{audio_received, deadline_of, lemma_known_filter};
use crate::audio::laws::law_next_audio_pass_is_later;
use crate::audio::paths::{endpoints_of, sent_to, sent_to_all};
use crate::audio::state::{audio_ok, AudioView, KnownChannelView, PathStatsView, RTT_WINDOW};
use crate::audio::upkeep::{
    all_refreshed, announce_time, announced, announcer, audio_pass, due_requests, peer_forgotten,
    peer_gone, requests_sent,
};
use crate::engine::elect::{
    adopted, beat_at, join_evaluated, join_wins, loss_checked, session_reset,
};
use crate::engine::gossip::{
    alive_answered, discovery_received, foreign_heard, peer_noted, peer_state_processed,
    start_stop_heard, timeline_heard,
};
use crate::engine::measure::{
    after_failure, after_success, first_target, measurement_queued, measurement_received, median_of,
    next_started, samples_after, saturated,
};
use crate::engine::send::{
    alive_bytes, alive_sent, alives, broadcast_scheduled, posted, response_bytes, state_payload,
};
use crate::engine::state::{
    is_clock, is_deadline, is_tempo, state_ok, DatagramView, MeasureTask, Outlet, PeerEntry, Purpose, StateView,
    ALIVE_PERIOD, MAX_MEASUREMENT_RETRIES, MAX_TTL, MEASUREMENT_RETRY, MIN_BROADCAST_SPACING,
    PRUNE_PADDING,
    REMEASURE_PERIOD,
};
use crate::engine::upkeep::{
    alive_deadline, alive_kept, core_pass, earliest_deadline, expired_nodes, lemma_nodes_gone,
    live_peers, nodes_gone, pass_deadline, passed, peers_pruned, remeasure_kept, retry_kept,
};
use crate::runtime::{dispatched, Role};
use crate::table::{law_with, lemma_distinct_filter, lookup, with, without, Route};
use crate::wire::discovery;
use crate::wire::discovery::{header_of, PeerState, TTL_SECONDS, TYPE_ALIVE};
use crate::wire::sync;
use crate::wire::types::{
    is_plain_endpoint, stopped, ChannelId, NodeId, SessionId, SocketAddr, StartStopState, Timeline,
};

verus! {

// -------------------------------------------------------- what events keep

/// Whether `t` comes after `s` by events at time `now`: what was to be sent
/// still is, in its place; the gateways are the same; an Alive was sent now or
/// not at all.
pub open spec fn follows(s: StateView, t: StateView, now: i64) -> bool {
    &&& s.outbox.is_prefix_of(t.outbox)
    &&& t.gateways == s.gateways
    &&& t.enabled == s.enabled
    &&& t.epoch == s.epoch
    &&& t.last_alive_at == s.last_alive_at || t.last_alive_at == now
}

proof fn lemma_follows(r: StateView, s: StateView, t: StateView, now: i64)
    requires
        follows(r, s, now),
        follows(s, t, now),
    ensures
        follows(r, t, now),
{
    assert(r.outbox.is_prefix_of(t.outbox)) by {
        assert(forall|i: int| 0 <= i < r.outbox.len() ==> r.outbox[i] == s.outbox[i]);
        assert(forall|i: int| 0 <= i < s.outbox.len() ==> s.outbox[i] == t.outbox[i]);
    }
}

proof fn lemma_broadcast_follows(s: StateView, now: i64)
    ensures
        follows(s, broadcast_scheduled(s, now), now),
{
    let t = alive_sent(s, now);
    assert(s.outbox.is_prefix_of(t.outbox));
}

proof fn lemma_posted_follows(s: StateView, gw: usize, outlet: Outlet, bytes: Seq<u8>, now: i64)
    ensures
        follows(s, posted(s, gw, outlet, bytes), now),
{
}

proof fn lemma_join_follows(s: StateView, sess: SessionId, offset: i64, now: i64)
    ensures
        follows(s, join_evaluated(s, sess, offset, now), now),
{
    let t = join_evaluated(s, sess, offset, now);
    if join_wins(sess, offset, s.session, s.ghost_offset) {
        let m = StateView {
            measured: with(s.measured, s.session, s.ghost_offset),
            session: sess,
            ghost_offset: offset,
            timeline: match lookup(s.foreign_timelines, sess) {
                Some(tl) => adopted(tl),
                None => s.timeline,
            },
            held_stst: stopped(),
            session_member_seen: true,
            next_remeasure_at: Some((now + REMEASURE_PERIOD) as i64),
            ..s
        };
        lemma_broadcast_follows(m, now);
        lemma_follows(s, m, t, now);
    }
}

proof fn lemma_next_started_follows(s: StateView, now: i64)
    ensures
        follows(s, next_started(s, now), now),
{
}

proof fn lemma_queued_follows(
    s: StateView,
    gw: usize,
    sess: SessionId,
    ps: PeerState,
    purpose: Purpose,
    now: i64,
)
    ensures
        follows(s, measurement_queued(s, gw, sess, ps, purpose, now), now),
{
    let t = measurement_queued(s, gw, sess, ps, purpose, now);
    if t != s {
        let target = match first_target(s.peers, sess, true) {
            Some(t) => t,
            None => (ps.measurement_endpoint->0, gw),
        };
        let m = StateView {
            pending: s.pending.push(
                MeasureTask {
                    session: sess,
                    target: target.0,
                    gateway: target.1,
                    purpose,
                },
            ),
            ..s
        };
        lemma_next_started_follows(m, now);
        lemma_follows(s, m, t, now);
    }
}

proof fn lemma_outcome_follows(
    s: StateView,
    task: MeasureTask,
    offset: i64,
    now: i64,
)
    ensures
        follows(s, after_success(s, task, offset, now), now),
        follows(s, after_failure(s, task, now), now),
{
    let noted = StateView {
        measured: with(s.measured, task.session, offset),
        ..s
    };
    let period = REMEASURE_PERIOD;
    let good = match task.purpose {
        Purpose::Join => join_evaluated(noted, task.session, offset, now),
        Purpose::Remeasure => StateView {
            ghost_offset: if s.session == task.session {
                offset
            } else {
                s.ghost_offset
            },
            next_remeasure_at: Some((now + period) as i64),
            ..noted
        },
    };
    let bad = match task.purpose {
        Purpose::Join => s,
        Purpose::Remeasure => StateView { next_remeasure_at: Some((now + period) as i64), ..s },
    };
    lemma_join_follows(noted, task.session, offset, now);
    lemma_follows(s, noted, join_evaluated(noted, task.session, offset, now), now);
    lemma_next_started_follows(good, now);
    lemma_next_started_follows(bad, now);
    lemma_follows(s, good, next_started(good, now), now);
    lemma_follows(s, bad, next_started(bad, now), now);
}

proof fn lemma_measurement_follows(
    s: StateView,
    gw: usize,
    src: SocketAddr,
    buf: Seq<u8>,
    now: i64,
)
    ensures
        follows(s, measurement_received(s, gw, src, buf, now), now),
{
    if let Ok(sync::MessageView::Pong { session, ghost_time, echo }) =
        sync::decoded(buf) {
        if let Some(m) = s.measurement {
            let over = StateView { measurement: None, ..s };
            let samples = samples_after(m, ghost_time, echo, now);
            let offset = saturated(
                median_of(samples),
            );
            lemma_outcome_follows(over, m.task, offset, now);
            lemma_follows(s, over, after_success(over, m.task, offset, now), now);
            lemma_follows(s, over, after_failure(over, m.task, now), now);
        }
    }
}

proof fn lemma_reset_follows(s: StateView, now: i64, fresh: NodeId)
    ensures
        follows(s, loss_checked(s, now, fresh), now),
{
    let m = StateView {
        measured: with(s.measured, s.session, s.ghost_offset),
        node: fresh,
        session: fresh,
        ghost_offset: (-now) as i64,
        timeline: Timeline {
            tempo: s.timeline.tempo,
            beat_origin: beat_at(s, now),
            time_origin: 0,
        },
        held_stst: StartStopState {
            is_playing: s.held_stst.is_playing,
            beats: beat_at(s, now),
            timestamp: 0,
        },
        session_member_seen: false,
        next_remeasure_at: None,
        ..s
    };
    lemma_broadcast_follows(m, now);
    lemma_follows(s, m, session_reset(s, now, fresh), now);
}

proof fn lemma_heard_follows(
    s: StateView,
    tl: Option<Timeline>,
    stst: Option<StartStopState>,
    now: i64,
)
    ensures
        follows(s, timeline_heard(s, tl, now), now),
        follows(s, start_stop_heard(s, stst, now), now),
{
    if let Some(tl) = tl {
        let m = StateView { timeline: adopted(tl), ..s };
        lemma_broadcast_follows(m, now);
        lemma_follows(s, m, broadcast_scheduled(m, now), now);
    }
    if let Some(stst) = stst {
        let m = StateView {
            held_stst: stst,
            app_playing: if s.sst_sync && stst != stopped() {
                stst.is_playing
            } else {
                s.app_playing
            },
            ..s
        };
        lemma_broadcast_follows(m, now);
        lemma_follows(s, m, broadcast_scheduled(m, now), now);
    }
}

proof fn lemma_peer_state_follows(
    s: StateView,
    gw: usize,
    node: NodeId,
    ttl: u8,
    ps: PeerState,
    now: i64,
)
    ensures
        follows(s, peer_state_processed(s, gw, node, ttl, ps, now), now),
{
    let noted = peer_noted(s, gw, node, ttl, ps, now);
    let t = peer_state_processed(s, gw, node, ttl, ps, now);
    if let Some(sess) = ps.session {
        if sess == s.session {
            let member = StateView { session_member_seen: true, ..noted };
            let told = timeline_heard(member, ps.timeline, now);
            lemma_heard_follows(member, ps.timeline, None, now);
            lemma_heard_follows(told, None, ps.start_stop, now);
            lemma_follows(member, told, t, now);
            lemma_follows(s, member, t, now);
        } else {
            let cached = StateView {
                foreign_timelines: foreign_heard(s.foreign_timelines, sess, ps.timeline),
                ..noted
            };
            if let Some(offset) = lookup(s.measured, sess) {
                lemma_join_follows(cached, sess, offset, now);
            } else {
                lemma_queued_follows(cached, gw, sess, ps, Purpose::Join, now);
            }
            lemma_follows(s, cached, t, now);
        }
    }
}

proof fn lemma_discovery_follows(
    s: StateView,
    gw: usize,
    src: SocketAddr,
    buf: Seq<u8>,
    now: i64,
    fresh: NodeId,
)
    ensures
        follows(s, discovery_received(s, gw, src, buf, now, fresh), now),
        header_of(buf) matches Ok(h) ==> s.enabled && h.node != s.node && h.group_id == 0
            ==> follows(
            alive_answered(s, gw, src, h.msg_type),
            discovery_received(s, gw, src, buf, now, fresh),
            now,
        ),
{
    if let Ok(h) = header_of(buf) {
        let a = alive_answered(s, gw, src, h.msg_type);
        assert(follows(s, a, now));
        let t = discovery_received(s, gw, src, buf, now, fresh);
        if let Ok(frame) = discovery::decoded(buf) {
            match frame.message {
                discovery::Message::Alive(ps) => {
                    lemma_peer_state_follows(a, gw, frame.node, frame.ttl, ps, now);
                },
                discovery::Message::Response(ps) => {
                    lemma_peer_state_follows(a, gw, frame.node, frame.ttl, ps, now);
                },
                discovery::Message::ByeBye => {
                    let gone = peer_gone(
                        StateView {
                            peers: without(
                                a.peers,
                                Route { id: frame.node, gateway: gw },
                            ),
                            ..a
                        },
                        frame.node,
                    );
                    lemma_reset_follows(gone, now, fresh);
                    assert(follows(a, gone, now));
                    lemma_follows(a, gone, loss_checked(gone, now, fresh), now);
                },
            }
        }
        if s.enabled && h.node != s.node && h.group_id == 0 {
            lemma_follows(s, a, t, now);
        }
    }
}

proof fn lemma_sent_follows(
    s: StateView,
    to: (usize, SocketAddr),
    messages: Seq<Seq<u8>>,
    now: i64,
)
    ensures
        follows(s, sent_to(s, to, messages), now),
    decreases messages.len(),
{
    if messages.len() > 0 {
        let front = sent_to(s, to, messages.drop_last());
        lemma_sent_follows(s, to, messages.drop_last(), now);
        lemma_posted_follows(front, to.0, Outlet::Audio(to.1), messages.last(), now);
        lemma_follows(s, front, sent_to(s, to, messages), now);
    }
}

pub proof fn lemma_sent_all_follows(
    s: StateView,
    endpoints: Seq<(usize, SocketAddr)>,
    messages: Seq<Seq<u8>>,
    now: i64,
)
    ensures
        follows(s, sent_to_all(s, endpoints, messages), now),
    decreases endpoints.len(),
{
    if endpoints.len() > 0 {
        let front = sent_to_all(s, endpoints.drop_last(), messages);
        lemma_sent_all_follows(s, endpoints.drop_last(), messages, now);
        lemma_sent_follows(front, endpoints.last(), messages, now);
        lemma_follows(s, front, sent_to_all(s, endpoints, messages), now);
    }
}

pub proof fn lemma_requests_follow(s: StateView, a: AudioView, due: Seq<ChannelId>, now: i64)
    ensures
        follows(s, requests_sent(s, a, due), now),
    decreases due.len(),
{
    if due.len() > 0 {
        let front = requests_sent(s, a, due.drop_last());
        lemma_requests_follow(s, a, due.drop_last(), now);
        lemma_follows(s, front, requests_sent(s, a, due), now);
    }
}

pub proof fn lemma_audio_pass_follows(s: StateView, now: i64)
    ensures
        follows(s, audio_pass(s, now), now),
{
    if let Some(a) = s.audio {
        let told = announced(s, a, now);
        let messages = round_of(
            announcer(s, a),
            published(a.sinks),
            now,
        );
        lemma_sent_all_follows(s, endpoints_of(s.peers, s.session), messages, now);
        let asked = AudioView {
            last_announce_at: announce_time(a, now),
            sources: all_refreshed(a.sources, now),
            ..a
        };
        let due = due_requests(a.sources, now);
        lemma_requests_follow(told, asked, due, now);
        lemma_follows(s, told, requests_sent(told, asked, due), now);
    }
}

pub proof fn lemma_core_pass_follows(s: StateView, now: i64, fresh: NodeId)
    ensures
        follows(s, core_pass(s, now, fresh), now),
        follows(alive_kept(s, now), core_pass(s, now, fresh), now),
{
    let s1 = alive_kept(s, now);
    assert(follows(s, s1, now));
    let s2 = peers_pruned(s1, now, fresh);
    let gone = nodes_gone(
        StateView { peers: live_peers(s1.peers, now), ..s1 },
        expired_nodes(s1.peers, now),
    );
    lemma_nodes_gone(
        StateView { peers: live_peers(s1.peers, now), ..s1 },
        expired_nodes(s1.peers, now),
    );
    lemma_reset_follows(gone, now, fresh);
    assert(follows(s1, gone, now));
    lemma_follows(s1, gone, loss_checked(gone, now, fresh), now);
    assert(follows(s1, s2, now));
    let s3 = retry_kept(s2, now);
    if let Some(m) = s2.measurement {
        let over = StateView { measurement: None, ..s2 };
        lemma_outcome_follows(over, m.task, 0, now);
        lemma_follows(s2, over, after_failure(over, m.task, now), now);
    }
    assert(follows(s2, s3, now));
    let s4 = remeasure_kept(s3, now);
    assert(follows(s3, s4, now));
    let s5 = next_started(s4, now);
    lemma_next_started_follows(s4, now);
    lemma_follows(s1, s2, s3, now);
    lemma_follows(s1, s3, s4, now);
    lemma_follows(s1, s4, s5, now);
    lemma_follows(s, s1, s5, now);
}

/// No event takes back what is to be sent, or changes the order of it; no event
/// but enabling and disabling touches the gateways.
pub proof fn law_events_only_add_to_the_outbox(
    s: StateView,
    gw: usize,
    src: SocketAddr,
    buf: Seq<u8>,
    role: Role,
    now: i64,
    fresh: NodeId,
)
    ensures
        follows(s, dispatched(s, gw, src, buf, role, now, fresh), now),
        follows(s, passed(s, now, fresh), now),
{
    lemma_discovery_follows(s, gw, src, buf, now, fresh);
    lemma_measurement_follows(s, gw, src, buf, now);
    lemma_core_pass_follows(s, now, fresh);
    let core = core_pass(s, now, fresh);
    lemma_audio_pass_follows(core, now);
    if s.enabled {
        lemma_follows(s, core, audio_pass(core, now), now);
    }
    assert(follows(s, audio_received(s, gw, src, buf, now), now));
}

/// A peer that is not enabled takes no notice of datagrams and sends nothing.
pub proof fn law_disabled_peer_is_silent(
    s: StateView,
    gw: usize,
    src: SocketAddr,
    buf: Seq<u8>,
    role: Role,
    now: i64,
    fresh: NodeId,
)
    requires
        !s.enabled,
    ensures
        dispatched(s, gw, src, buf, role, now, fresh) == s,
        passed(s, now, fresh) == s,
{
}

/// An Alive is answered before anything else is sent, whether or not its
/// payload parses: with our state, to where it came from.
pub proof fn law_alive_is_answered_first(
    s: StateView,
    gw: usize,
    src: SocketAddr,
    buf: Seq<u8>,
    now: i64,
    fresh: NodeId,
)
    requires
        s.enabled,
        gw < s.gateways.len(),
        header_of(buf) is Ok,
        header_of(buf)->Ok_0.msg_type == TYPE_ALIVE,
        header_of(buf)->Ok_0.node != s.node,
        header_of(buf)->Ok_0.group_id == 0,
    ensures
        ({
            let t = discovery_received(s, gw, src, buf, now, fresh);
            &&& t.outbox.len() > s.outbox.len()
            &&& t.outbox[s.outbox.len() as int] == (DatagramView {
                gateway: gw,
                outlet: Outlet::Unicast(src),
                bytes: response_bytes(s, s.gateways[gw as int]),
            })
        }),
{
    lemma_discovery_follows(s, gw, src, buf, now, fresh);
    let a = alive_answered(s, gw, src, TYPE_ALIVE);
    assert(a.outbox[s.outbox.len() as int].gateway == gw);
}

/// Our own datagrams, and those of another group, are ignored.
pub proof fn law_foreign_gossip_is_ignored(
    s: StateView,
    gw: usize,
    src: SocketAddr,
    buf: Seq<u8>,
    now: i64,
    fresh: NodeId,
)
    requires
        header_of(buf) matches Ok(h) ==> h.node == s.node || h.group_id != 0,
    ensures
        discovery_received(s, gw, src, buf, now, fresh) == s,
{
}

// ------------------------------------------------------------------- timers

/// After a pass, the last Alive is less than a period old, and the next pass is
/// wanted within a period.
pub proof fn law_alive_is_periodic(s: StateView, now: i64, fresh: NodeId)
    requires
        is_clock(now),
        state_ok(s),
        s.enabled,
    ensures
        now < passed(s, now, fresh).last_alive_at + ALIVE_PERIOD,
        pass_deadline(s, now, fresh) <= now + ALIVE_PERIOD,
        pass_deadline(s, now, fresh) <= alive_deadline(s, now),
{
    let core = core_pass(s, now, fresh);
    lemma_core_pass_follows(s, now, fresh);
    lemma_audio_pass_follows(core, now);
}

/// State-change broadcasts keep their distance: an Alive goes out, by the timer
/// or for a change, only when the minimum spacing since the last one has
/// passed.
pub proof fn law_broadcasts_are_spaced(s: StateView, now: i64)
    requires
        state_ok(s),
    ensures
        broadcast_scheduled(s, now).outbox != s.outbox ==> now - s.last_broadcast_at
            >= MIN_BROADCAST_SPACING,
        alive_kept(s, now).outbox != s.outbox ==> now - s.last_broadcast_at
            >= MIN_BROADCAST_SPACING,
        alive_kept(s, now).outbox == s.outbox || alive_kept(s, now).outbox == s.outbox + alives(
            s,
            s.gateways.len(),
        ),
{
}

/// A change that could not be broadcast at once is broadcast by the first pass
/// after the minimum spacing, and a pass is wanted then.
pub proof fn law_delayed_change_is_broadcast(s: StateView, now: i64, later: i64)
    requires
        state_ok(s),
        s.enabled,
        is_clock(now),
        is_clock(later),
        now - s.last_broadcast_at < MIN_BROADCAST_SPACING,
        later - s.last_broadcast_at >= MIN_BROADCAST_SPACING,
    ensures
        ({
            let t = broadcast_scheduled(s, now);
            &&& t.outbox == s.outbox
            &&& alive_deadline(t, now) <= s.last_broadcast_at + MIN_BROADCAST_SPACING
            &&& alive_kept(t, later).outbox == s.outbox + alives(s, s.gateways.len())
        }),
{
    let t = broadcast_scheduled(s, now);
    let u = alive_sent(t, later);
    assert(alives(t, s.gateways.len()) =~= alives(s, s.gateways.len()));
}

/// An expired retry timer spends exactly one retry while there are any; the
/// first expiry after that fails the measurement.
pub proof fn law_retry_budget_is_spent(s: StateView, now: i64)
    requires
        is_clock(now),
        s.measurement is Some,
        now >= s.measurement->0.retry_deadline,
    ensures
        s.measurement->0.timeouts < MAX_MEASUREMENT_RETRIES ==> {
            let m = retry_kept(s, now).measurement;
            &&& m is Some
            &&& m->0.task == s.measurement->0.task
            &&& m->0.timeouts == s.measurement->0.timeouts + 1
            &&& m->0.retry_deadline == now + MEASUREMENT_RETRY
        },
        s.measurement->0.timeouts >= MAX_MEASUREMENT_RETRIES ==> retry_kept(s, now)
            == after_failure(StateView { measurement: None, ..s }, s.measurement->0.task, now),
{
}

pub proof fn lemma_earliest(peers: Seq<(Route, PeerEntry)>, i: int)
    requires
        0 <= i < peers.len(),
    ensures
        earliest_deadline(peers) is Some,
        earliest_deadline(peers)->0 <= peers[i].1.deadline,
    decreases peers.len(),
{
    if i < peers.len() - 1 {
        lemma_earliest(peers.drop_last(), i);
        assert(peers.drop_last()[i] == peers[i]);
    } else if peers.len() > 1 {
        lemma_earliest(peers.drop_last(), 0);
    }
}

/// No peer is pruned before its time is over, and none stays longer than the
/// padding after it.
pub proof fn law_peers_stay_for_their_ttl(s: StateView, now: i64, fresh: NodeId, i: int)
    requires
        state_ok(s),
    ensures
        0 <= i < s.peers.len() && s.peers[i].1.deadline > now ==> peers_pruned(
            s,
            now,
            fresh,
        ).peers.contains(s.peers[i]),
        0 <= i < peers_pruned(s, now, fresh).peers.len() ==> peers_pruned(
            s,
            now,
            fresh,
        ).peers[i].1.deadline + PRUNE_PADDING > now,
{
    let t = peers_pruned(s, now, fresh);
    let keep = |e: (Route, PeerEntry)| e.1.deadline > now;
    s.peers.filter_lemma(keep);
    let pruned = StateView { peers: live_peers(s.peers, now), ..s };
    lemma_nodes_gone(pruned, expired_nodes(s.peers, now));
    if 0 <= i < s.peers.len() {
        lemma_earliest(s.peers, i);
        assert(s.peers.contains(s.peers[i]));
    }
    if 0 <= i < t.peers.len() {
        if t.peers == s.peers {
            lemma_earliest(s.peers, i);
        }
    }
}

pub proof fn lemma_earliest_is_some(peers: Seq<(Route, PeerEntry)>)
    ensures
        earliest_deadline(peers) matches Some(e) ==> exists|i: int|
            0 <= i < peers.len() && (#[trigger] peers[i]).1.deadline == e,
    decreases peers.len(),
{
    if peers.len() > 0 {
        let front = peers.drop_last();
        lemma_earliest_is_some(front);
        assert(peers[peers.len() - 1] == peers.last());
        if let Some(e) = earliest_deadline(front) {
            let i = choose|i: int| 0 <= i < front.len() && (#[trigger] front[i]).1.deadline == e;
            assert(peers[i] == front[i]);
        }
    }
}

/// Forgetting nodes keeps the audio state in order.
pub proof fn lemma_nodes_gone_audio(s: StateView, nodes: Seq<NodeId>)
    requires
        s.audio matches Some(a) ==> audio_ok(a),
    ensures
        nodes_gone(s, nodes).audio matches Some(a) ==> audio_ok(a),
    decreases nodes.len(),
{
    if nodes.len() > 0 {
        let front = nodes_gone(s, nodes.drop_last());
        lemma_nodes_gone_audio(s, nodes.drop_last());
        if let Some(a) = front.audio {
            let node = nodes.last();
            let b = peer_forgotten(a, node);
            let stays = |e: (Route, KnownChannelView)| e.1.peer != node;
            let path_stays = |e: (Route, PathStatsView)| e.0.id != node;
            lemma_known_filter(a.known, stays);
            lemma_distinct_filter(a.paths, path_stays);
            a.paths.filter_lemma(path_stays);
            assert forall|i: int| 0 <= i < b.paths.len() implies (#[trigger] b.paths[i]).1.rtts.len()
                <= RTT_WINDOW by {
                assert(b.paths.contains(b.paths[i]));
                a.paths.lemma_filter_contains_rev(path_stays, b.paths[i]);
            }
        }
    }
}

/// After a pass the next one is wanted later, never at once: a peer does not
/// spin.
pub proof fn law_next_pass_is_later(s: StateView, now: i64, fresh: NodeId)
    requires
        is_clock(now),
        state_ok(s),
    ensures
        pass_deadline(s, now, fresh) > now,
{
    if s.enabled {
        let kept = alive_kept(s, now);
        let pruned = peers_pruned(kept, now, fresh);
        let live = StateView { peers: live_peers(kept.peers, now), ..kept };
        let nodes = expired_nodes(kept.peers, now);
        lemma_nodes_gone(live, nodes);
        lemma_nodes_gone_audio(live, nodes);
        lemma_earliest_is_some(pruned.peers);
        if let Some(e) = earliest_deadline(pruned.peers) {
            let i = choose|i: int|
                0 <= i < pruned.peers.len() && (#[trigger] pruned.peers[i]).1.deadline == e;
            law_peers_stay_for_their_ttl(kept, now, fresh, i);
            let keep = |p: (Route, PeerEntry)| p.1.deadline > now;
            assert(kept.peers.contains(pruned.peers[i])) by {
                if pruned.peers != kept.peers {
                    assert(pruned.peers.contains(pruned.peers[i]));
                    kept.peers.lemma_filter_contains_rev(keep, pruned.peers[i]);
                } else {
                    assert(kept.peers[i] == pruned.peers[i]);
                }
            }
            let j = choose|j: int| 0 <= j < kept.peers.len() && kept.peers[j] == pruned.peers[i];
            assert(is_deadline(kept.peers[j].1.deadline, MAX_TTL));
        }
        law_next_audio_pass_is_later(core_pass(s, now, fresh), now);
    }
}

// --------------------------------------------------------------- propagation

/// Within a session the beat origin never goes back and the tempo stays in
/// range; the timestamp of the transport state never goes back.
pub proof fn law_session_state_never_goes_back(
    s: StateView,
    gw: usize,
    node: NodeId,
    ttl: u8,
    ps: PeerState,
    now: i64,
)
    requires
        state_ok(s),
        ps.session == Some(s.session),
    ensures
        ({
            let t = peer_state_processed(s, gw, node, ttl, ps, now);
            &&& t.session == s.session
            &&& t.timeline.beat_origin >= s.timeline.beat_origin
            &&& is_tempo(t.timeline.tempo)
            &&& t.held_stst.timestamp >= s.held_stst.timestamp
            &&& t.timeline.beat_origin == s.timeline.beat_origin ==> t.timeline == s.timeline
            &&& t.held_stst.timestamp == s.held_stst.timestamp ==> t.held_stst == s.held_stst
        }),
{
}

/// Gossip converges: whichever of two timelines is heard first, the one with
/// the greater beat origin is held in the end, and likewise of two transport
/// states the later one.
pub proof fn law_gossip_converges(
    s: StateView,
    a: Timeline,
    b: Timeline,
    x: StartStopState,
    y: StartStopState,
    now: i64,
)
    ensures
        a.beat_origin != b.beat_origin ==> timeline_heard(
            timeline_heard(s, Some(a), now),
            Some(b),
            now,
        ).timeline == timeline_heard(timeline_heard(s, Some(b), now), Some(a), now).timeline,
        x.timestamp != y.timestamp ==> start_stop_heard(
            start_stop_heard(s, Some(x), now),
            Some(y),
            now,
        ).held_stst == start_stop_heard(start_stop_heard(s, Some(y), now), Some(x), now).held_stst,
{
}

/// What one peer holds another takes over from its gossip, if it is newer: then
/// both hold the same timeline, and likewise the same transport state.
pub proof fn law_newer_state_is_taken_over(
    s: StateView,
    theirs: StateView,
    from: int,
    gw: usize,
    ttl: u8,
    now: i64,
)
    requires
        state_ok(s),
        state_ok(theirs),
        theirs.session == s.session,
        0 <= from < theirs.gateways.len(),
    ensures
        ({
            let ps = state_payload(theirs, theirs.gateways[from]);
            let t = peer_state_processed(s, gw, theirs.node, ttl, ps, now);
            &&& theirs.timeline.beat_origin > s.timeline.beat_origin ==> t.timeline
                == theirs.timeline
            &&& theirs.held_stst.timestamp > s.held_stst.timestamp ==> t.held_stst
                == theirs.held_stst
            &&& t.session_member_seen
        }),
{
}

/// The same through the network: a peer that receives another's Alive takes
/// over what is newer, and notes the sender with the endpoints it advertises.
pub proof fn law_alive_carries_the_state(
    s: StateView,
    theirs: StateView,
    from: int,
    gw: usize,
    src: SocketAddr,
    now: i64,
    fresh: NodeId,
)
    requires
        state_ok(s),
        state_ok(theirs),
        s.enabled,
        theirs.node != s.node,
        theirs.session == s.session,
        0 <= from < theirs.gateways.len(),
        is_plain_endpoint(theirs.gateways[from].measurement),
        is_plain_endpoint(theirs.gateways[from].audio),
    ensures
        ({
            let buf = alive_bytes(theirs, theirs.gateways[from]);
            let t = discovery_received(s, gw, src, buf, now, fresh);
            &&& theirs.timeline.beat_origin > s.timeline.beat_origin ==> t.timeline
                == theirs.timeline
            &&& theirs.held_stst.timestamp > s.held_stst.timestamp ==> t.held_stst
                == theirs.held_stst
            &&& t.session_member_seen
            &&& lookup(t.peers, Route { id: theirs.node, gateway: gw }) == Some(
                PeerEntry {
                    state: state_payload(theirs, theirs.gateways[from]),
                    deadline: deadline_of(now, TTL_SECONDS),
                },
            )
        }),
{
    let out = theirs.gateways[from];
    let ps = state_payload(theirs, out);
    let frame = discovery::Frame {
        ttl: TTL_SECONDS,
        group_id: 0,
        node: theirs.node,
        message: discovery::Message::Alive(ps),
    };
    let buf = alive_bytes(theirs, out);
    discovery::law_frame_roundtrip(frame);
    discovery::law_header_is_independent_of_payload(buf);
    let route = Route { id: theirs.node, gateway: gw };
    let entry = PeerEntry { state: ps, deadline: deadline_of(now, TTL_SECONDS) };
    law_with(s.peers, route, entry, route);
}

} // verus!
