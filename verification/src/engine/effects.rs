//! Laws of the engine: what each event does to the session, the clock and the
//! peers, field by field.

use vstd::prelude::*;

use crate::audio::state::{KnownChannelView, PathStatsView};
use crate::audio::upkeep::{audio_pass, lemma_audio_pass, peer_gone};
use crate::engine::elect::{
    beat_at, has_member, is_member, join_evaluated, law_reset_keeps_the_beat, loss_checked,
    session_reset,
};
use crate::engine::gossip::{
    alive_answered, discovery_received, foreign_heard, peer_noted, peer_state_processed,
    start_stop_heard, timeline_heard,
};
use crate::engine::laws::{
    law_peers_stay_for_their_ttl, lemma_audio_pass_follows, lemma_core_pass_follows,
    lemma_earliest, lemma_earliest_is_some,
};
use crate::engine::measure::{
    after_failure, after_pong, after_success, at_most, first_target, measurement_queued,
    measurement_received, median_of, next_started, pong_samples, samples_after, saturated,
};
use crate::engine::send::{
    alive_bytes, alive_sent, broadcast_scheduled, response_bytes, state_payload,
};
use crate::engine::state::{
    is_clock, is_deadline, state_ok, Gateway, MeasureTask, Outlet, PeerEntry, Purpose, StateView,
};
use crate::engine::upkeep::{
    alive_kept, core_pass, earliest_deadline, expired_nodes, lemma_nodes_gone, live_peers,
    nodes_gone, pass_deadline, passed, peers_pruned, remeasure_kept, retry_kept,
};
use crate::link::app_beat;
use crate::math::{law_rounded_is_nearest, wrap64};
use crate::table::{law_with, law_without, lemma_place, lookup, with, without, Route};
use crate::wire::{discovery, sync};
use crate::wire::codec::Error;
use crate::wire::discovery::PeerState;
use crate::wire::types::{
    id_before, is_plain_endpoint, law_id_order_is_strict, law_id_order_is_total, stopped, NodeId,
    SessionId, SocketAddr, StartStopState, Timeline,
};

verus! {

// ------------------------------------------------------------------ joining

/// A peer leaves its session for another exactly if the ghost time of that one
/// is ahead by more than half a second, or within half a second and its
/// identifier is byte-wise less. What does not win changes nothing.
pub proof fn law_join_goes_by_ghost_time_then_identifier(
    s: StateView,
    sess: SessionId,
    offset: i64,
    now: i64,
)
    ensures
        ({
            let t = join_evaluated(s, sess, offset, now);
            let ahead = offset - s.ghost_offset;
            &&& sess != s.session && ahead > 500_000 ==> t.session == sess
            &&& sess != s.session && -500_000 < ahead < 500_000 && id_before(sess, s.session)
                ==> t.session == sess
            &&& ahead <= -500_000 || ahead == 500_000 || sess == s.session || (ahead < 500_000
                && !id_before(sess, s.session)) ==> t == s
        }),
{
}

/// A peer that joins a session whose timeline it has heard holds that timeline,
/// whatever timeline it held before, with a tempo of 20 to 999 bpm; if it has
/// heard none it keeps its own.
pub proof fn law_joining_takes_over_the_timeline(
    s: StateView,
    sess: SessionId,
    offset: i64,
    now: i64,
)
    requires
        join_evaluated(s, sess, offset, now).session != s.session,
    ensures
        ({
            let t = join_evaluated(s, sess, offset, now);
            match lookup(s.foreign_timelines, sess) {
                Some(tl) => {
                    &&& t.timeline.beat_origin == tl.beat_origin
                    &&& t.timeline.time_origin == tl.time_origin
                    &&& 60_060 <= t.timeline.tempo <= 3_000_000
                    &&& 60_060 <= tl.tempo <= 3_000_000 ==> t.timeline.tempo == tl.tempo
                    &&& tl.tempo < 60_060 ==> t.timeline.tempo == 60_060
                    &&& tl.tempo > 3_000_000 ==> t.timeline.tempo == 3_000_000
                },
                None => t.timeline == s.timeline,
            }
        }),
{
}

/// A peer that joins a session takes over its ghost time, starts with a stopped
/// transport state, counts as one with other members, measures the session
/// again in half a minute, keeps the ghost time of the session it left, and tells
/// the others. Nothing else of it changes but what is sent.
#[verifier::rlimit(40)]
pub proof fn law_joining_takes_over_the_ghost_time(
    s: StateView,
    sess: SessionId,
    offset: i64,
    now: i64,
)
    requires
        is_clock(now),
        state_ok(s),
        join_evaluated(s, sess, offset, now).session != s.session,
    ensures
        ({
            let t = join_evaluated(s, sess, offset, now);
            &&& t.session == sess
            &&& t.ghost_offset == offset
            &&& !t.held_stst.is_playing && t.held_stst.beats == 0 && t.held_stst.timestamp == 0
            &&& t.session_member_seen
            &&& t.next_remeasure_at == Some((now + 30_000_000) as i64)
            &&& lookup(t.measured, s.session) == Some(s.ghost_offset)
            &&& forall|other: SessionId|
                other != s.session ==> #[trigger] lookup(t.measured, other) == lookup(
                    s.measured,
                    other,
                )
            &&& t.node == s.node
            &&& t.enabled == s.enabled
            &&& t.app_playing == s.app_playing
            &&& t.sst_sync == s.sst_sync
            &&& t.peers == s.peers
            &&& t.foreign_timelines == s.foreign_timelines
            &&& t.measurement == s.measurement
            &&& t.pending == s.pending
            &&& t.audio == s.audio
            &&& t.gateways == s.gateways
            &&& s.enabled ==> passes_on(s, t)
        }),
{
    let t = join_evaluated(s, sess, offset, now);
    let m = StateView {
        measured: t.measured,
        session: t.session,
        ghost_offset: t.ghost_offset,
        timeline: t.timeline,
        held_stst: t.held_stst,
        session_member_seen: t.session_member_seen,
        next_remeasure_at: t.next_remeasure_at,
        ..s
    };
    if s.enabled {
        lemma_broadcast_passes_on(m, now);
    }
    assert forall|other: SessionId| other != s.session implies #[trigger] lookup(t.measured, other)
        == lookup(s.measured, other) by {
        law_with(s.measured, s.session, s.ghost_offset, other);
    }
    law_with(s.measured, s.session, s.ghost_offset, s.session);
}

/// Whether two states differ at most in what is sent, and when.
pub open spec fn same_but_sent(s: StateView, t: StateView) -> bool {
    t == (StateView {
        last_alive_at: t.last_alive_at,
        last_broadcast_at: t.last_broadcast_at,
        broadcast_due: t.broadcast_due,
        outbox: t.outbox,
        ..s
    })
}

// -------------------------------------------------------------- measurement

/// After a successful re-measurement of the session that the peer is in, its
/// ghost offset is the measured one, so that it agrees with the other peers
/// again. One of any other session leaves the peer's clock as it was. Either
/// way the session and the timeline stay, and the next re-measurement is due in
/// half a minute.
pub proof fn law_remeasurement_corrects_the_clock(
    s: StateView,
    task: MeasureTask,
    offset: i64,
    now: i64,
)
    requires
        is_clock(now),
        state_ok(s),
        task.purpose is Remeasure,
    ensures
        ({
            let t = after_success(s, task, offset, now);
            &&& s.session == task.session ==> t.ghost_offset == offset
            &&& s.session != task.session ==> t.ghost_offset == s.ghost_offset
            &&& t.session == s.session
            &&& t.timeline == s.timeline
            &&& t.held_stst == s.held_stst
            &&& t.node == s.node
            &&& t.next_remeasure_at == Some((now + 30_000_000) as i64)
            &&& lookup(t.measured, task.session) == Some(offset)
            &&& forall|other: SessionId|
                other != task.session ==> #[trigger] lookup(t.measured, other) == lookup(
                    s.measured,
                    other,
                )
        }),
{
    let t = after_success(s, task, offset, now);
    law_with(s.measured, task.session, offset, task.session);
    assert forall|other: SessionId| other != task.session implies #[trigger] lookup(
        t.measured,
        other,
    ) == lookup(s.measured, other) by {
        law_with(s.measured, task.session, offset, other);
    }
}

/// A pong that completes a re-measurement of the peer's own session sets its
/// ghost offset to the median of the samples.
pub proof fn law_completed_remeasurement_sets_the_median(
    s: StateView,
    gw: usize,
    src: SocketAddr,
    ghost_time: i64,
    echo: Seq<u8>,
    now: i64,
)
    requires
        s.measurement is Some,
        s.measurement->0.task.purpose is Remeasure,
        s.measurement->0.task.session == s.session,
        s.measurement->0.task.gateway == gw,
        s.measurement->0.task.target == src,
        samples_after(s.measurement->0, ghost_time, echo, now).len() > 100,
    ensures
        ({
            let t = after_pong(s, gw, src, s.session, ghost_time, echo, now);
            let median = median_of(samples_after(s.measurement->0, ghost_time, echo, now));
            &&& i64::MIN <= median <= i64::MAX ==> t.ghost_offset == median
            &&& median > i64::MAX ==> t.ghost_offset == i64::MAX
            &&& median < i64::MIN ==> t.ghost_offset == i64::MIN
            &&& t.session == s.session
        }),
{
}

/// A measurement made for the join rule ends in a join exactly if the rule says
/// so of the measured offset; the offset is kept either way.
pub proof fn law_measured_session_is_joined_by_the_rule(
    s: StateView,
    task: MeasureTask,
    offset: i64,
    now: i64,
)
    requires
        is_clock(now),
        state_ok(s),
        task.purpose is Join,
    ensures
        ({
            let t = after_success(s, task, offset, now);
            let ahead = offset - s.ghost_offset;
            let wins = task.session != s.session && (ahead > 500_000 || (-500_000 < ahead < 500_000
                && id_before(task.session, s.session)));
            &&& wins ==> t.session == task.session && t.ghost_offset == offset
            &&& wins ==> (lookup(s.foreign_timelines, task.session) matches Some(tl) ==> {
                &&& t.timeline.beat_origin == tl.beat_origin
                &&& t.timeline.time_origin == tl.time_origin
            })
            &&& !wins ==> t.session == s.session && t.ghost_offset == s.ghost_offset && t.timeline
                == s.timeline && t.held_stst == s.held_stst
            &&& task.session != s.session ==> lookup(t.measured, task.session) == Some(offset)
        }),
{
    let noted = with(s.measured, task.session, offset);
    law_with(s.measured, task.session, offset, task.session);
    law_with(noted, s.session, s.ghost_offset, task.session);
}

/// Two peers that have measured each other's sessions and heard each other's
/// timelines settle on one session and share its beat from then on: at any
/// moment, on either clock, both are at the same application beat, whatever the
/// quantum. It fails only if the ghost times differ by exactly half a second.
pub proof fn law_two_peers_settle_on_one_beat(
    a: StateView,
    b: StateView,
    b_seen_by_a: i64,
    a_seen_by_b: i64,
    clock: int,
    now_a: i64,
    now_b: i64,
    at_a: i64,
    at_b: i64,
    quantum: i64,
)
    requires
        state_ok(a),
        state_ok(b),
        a.session != b.session,
        b_seen_by_a == b.ghost_offset + clock,
        a_seen_by_b == a.ghost_offset - clock,
        b_seen_by_a - a.ghost_offset != 500_000,
        a.ghost_offset - b_seen_by_a != 500_000,
        lookup(a.foreign_timelines, b.session) == Some(b.timeline),
        lookup(b.foreign_timelines, a.session) == Some(a.timeline),
        at_b == at_a + clock,
    ensures
        ({
            let a2 = join_evaluated(a, b.session, b_seen_by_a, now_a);
            let b2 = join_evaluated(b, a.session, a_seen_by_b, now_b);
            &&& a2.session == b2.session
            &&& a2.timeline == b2.timeline
            &&& beat_at(a2, at_a) == beat_at(b2, at_b)
            &&& app_beat(a2, at_a, quantum) == app_beat(b2, at_b, quantum)
        }),
{
    law_id_order_is_strict(a.session, b.session);
    law_id_order_is_total(a.session, b.session);
}

// ------------------------------------------------------------------ sending

/// Whether a peer state tells what a peer holds, with its endpoints on one
/// gateway; the audio endpoint only while audio is enabled.
pub open spec fn tells(ps: PeerState, s: StateView, gw: Gateway) -> bool {
    &&& ps.timeline == Some(s.timeline)
    &&& ps.session == Some(s.session)
    &&& ps.start_stop == Some(s.held_stst)
    &&& ps.measurement_endpoint == Some(gw.measurement)
    &&& s.audio is Some ==> ps.audio_endpoint == Some(gw.audio)
    &&& s.audio is None ==> ps.audio_endpoint is None
}

/// Whether what a peer sends of itself on a gateway reads back.
pub open spec fn is_plain_gateway(gw: Gateway) -> bool {
    is_plain_endpoint(gw.measurement) && is_plain_endpoint(gw.audio)
}

/// A change is told at once on every gateway, by multicast, to be kept for five
/// seconds, if the last telling is 50 ms ago; else it is put off until then.
/// What is told is what the peer holds. A disabled peer tells nothing.
pub proof fn law_changes_are_told_on_every_gateway(s: StateView, now: i64, i: int)
    requires
        s.gateways.len() <= usize::MAX,
    ensures
        ({
            let t = broadcast_scheduled(s, now);
            let n = s.outbox.len();
            &&& same_but_sent(s, t)
            &&& !s.enabled ==> t == s
            &&& s.enabled && now - s.last_broadcast_at >= 50_000 ==> {
                &&& t.outbox.len() == n + s.gateways.len()
                &&& t.outbox.take(n as int) == s.outbox
                &&& t.last_broadcast_at == now
                &&& t.last_alive_at == now
                &&& t.broadcast_due is None
                &&& 0 <= i < s.gateways.len() ==> {
                    let d = t.outbox[n + i];
                    &&& d.gateway == i
                    &&& d.outlet is Multicast
                    &&& is_plain_gateway(s.gateways[i]) ==> match discovery::decoded(d.bytes) {
                        Ok(f) => {
                            &&& f.node == s.node
                            &&& f.ttl == 5
                            &&& f.group_id == 0
                            &&& f.message matches discovery::Message::Alive(ps) && tells(
                                ps,
                                s,
                                s.gateways[i],
                            )
                        },
                        Err(_) => false,
                    }
                }
            }
            &&& s.enabled && now - s.last_broadcast_at < 50_000 ==> {
                &&& t.outbox == s.outbox
                &&& t.last_alive_at == s.last_alive_at
                &&& t.last_broadcast_at == s.last_broadcast_at
                &&& t.broadcast_due == Some((s.last_broadcast_at + 50_000) as i64)
            }
        }),
{
    let t = broadcast_scheduled(s, now);
    assert(alive_sent(s, now).outbox.take(s.outbox.len() as int) =~= s.outbox);
    if 0 <= i < s.gateways.len() && is_plain_gateway(s.gateways[i]) {
        lemma_alive_reads_back(s, s.gateways[i]);
    }
}

pub proof fn lemma_alive_reads_back(s: StateView, gw: Gateway)
    requires
        is_plain_gateway(gw),
    ensures
        discovery::decoded(alive_bytes(s, gw)) matches Ok(f) && f.node == s.node && f.ttl == 5
            && f.group_id == 0 && (f.message matches discovery::Message::Alive(ps) && tells(
            ps,
            s,
            gw,
        )),
        discovery::decoded(response_bytes(s, gw)) matches Ok(f) && f.node == s.node && f.ttl == 5
            && f.group_id == 0 && (f.message matches discovery::Message::Response(ps) && tells(
            ps,
            s,
            gw,
        )),
{
    let ps = state_payload(s, gw);
    let alive = discovery::Frame {
        ttl: 5,
        group_id: 0,
        node: s.node,
        message: discovery::Message::Alive(ps),
    };
    let response = discovery::Frame {
        ttl: 5,
        group_id: 0,
        node: s.node,
        message: discovery::Message::Response(ps),
    };
    discovery::law_frame_roundtrip(alive);
    discovery::law_frame_roundtrip(response);
}

/// Whether a peer tells what it holds after a change: when it may, or at once,
/// last of all that it sends, by multicast on every gateway.
pub open spec fn passes_on(s: StateView, t: StateView) -> bool {
    t.broadcast_due is Some || {
        let n = t.outbox.len() - s.gateways.len();
        &&& t.gateways == s.gateways
        &&& s.outbox.len() <= n
        &&& t.last_broadcast_at == t.last_alive_at
        &&& s.gateways.len() <= usize::MAX ==> forall|i: int|
            0 <= i < s.gateways.len() ==> tells_at(t, n, #[trigger] s.gateways[i], i)
    }
}

/// Whether the datagram at a place, counted from `n`, tells by multicast on its
/// gateway what the peer holds.
pub open spec fn tells_at(t: StateView, n: int, gw: Gateway, i: int) -> bool {
    let d = t.outbox[n + i];
    &&& d.gateway == i
    &&& d.outlet is Multicast
    &&& is_plain_gateway(gw) ==> match discovery::decoded(d.bytes) {
        Ok(f) => {
            &&& f.node == t.node
            &&& f.ttl == 5
            &&& f.group_id == 0
            &&& f.message matches discovery::Message::Alive(ps) && tells(ps, t, gw)
        },
        Err(_) => false,
    }
}

pub proof fn lemma_broadcast_passes_on(s: StateView, now: i64)
    requires
        s.enabled,
    ensures
        passes_on(s, broadcast_scheduled(s, now)),
{
    let t = broadcast_scheduled(s, now);
    if now - s.last_broadcast_at >= 50_000 && s.gateways.len() <= usize::MAX {
        let n = t.outbox.len() - s.gateways.len();
        assert forall|i: int| 0 <= i < s.gateways.len() implies tells_at(
            t,
            n,
            #[trigger] s.gateways[i],
            i,
        ) by {
            law_changes_are_told_on_every_gateway(s, now, i);
            if is_plain_gateway(s.gateways[i]) {
                lemma_alive_reads_back(s, s.gateways[i]);
            }
        }
    }
}

/// What a peer answers to another's Alive reads back as a Response that tells
/// what it holds.
pub proof fn law_responses_tell_the_state(s: StateView, gw: Gateway)
    requires
        is_plain_gateway(gw),
    ensures
        match discovery::decoded(response_bytes(s, gw)) {
            Ok(f) => {
                &&& f.node == s.node
                &&& f.ttl == 5
                &&& f.group_id == 0
                &&& f.message matches discovery::Message::Response(ps) && tells(ps, s, gw)
            },
            Err(_) => false,
        },
{
    lemma_alive_reads_back(s, gw);
}

// ------------------------------------------------------------------- gossip

/// A peer that gossips is known through the gateway it was heard on, with the
/// state it told, until its ttl is over; what is known of others stays.
pub proof fn law_gossiping_peer_is_known(
    s: StateView,
    gw: usize,
    node: NodeId,
    ttl: u8,
    ps: PeerState,
    now: i64,
    other: Route,
)
    requires
        is_clock(now),
        state_ok(s),
    ensures
        ({
            let t = peer_state_processed(s, gw, node, ttl, ps, now);
            &&& lookup(t.peers, Route { id: node, gateway: gw }) == Some(
                PeerEntry { state: ps, deadline: (now + ttl * 1_000_000) as i64 },
            )
            &&& other != (Route { id: node, gateway: gw }) ==> lookup(t.peers, other) == lookup(
                s.peers,
                other,
            )
            &&& ps.session is None ==> t == (StateView { peers: t.peers, ..s })
            &&& t.audio == s.audio
            &&& t.node == s.node
            &&& t.sst_sync == s.sst_sync
            &&& t.enabled == s.enabled
            &&& t.gateways == s.gateways
        }),
{
    let entry = PeerEntry { state: ps, deadline: (now + ttl * 1_000_000) as i64 };
    let route = Route { id: node, gateway: gw };
    law_with(s.peers, route, entry, route);
    law_with(s.peers, route, entry, other);
}

/// Of the timeline of its own session a peer takes over one with a greater beat
/// origin, with a tempo of 20 to 999 bpm, and passes it on; any other leaves
/// its timeline as it is. Neither session nor ghost time change.
#[verifier::rlimit(40)]
pub proof fn law_timeline_of_the_session_is_followed(
    s: StateView,
    gw: usize,
    node: NodeId,
    ttl: u8,
    ps: PeerState,
    now: i64,
)
    requires
        is_clock(now),
        state_ok(s),
        ps.session == Some(s.session),
    ensures
        ({
            let t = peer_state_processed(s, gw, node, ttl, ps, now);
            &&& t.session == s.session
            &&& t.ghost_offset == s.ghost_offset
            &&& t.session_member_seen
            &&& t.measured == s.measured
            &&& t.foreign_timelines == s.foreign_timelines
            &&& t.measurement == s.measurement
            &&& t.pending == s.pending
            &&& t.next_remeasure_at == s.next_remeasure_at
            &&& match ps.timeline {
                Some(tl) => if tl.beat_origin > s.timeline.beat_origin {
                    &&& t.timeline.beat_origin == tl.beat_origin
                    &&& t.timeline.time_origin == tl.time_origin
                    &&& 60_060 <= tl.tempo <= 3_000_000 ==> t.timeline.tempo == tl.tempo
                    &&& tl.tempo < 60_060 ==> t.timeline.tempo == 60_060
                    &&& tl.tempo > 3_000_000 ==> t.timeline.tempo == 3_000_000
                    &&& s.enabled ==> passes_on(s, t)
                } else {
                    t.timeline == s.timeline
                },
                None => t.timeline == s.timeline,
            }
        }),
{
    if s.enabled && ps.timeline is Some && ps.timeline->0.beat_origin > s.timeline.beat_origin {
        lemma_session_gossip_passes_on(s, gw, node, ttl, ps, now);
    }
}

#[verifier::rlimit(40)]
proof fn lemma_session_gossip_passes_on(
    s: StateView,
    gw: usize,
    node: NodeId,
    ttl: u8,
    ps: PeerState,
    now: i64,
)
    requires
        ps.session == Some(s.session),
        s.enabled,
        (ps.timeline matches Some(tl) && tl.beat_origin > s.timeline.beat_origin) || (
        ps.start_stop matches Some(stst) && stst.timestamp > s.held_stst.timestamp),
    ensures
        passes_on(s, peer_state_processed(s, gw, node, ttl, ps, now)),
{
    let noted = peer_noted(s, gw, node, ttl, ps, now);
    let member = StateView { session_member_seen: true, ..noted };
    let told = timeline_heard(member, ps.timeline, now);
    let t = start_stop_heard(told, ps.start_stop, now);
    if told.timeline != member.timeline || told.outbox != member.outbox {
        let m = StateView { timeline: told.timeline, ..member };
        lemma_broadcast_passes_on(m, now);
    }
    if let Some(tl) = ps.timeline {
        if tl.beat_origin > s.timeline.beat_origin {
            let m = StateView { timeline: told.timeline, ..member };
            lemma_broadcast_passes_on(m, now);
        }
    }
    if let Some(stst) = ps.start_stop {
        if stst.timestamp > s.held_stst.timestamp {
            let m = StateView { held_stst: t.held_stst, app_playing: t.app_playing, ..told };
            lemma_broadcast_passes_on(m, now);
        }
    }
}

/// Of the transport state of its own session a peer takes over one with a later
/// timestamp, and passes it on; any other leaves what it holds. The application
/// follows exactly if it is in sync and the state is not the one of a session
/// that was never started.
#[verifier::rlimit(40)]
pub proof fn law_transport_of_the_session_is_followed(
    s: StateView,
    gw: usize,
    node: NodeId,
    ttl: u8,
    ps: PeerState,
    now: i64,
)
    requires
        is_clock(now),
        state_ok(s),
        ps.session == Some(s.session),
    ensures
        ({
            let t = peer_state_processed(s, gw, node, ttl, ps, now);
            match ps.start_stop {
                Some(stst) => if stst.timestamp > s.held_stst.timestamp {
                    &&& t.held_stst == stst
                    &&& s.enabled ==> passes_on(s, t)
                    &&& s.sst_sync && !(!stst.is_playing && stst.beats == 0 && stst.timestamp == 0)
                        ==> t.app_playing == stst.is_playing
                    &&& !s.sst_sync || (!stst.is_playing && stst.beats == 0 && stst.timestamp == 0)
                        ==> t.app_playing == s.app_playing
                } else {
                    t.held_stst == s.held_stst && t.app_playing == s.app_playing
                },
                None => t.held_stst == s.held_stst && t.app_playing == s.app_playing,
            }
        }),
{
    let never = StartStopState { is_playing: false, beats: 0, timestamp: 0 };
    assert(stopped() == never);
    if s.enabled && ps.start_stop is Some && ps.start_stop->0.timestamp > s.held_stst.timestamp {
        lemma_session_gossip_passes_on(s, gw, node, ttl, ps, now);
    }
}

/// Of another session a peer keeps the timeline with the greatest beat origin
/// that it heard, as it was told; of no third one does it change what it has.
/// Its own transport state stays unless it joins, and so does its timeline.
#[verifier::rlimit(40)]
pub proof fn law_timeline_of_another_session_is_kept(
    s: StateView,
    gw: usize,
    node: NodeId,
    ttl: u8,
    ps: PeerState,
    now: i64,
    third: SessionId,
)
    requires
        is_clock(now),
        state_ok(s),
        ps.session is Some,
        ps.session != Some(s.session),
    ensures
        ({
            let sess = ps.session->0;
            let t = peer_state_processed(s, gw, node, ttl, ps, now);
            let before = lookup(s.foreign_timelines, sess);
            &&& lookup(t.foreign_timelines, sess) == match ps.timeline {
                Some(tl) => if before is None || tl.beat_origin > before->0.beat_origin {
                    Some(tl)
                } else {
                    before
                },
                None => before,
            }
            &&& third != sess ==> lookup(t.foreign_timelines, third) == lookup(
                s.foreign_timelines,
                third,
            )
            &&& t.session == s.session || t.session == sess
            &&& t.session == s.session ==> t.timeline == s.timeline && t.held_stst == s.held_stst
                && t.ghost_offset == s.ghost_offset && t.session_member_seen
                == s.session_member_seen
            &&& t.app_playing == s.app_playing
        }),
{
    let sess = ps.session->0;
    if let Some(tl) = ps.timeline {
        law_with(s.foreign_timelines, sess, tl, sess);
        law_with(s.foreign_timelines, sess, tl, third);
    }
}

/// A session that was measured before is joined, by the rule and the offset
/// that is known of it, as soon as a member of it is heard; the peer then holds
/// the best timeline that it heard of the session.
#[verifier::rlimit(40)]
pub proof fn law_measured_session_is_joined_when_heard(
    s: StateView,
    gw: usize,
    node: NodeId,
    ttl: u8,
    ps: PeerState,
    now: i64,
)
    requires
        is_clock(now),
        state_ok(s),
        ps.session is Some,
        ps.session != Some(s.session),
        lookup(s.measured, ps.session->0) is Some,
    ensures
        ({
            let sess = ps.session->0;
            let offset = lookup(s.measured, sess)->0;
            let ahead = offset - s.ghost_offset;
            let t = peer_state_processed(s, gw, node, ttl, ps, now);
            let wins = ahead > 500_000 || (-500_000 < ahead < 500_000 && id_before(
                sess,
                s.session,
            ));
            &&& wins ==> t.session == sess && t.ghost_offset == offset
            &&& wins ==> (lookup(t.foreign_timelines, sess) matches Some(tl)
                ==> t.timeline.beat_origin == tl.beat_origin && t.timeline.time_origin
                == tl.time_origin && (60_060 <= tl.tempo <= 3_000_000 ==> t.timeline.tempo
                == tl.tempo))
            &&& !wins ==> t.session == s.session && t.ghost_offset == s.ghost_offset
            &&& t.measurement == s.measurement
            &&& t.pending == s.pending
        }),
{
}

// ------------------------------------------------------------ conversations

proof fn lemma_first_target(peers: Seq<(Route, PeerEntry)>, sess: SessionId, founder: bool)
    ensures
        match first_target(peers, sess, founder) {
            Some((target, gateway)) => exists|i: int|
                0 <= i < peers.len() && (#[trigger] peers[i]).0.gateway == gateway
                    && peers[i].1.state.measurement_endpoint == Some(target) && (if founder {
                    peers[i].0.id == sess
                } else {
                    peers[i].1.state.session == Some(sess)
                }),
            None => forall|i: int|
                0 <= i < peers.len() && (#[trigger] peers[i]).1.state.measurement_endpoint is Some
                    ==> !(if founder {
                    peers[i].0.id == sess
                } else {
                    peers[i].1.state.session == Some(sess)
                }),
        },
    decreases peers.len(),
{
    if peers.len() > 0 {
        let rest = peers.skip(1);
        lemma_first_target(rest, sess, founder);
        match first_target(peers, sess, founder) {
            Some((target, gateway)) => {
                if first_target(rest, sess, founder) == Some((target, gateway)) {
                    let i = choose|i: int|
                        0 <= i < rest.len() && (#[trigger] rest[i]).0.gateway == gateway
                            && rest[i].1.state.measurement_endpoint == Some(target) && (
                        if founder {
                            rest[i].0.id == sess
                        } else {
                            rest[i].1.state.session == Some(sess)
                        });
                    assert(peers[i + 1] == rest[i]);
                    assert(peers[i + 1].0.gateway == gateway);
                } else {
                    assert(peers[0].0.gateway == gateway);
                }
            },
            None => {
                assert forall|i: int|
                    0 <= i < peers.len() && (
                    #[trigger] peers[i]).1.state.measurement_endpoint is Some implies !(
                if founder {
                    peers[i].0.id == sess
                } else {
                    peers[i].1.state.session == Some(sess)
                }) by {
                    if i > 0 {
                        assert(peers[i] == rest[i - 1]);
                    }
                }
            },
        }
    }
}

/// Whether a measurement is under way or to come.
pub open spec fn is_planned(s: StateView, task: MeasureTask) -> bool {
    (s.measurement matches Some(m) && m.task == task) || s.pending.contains(task)
}

/// Whether a session is being measured, or to be.
pub open spec fn is_in_hand(s: StateView, sess: SessionId) -> bool {
    (s.measurement matches Some(m) && m.task.session == sess) || exists|i: int|
        0 <= i < s.pending.len() && (#[trigger] s.pending[i]).session == sess
}

/// A session that was never measured is measured, for the join rule, as soon as
/// a member of it is heard: at its founder's endpoint if the founder is known,
/// else at that of the member. It is not measured twice at a time.
#[verifier::rlimit(40)]
pub proof fn law_unknown_session_is_measured(
    s: StateView,
    gw: usize,
    node: NodeId,
    ttl: u8,
    ps: PeerState,
    now: i64,
)
    requires
        is_clock(now),
        state_ok(s),
        ps.session is Some,
        ps.session != Some(s.session),
        lookup(s.measured, ps.session->0) is None,
        gw < s.gateways.len(),
        forall|i: int|
            0 <= i < s.peers.len() ==> (#[trigger] s.peers[i]).0.gateway < s.gateways.len(),
    ensures
        ({
            let sess = ps.session->0;
            let t = peer_state_processed(s, gw, node, ttl, ps, now);
            let founder_known = exists|i: int|
                0 <= i < t.peers.len() && (#[trigger] t.peers[i]).0.id == sess
                    && t.peers[i].1.state.measurement_endpoint is Some;
            &&& t.session == s.session
            &&& is_in_hand(s, sess) ==> t.measurement == s.measurement && t.pending == s.pending
                && t.outbox == s.outbox
            &&& !is_in_hand(s, sess) && founder_known ==> exists|i: int|
                0 <= i < t.peers.len() && (#[trigger] t.peers[i]).0.id == sess
                    && t.peers[i].1.state.measurement_endpoint is Some && is_planned(
                    t,
                    MeasureTask {
                        session: sess,
                        target: t.peers[i].1.state.measurement_endpoint->0,
                        gateway: t.peers[i].0.gateway,
                        purpose: Purpose::Join,
                    },
                )
            &&& !is_in_hand(s, sess) && !founder_known ==> (ps.measurement_endpoint matches Some(ep)
                ==> is_planned(
                t,
                MeasureTask { session: sess, target: ep, gateway: gw, purpose: Purpose::Join },
            ))
        }),
{
    let sess = ps.session->0;
    let t = peer_state_processed(s, gw, node, ttl, ps, now);
    let route = Route { id: node, gateway: gw };
    let entry = PeerEntry { state: ps, deadline: (now + ttl * 1_000_000) as i64 };
    let peers = with(s.peers, route, entry);
    lemma_place(s.peers, route);
    assert forall|i: int| 0 <= i < peers.len() implies (#[trigger] peers[i]).0.gateway
        < s.gateways.len() by {
        if i < s.peers.len() {
            assert(s.peers[i].0.gateway < s.gateways.len());
        }
    }
    lemma_first_target(peers, sess, true);
    assert(t.peers == peers);
    if !is_in_hand(s, sess) {
        let target = match first_target(peers, sess, true) {
            Some(x) => Some(x),
            None => match ps.measurement_endpoint {
                Some(ep) => Some((ep, gw)),
                None => None,
            },
        };
        if let Some((ep, gateway)) = target {
            let task = MeasureTask { session: sess, target: ep, gateway, purpose: Purpose::Join };
            let q = s.pending.push(task);
            assert(q[s.pending.len() as int] == task);
            if s.measurement is None && s.pending.len() > 0 {
                assert(q.skip(1)[s.pending.len() - 1] == task);
            }
            assert(is_planned(t, task));
        }
    }
}

/// The next measurement to come is started when none is under way: a ping with
/// our time goes to its target, to be repeated in 50 ms. One whose gateway is
/// closed is dropped. While one is under way nothing happens.
pub proof fn law_next_measurement_pings_its_target(s: StateView, now: i64)
    requires
        is_clock(now),
    ensures
        ({
            let t = next_started(s, now);
            &&& s.measurement is Some || s.pending.len() == 0 ==> t == s
            &&& s.measurement is None && s.pending.len() > 0 ==> {
                let task = s.pending[0];
                &&& t.pending == s.pending.skip(1)
                &&& task.gateway < s.gateways.len() ==> {
                    &&& t.measurement is Some
                    &&& t.measurement->0.task == task
                    &&& t.measurement->0.samples.len() == 0
                    &&& t.measurement->0.timeouts == 0
                    &&& t.measurement->0.retry_deadline == now + 50_000
                    &&& t.outbox.len() == s.outbox.len() + 1
                    &&& t.outbox.drop_last() == s.outbox
                    &&& is_ping(t, task, now, None)
                }
                &&& task.gateway >= s.gateways.len() ==> t.measurement is None && t.outbox
                    == s.outbox
            }
        }),
{
    sync::law_ping_roundtrip(now, None);
    let t = next_started(s, now);
    if t.outbox.len() > s.outbox.len() {
        assert(t.outbox.drop_last() =~= s.outbox);
    }
}

/// Whether the last datagram to be sent is a ping to the target of a
/// measurement, with our time and that of the pong before it.
pub open spec fn is_ping(t: StateView, task: MeasureTask, now: i64, pgt: Option<i64>) -> bool {
    let d = t.outbox.last();
    &&& d.gateway == task.gateway
    &&& d.outlet == Outlet::Measurement(task.target)
    &&& sync::decoded(d.bytes) matches Ok(sync::MessageView::Ping {
        host_time,
        prev_ghost_time,
        ..
    }) && host_time == Some(now) && prev_ghost_time == pgt
}

/// A pong adds its samples, and while there are not more than a hundred the
/// next ping goes out, with our time and the pong's ghost time; one that names
/// another session ends the measurement without a result.
#[verifier::rlimit(40)]
pub proof fn law_pongs_are_answered_until_there_are_enough(
    s: StateView,
    gw: usize,
    src: SocketAddr,
    session: SessionId,
    ghost_time: i64,
    ht: i64,
    pgt: Option<i64>,
    now: i64,
)
    requires
        is_clock(now),
        state_ok(s),
        s.measurement is Some,
        s.measurement->0.task.gateway == gw,
        s.measurement->0.task.target == src,
        gw < s.gateways.len(),
    ensures
        ({
            let m = s.measurement->0;
            let t = after_pong(s, gw, src, session, ghost_time, sync::ping_payload(ht, pgt), now);
            let samples = m.samples + pong_samples(ghost_time, Some(ht), pgt, now);
            &&& session == m.task.session && samples.len() <= 100 ==> {
                &&& t.measurement is Some
                &&& t.measurement->0.task == m.task
                &&& t.measurement->0.samples == samples
                &&& t.measurement->0.retry_deadline == now + 50_000
                &&& t.outbox.len() == s.outbox.len() + 1
                &&& is_ping(t, m.task, now, Some(ghost_time))
                &&& t.ghost_offset == s.ghost_offset
                &&& t.session == s.session
                &&& t.pending == s.pending
                &&& t.measured == s.measured
            }
            &&& session != m.task.session ==> {
                &&& t.ghost_offset == s.ghost_offset
                &&& t.session == s.session
                &&& t.measured == s.measured
                &&& t.timeline == s.timeline
                &&& s.pending.len() == 0 ==> t.measurement is None
            }
        }),
{
    sync::law_ping_roundtrip(now, Some(ghost_time));
    sync::law_echo_of_ping_payload(ht, pgt);
}

/// A pong completes a measurement with its hundred-and-first sample; the offset
/// is the median of all. The session measured is then known by that offset.
pub proof fn law_enough_samples_give_the_offset(
    s: StateView,
    gw: usize,
    src: SocketAddr,
    ghost_time: i64,
    echo: Seq<u8>,
    now: i64,
)
    requires
        is_clock(now),
        state_ok(s),
        s.measurement is Some,
        s.measurement->0.task.gateway == gw,
        s.measurement->0.task.target == src,
        s.measurement->0.task.session != s.session,
        samples_after(s.measurement->0, ghost_time, echo, now).len() > 100,
    ensures
        ({
            let m = s.measurement->0;
            let t = after_pong(s, gw, src, m.task.session, ghost_time, echo, now);
            let median = median_of(samples_after(m, ghost_time, echo, now));
            &&& i64::MIN <= median <= i64::MAX ==> lookup(t.measured, m.task.session) == Some(
                median as i64,
            )
            &&& s.pending.len() == 0 ==> t.measurement is None
        }),
{
    let m = s.measurement->0;
    let median = median_of(samples_after(m, ghost_time, echo, now));
    let offset = saturated(median);
    let noted = with(s.measured, m.task.session, offset);
    law_with(s.measured, m.task.session, offset, m.task.session);
    law_with(noted, s.session, s.ghost_offset, m.task.session);
}

/// A sample is twice the offset between the clocks, and off only by the
/// difference of the delays there and back: the ping left at `ht` and took
/// `there`, the pong took `back`, the pong before it took `back_before`.
pub proof fn law_samples_are_off_by_the_asymmetry(
    ht: i64,
    pgt: i64,
    gt: i64,
    now: i64,
    there: int,
    back: int,
    back_before: int,
    offset: int,
)
    requires
        gt == ht + there + offset,
        now == ht + there + back,
        pgt == ht - back_before + offset,
    ensures
        gt != 0 && ht != 0 && pgt != 0 ==> pong_samples(gt, Some(ht), Some(pgt), now) == seq![
            (2 * offset + there - back) as i128,
            (2 * offset + there - back_before) as i128,
        ],
        gt != 0 && ht != 0 ==> pong_samples(gt, Some(ht), None, now) == seq![
            (2 * offset + there - back) as i128,
        ],
        gt != 0 && ht != 0 && pgt == 0 ==> pong_samples(gt, Some(ht), Some(pgt), now) == seq![
            (2 * offset + there - back) as i128,
        ],
        gt == 0 || ht == 0 ==> pong_samples(gt, Some(ht), Some(pgt), now).len() == 0,
        pong_samples(gt, None, Some(pgt), now).len() == 0,
{
    if gt != 0 && ht != 0 && pgt != 0 {
        assert(pong_samples(gt, Some(ht), Some(pgt), now) =~= seq![
            (2 * offset + there - back) as i128,
            (2 * offset + there - back_before) as i128,
        ]);
    }
}

/// The median depends on which samples there are, not on their order; of
/// samples in ascending order it is the middle one, or halfway between the
/// middle two, to the nearest microsecond.
pub proof fn law_median_is_the_middle(a: Seq<i128>, b: Seq<i128>)
    requires
        a.to_multiset() == b.to_multiset(),
        a.len() > 0,
        forall|i: int, j: int| 0 <= i <= j < b.len() ==> b[i] <= b[j],
    ensures
        ({
            let n = b.len() as int;
            &&& n == a.len()
            &&& n % 2 == 1 ==> -1 <= 2 * median_of(a) - b[n / 2] <= 1
            &&& n % 2 == 0 ==> -2 <= 4 * median_of(a) - (b[n / 2 - 1] + b[n / 2]) <= 2
        }),
{
    let leq = at_most();
    vstd::seq_lib::to_multiset_len(a);
    vstd::seq_lib::to_multiset_len(b);
    a.lemma_sort_by_ensures(leq);
    vstd::seq_lib::lemma_sorted_unique(a.sort_by(leq), b, leq);
    let n = b.len() as int;
    if n % 2 == 1 {
        law_rounded_is_nearest(b[n / 2] as int, 2);
    } else {
        law_rounded_is_nearest(b[n / 2 - 1] + b[n / 2], 4);
    }
}

/// A ping is answered with our session, our ghost time and its own payload,
/// verbatim, if that is at most 32 bytes; a longer one is ignored. Nothing of
/// the peer changes.
pub proof fn law_any_ping_is_echoed(
    s: StateView,
    gw: usize,
    src: SocketAddr,
    buf: Seq<u8>,
    now: i64,
)
    requires
        s.enabled,
        gw < s.gateways.len(),
        sync::decoded(buf) is Ok,
        sync::decoded(buf)->Ok_0 is Ping,
    ensures
        ({
            let payload = sync::decoded(buf)->Ok_0->Ping_payload;
            let t = measurement_received(s, gw, src, buf, now);
            &&& payload.len() > 32 ==> t == s
            &&& payload.len() <= 32 ==> {
                let d = t.outbox.last();
                &&& t == (StateView { outbox: s.outbox.push(d), ..s })
                &&& d.gateway == gw
                &&& d.outlet == Outlet::Measurement(src)
                &&& sync::decoded(d.bytes) == Ok::<_, Error>(
                    sync::MessageView::Pong {
                        session: s.session,
                        ghost_time: wrap64(now + s.ghost_offset),
                        echo: payload,
                    },
                )
            }
        }),
{
    let payload = sync::decoded(buf)->Ok_0->Ping_payload;
    sync::law_pong_roundtrip(s.session, wrap64(now + s.ghost_offset), payload);
}

/// A measurement that fails leaves what is known as it was; of the peer's own
/// session it is tried again in half a minute.
pub proof fn law_failed_measurement_changes_no_clock(s: StateView, task: MeasureTask, now: i64)
    requires
        is_clock(now),
    ensures
        ({
            let t = after_failure(s, task, now);
            &&& t.ghost_offset == s.ghost_offset
            &&& t.session == s.session
            &&& t.timeline == s.timeline
            &&& t.measured == s.measured
            &&& task.purpose is Remeasure ==> t.next_remeasure_at == Some(
                (now + 30_000_000) as i64,
            )
            &&& task.purpose is Join ==> t.next_remeasure_at == s.next_remeasure_at
        }),
{
}

// ---------------------------------------------------------------- departure

/// Founding a session takes a new identifier for peer and session alike, starts
/// its ghost time at 0, and goes on with beat, tempo and transport; the session
/// left is kept with its ghost time. No member of the new one is known yet.
pub proof fn law_founding_starts_a_session_of_our_own(s: StateView, now: i64, fresh: NodeId)
    requires
        is_clock(now),
        state_ok(s),
    ensures
        ({
            let t = session_reset(s, now, fresh);
            &&& t.node == fresh
            &&& t.session == fresh
            &&& now + t.ghost_offset == 0
            &&& t.timeline.time_origin == 0
            &&& t.timeline.beat_origin == beat_at(s, now)
            &&& t.timeline.tempo == s.timeline.tempo
            &&& t.held_stst.is_playing == s.held_stst.is_playing
            &&& t.held_stst.beats == beat_at(s, now)
            &&& t.held_stst.timestamp == 0
            &&& !t.session_member_seen
            &&& t.next_remeasure_at is None
            &&& lookup(t.measured, s.session) == Some(s.ghost_offset)
            &&& t.peers == s.peers
            &&& t.foreign_timelines == s.foreign_timelines
            &&& t.measurement == s.measurement
            &&& t.pending == s.pending
            &&& t.audio == s.audio
            &&& t.app_playing == s.app_playing
            &&& s.enabled ==> passes_on(s, t)
        }),
{
    let t = session_reset(s, now, fresh);
    let m = StateView {
        measured: t.measured,
        node: t.node,
        session: t.session,
        ghost_offset: t.ghost_offset,
        timeline: t.timeline,
        held_stst: t.held_stst,
        session_member_seen: t.session_member_seen,
        next_remeasure_at: t.next_remeasure_at,
        ..s
    };
    if s.enabled {
        lemma_broadcast_passes_on(m, now);
    }
    law_with(s.measured, s.session, s.ghost_offset, s.session);
}

/// A fresh session is founded exactly if a member of ours has been seen and
/// none is left.
pub proof fn law_session_is_left_with_its_last_member(s: StateView, now: i64, fresh: NodeId)
    ensures
        ({
            let t = loss_checked(s, now, fresh);
            let alone = forall|i: int|
                0 <= i < s.peers.len() ==> (#[trigger] s.peers[i]).1.state.session != Some(
                    s.session,
                );
            &&& s.session_member_seen && alone ==> t == session_reset(s, now, fresh)
            &&& !s.session_member_seen || !alone ==> t == s
        }),
{
    if !(s.session_member_seen && !has_member(s.peers, s.session)) && s.session_member_seen {
        let i = choose|i: int| 0 <= i < s.peers.len() && is_member(#[trigger] s.peers[i], s.session);
        assert(s.peers[i].1.state.session == Some(s.session));
    } else {
        assert forall|i: int| 0 <= i < s.peers.len() && !has_member(
            s.peers,
            s.session,
        ) implies (#[trigger] s.peers[i]).1.state.session != Some(s.session) by {
            assert(!is_member(s.peers[i], s.session));
        }
    }
}

/// A peer that says goodbye is not known any more through the gateway it said so
/// on, and its channels and paths are forgotten; other peers stay, and so does
/// the session while another member of it is known. Without one a fresh session
/// goes on with the beat.
#[verifier::rlimit(40)]
pub proof fn law_goodbye_is_heard(
    s: StateView,
    gw: usize,
    src: SocketAddr,
    buf: Seq<u8>,
    now: i64,
    fresh: NodeId,
    other: Route,
)
    requires
        is_clock(now),
        state_ok(s),
        s.enabled,
        discovery::decoded(buf) is Ok,
        discovery::decoded(buf)->Ok_0.message is ByeBye,
        discovery::decoded(buf)->Ok_0.node != s.node,
        discovery::decoded(buf)->Ok_0.group_id == 0,
    ensures
        ({
            let node = discovery::decoded(buf)->Ok_0.node;
            let route = Route { id: node, gateway: gw };
            let t = discovery_received(s, gw, src, buf, now, fresh);
            let member_left = exists|i: int|
                0 <= i < t.peers.len() && (#[trigger] t.peers[i]).1.state.session == Some(
                    s.session,
                );
            &&& lookup(t.peers, route) is None
            &&& other != route ==> lookup(t.peers, other) == lookup(s.peers, other)
            &&& t.audio is Some == s.audio is Some
            &&& t.audio matches Some(a) ==> {
                &&& forall|i: int| 0 <= i < a.known.len() ==> (#[trigger] a.known[i]).1.peer != node
                &&& forall|i: int| 0 <= i < a.paths.len() ==> (#[trigger] a.paths[i]).0.id != node
                &&& forall|i: int|
                    0 <= i < s.audio->0.known.len() && (
                    #[trigger] s.audio->0.known[i]).1.peer != node ==> a.known.contains(
                        s.audio->0.known[i],
                    )
                &&& a.sinks == s.audio->0.sinks
                &&& a.sources == s.audio->0.sources
            }
            &&& member_left || !s.session_member_seen ==> t.session == s.session && t.node == s.node
                && t.timeline == s.timeline && t.ghost_offset == s.ghost_offset
            &&& !member_left && s.session_member_seen ==> t.session == fresh && t.node == fresh
                && beat_at(t, now) == beat_at(s, now) && t.timeline.tempo == s.timeline.tempo
        }),
{
    let f = discovery::decoded(buf)->Ok_0;
    let node = f.node;
    let route = Route { id: node, gateway: gw };
    discovery::law_header_is_independent_of_payload(buf);
    law_without(s.peers, route, route);
    law_without(s.peers, route, other);
    let rest = StateView { peers: without(s.peers, route), ..s };
    let gone = peer_gone(rest, node);
    law_session_is_left_with_its_last_member(gone, now, fresh);
    let t = discovery_received(s, gw, src, buf, now, fresh);
    assert(t == loss_checked(gone, now, fresh));
    law_reset_keeps_the_beat(gone, now, fresh);
    if let Some(a) = s.audio {
        let b = gone.audio->0;
        let stays = |e: (Route, KnownChannelView)| e.1.peer != node;
        let path_stays = |e: (Route, PathStatsView)| e.0.id != node;
        a.known.filter_lemma(stays);
        a.paths.filter_lemma(path_stays);
        assert(b.known == a.known.filter(stays));
        assert(b.paths == a.paths.filter(path_stays));
        assert forall|i: int| 0 <= i < b.known.len() implies (#[trigger] b.known[i]).1.peer
            != node by {
            assert(stays(b.known[i]));
        }
        assert forall|i: int| 0 <= i < b.paths.len() implies (#[trigger] b.paths[i]).0.id
            != node by {
            assert(path_stays(b.paths[i]));
        }
        assert forall|i: int| 0 <= i < a.known.len() && (#[trigger] a.known[i]).1.peer
            != node implies b.known.contains(a.known[i]) by {
            assert(stays(a.known[i]));
        }
    }
}

/// Whether two states differ in the outbox alone, which of the second holds one
/// datagram more.
spec fn one_more(s: StateView, t: StateView) -> bool {
    t == (StateView { outbox: t.outbox, ..s }) && t.outbox.len() == s.outbox.len() + 1
}

proof fn lemma_broadcast_one_more(s: StateView, t: StateView, now: i64)
    requires
        one_more(s, t),
    ensures
        one_more(broadcast_scheduled(s, now), broadcast_scheduled(t, now)),
{
}

proof fn lemma_join_one_more(s: StateView, t: StateView, sess: SessionId, offset: i64, now: i64)
    requires
        one_more(s, t),
    ensures
        one_more(join_evaluated(s, sess, offset, now), join_evaluated(t, sess, offset, now)),
{
    let j = join_evaluated(s, sess, offset, now);
    let m = StateView {
        measured: j.measured,
        session: j.session,
        ghost_offset: j.ghost_offset,
        timeline: j.timeline,
        held_stst: j.held_stst,
        session_member_seen: j.session_member_seen,
        next_remeasure_at: j.next_remeasure_at,
        ..s
    };
    lemma_broadcast_one_more(m, StateView { outbox: t.outbox, ..m }, now);
}

proof fn lemma_heard_one_more(
    s: StateView,
    t: StateView,
    tl: Option<Timeline>,
    stst: Option<StartStopState>,
    now: i64,
)
    requires
        one_more(s, t),
    ensures
        one_more(timeline_heard(s, tl, now), timeline_heard(t, tl, now)),
        one_more(start_stop_heard(s, stst, now), start_stop_heard(t, stst, now)),
{
    let a = timeline_heard(s, tl, now);
    let b = start_stop_heard(s, stst, now);
    let m = StateView { timeline: a.timeline, ..s };
    let n = StateView { held_stst: b.held_stst, app_playing: b.app_playing, ..s };
    lemma_broadcast_one_more(m, StateView { outbox: t.outbox, ..m }, now);
    lemma_broadcast_one_more(n, StateView { outbox: t.outbox, ..n }, now);
}

proof fn lemma_queued_one_more(
    s: StateView,
    t: StateView,
    gw: usize,
    sess: SessionId,
    ps: PeerState,
    now: i64,
)
    requires
        one_more(s, t),
    ensures
        one_more(
            measurement_queued(s, gw, sess, ps, Purpose::Join, now),
            measurement_queued(t, gw, sess, ps, Purpose::Join, now),
        ),
{
}

#[verifier::rlimit(40)]
proof fn lemma_processing_whatever_is_sent(
    s: StateView,
    t: StateView,
    gw: usize,
    node: NodeId,
    ttl: u8,
    ps: PeerState,
    now: i64,
)
    requires
        one_more(s, t),
    ensures
        one_more(
            peer_state_processed(s, gw, node, ttl, ps, now),
            peer_state_processed(t, gw, node, ttl, ps, now),
        ),
{
    let a = peer_noted(s, gw, node, ttl, ps, now);
    let b = peer_noted(t, gw, node, ttl, ps, now);
    if let Some(sess) = ps.session {
        if sess == s.session {
            let m = StateView { session_member_seen: true, ..a };
            let n = StateView { session_member_seen: true, ..b };
            lemma_heard_one_more(m, n, ps.timeline, None, now);
            lemma_heard_one_more(
                timeline_heard(m, ps.timeline, now),
                timeline_heard(n, ps.timeline, now),
                None,
                ps.start_stop,
                now,
            );
        } else {
            let timelines = foreign_heard(s.foreign_timelines, sess, ps.timeline);
            let m = StateView { foreign_timelines: timelines, ..a };
            let n = StateView { foreign_timelines: timelines, ..b };
            if let Some(offset) = lookup(s.measured, sess) {
                lemma_join_one_more(m, n, sess, offset, now);
            } else {
                lemma_queued_one_more(m, n, gw, sess, ps, now);
            }
        }
    }
}

/// What a peer tells in an Alive or a Response is processed alike; besides, an
/// Alive is answered with one datagram, and a Response with none.
#[verifier::rlimit(40)]
pub proof fn law_gossip_is_processed(
    s: StateView,
    gw: usize,
    src: SocketAddr,
    buf: Seq<u8>,
    now: i64,
    fresh: NodeId,
)
    requires
        s.enabled,
        discovery::decoded(buf) is Ok,
        !(discovery::decoded(buf)->Ok_0.message is ByeBye),
        discovery::decoded(buf)->Ok_0.node != s.node,
        discovery::decoded(buf)->Ok_0.group_id == 0,
    ensures
        ({
            let f = discovery::decoded(buf)->Ok_0;
            let ps = match f.message {
                discovery::Message::Alive(ps) => ps,
                discovery::Message::Response(ps) => ps,
                discovery::Message::ByeBye => arbitrary(),
            };
            let t = discovery_received(s, gw, src, buf, now, fresh);
            let u = peer_state_processed(s, gw, f.node, f.ttl, ps, now);
            &&& t == (StateView { outbox: t.outbox, ..u })
            &&& f.message is Response ==> t == u
            &&& f.message is Alive && gw < s.gateways.len() ==> t.outbox.len() == u.outbox.len() + 1
            &&& f.message is Alive && gw >= s.gateways.len() ==> t == u
        }),
{
    discovery::law_header_is_independent_of_payload(buf);
    let f = discovery::decoded(buf)->Ok_0;
    let ps = match f.message {
        discovery::Message::Alive(ps) => ps,
        discovery::Message::Response(ps) => ps,
        discovery::Message::ByeBye => arbitrary(),
    };
    let a = alive_answered(s, gw, src, discovery::type_of(f.message));
    if f.message is Alive && gw < s.gateways.len() {
        lemma_processing_whatever_is_sent(s, a, gw, f.node, f.ttl, ps, now);
    }
}

/// A datagram whose payload does not parse changes nothing; if it is an Alive of
/// another peer of our group it is answered all the same.
pub proof fn law_broken_gossip_changes_nothing(
    s: StateView,
    gw: usize,
    src: SocketAddr,
    buf: Seq<u8>,
    now: i64,
    fresh: NodeId,
)
    requires
        discovery::decoded(buf) is Err,
    ensures
        ({
            let t = discovery_received(s, gw, src, buf, now, fresh);
            &&& t == (StateView { outbox: t.outbox, ..s })
            &&& t.outbox.len() <= s.outbox.len() + 1
            &&& !(discovery::header_of(buf) matches Ok(h) && h.msg_type == 1 && h.node != s.node
                && h.group_id == 0) ==> t == s
        }),
{
}

// ------------------------------------------------------------------- passes

/// What pruning leaves alone.
proof fn lemma_pruning_keeps(s: StateView, now: i64, fresh: NodeId)
    requires
        is_clock(now),
        state_ok(s),
    ensures
        ({
            let t = peers_pruned(s, now, fresh);
            &&& t.measurement == s.measurement
            &&& t.pending == s.pending
            &&& t.gateways == s.gateways
            &&& t.enabled == s.enabled
            &&& t.foreign_timelines == s.foreign_timelines
            &&& t.peers == s.peers || t.peers == live_peers(s.peers, now)
            &&& s.outbox.is_prefix_of(t.outbox)
            &&& t.next_remeasure_at == s.next_remeasure_at || t.next_remeasure_at is None
            &&& t.session == s.session ==> t.timeline == s.timeline && t.ghost_offset
                == s.ghost_offset || t.session == fresh
        }),
{
    let live = StateView { peers: live_peers(s.peers, now), ..s };
    lemma_nodes_gone(live, expired_nodes(s.peers, now));
}

/// The peers after a pass.
#[verifier::rlimit(40)]
proof fn lemma_peers_after_pass(s: StateView, now: i64, fresh: NodeId)
    requires
        is_clock(now),
        state_ok(s),
        s.enabled,
    ensures
        ({
            let kept = alive_kept(s, now);
            let t = passed(s, now, fresh);
            &&& kept.peers == s.peers
            &&& kept.session == s.session
            &&& t.peers == peers_pruned(kept, now, fresh).peers
            &&& t.session == peers_pruned(kept, now, fresh).session
            &&& t.node == peers_pruned(kept, now, fresh).node
            &&& t.timeline == peers_pruned(kept, now, fresh).timeline
            &&& t.ghost_offset == peers_pruned(kept, now, fresh).ghost_offset
            &&& t.held_stst == peers_pruned(kept, now, fresh).held_stst
            &&& t.measured == peers_pruned(kept, now, fresh).measured
            &&& t.measurement == core_pass(s, now, fresh).measurement
            &&& t.pending == core_pass(s, now, fresh).pending
            &&& t.next_remeasure_at == core_pass(s, now, fresh).next_remeasure_at
        }),
{
    let core = core_pass(s, now, fresh);
    if let Some(a) = core.audio {
        lemma_audio_pass_is_audio(core, now);
    }
}

proof fn lemma_audio_pass_is_audio(s: StateView, now: i64)
    ensures
        audio_pass(s, now) == (StateView {
            audio: audio_pass(s, now).audio,
            outbox: audio_pass(s, now).outbox,
            ..s
        }),
{
    if let Some(a) = s.audio {
        lemma_audio_pass(s, now);
    }
}

/// A pass drops the peers whose time was over a second ago, and with them all
/// whose time is over; it keeps those whose time is not over, and makes up none.
#[verifier::rlimit(40)]
pub proof fn law_pass_drops_silent_peers(s: StateView, now: i64, fresh: NodeId, i: int)
    requires
        is_clock(now),
        state_ok(s),
        s.enabled,
    ensures
        ({
            let t = passed(s, now, fresh);
            &&& 0 <= i < s.peers.len() && s.peers[i].1.deadline > now ==> t.peers.contains(
                s.peers[i],
            )
            &&& 0 <= i < t.peers.len() ==> t.peers[i].1.deadline + 1_000_000 > now
            &&& 0 <= i < t.peers.len() ==> s.peers.contains(t.peers[i])
            &&& 0 <= i < t.peers.len() && (exists|j: int|
                0 <= j < s.peers.len() && (#[trigger] s.peers[j]).1.deadline + 1_000_000 <= now)
                ==> t.peers[i].1.deadline > now
            &&& (forall|j: int|
                0 <= j < s.peers.len() ==> (#[trigger] s.peers[j]).1.deadline + 1_000_000 > now)
                ==> t.peers == s.peers
        }),
{
    let kept = alive_kept(s, now);
    let t = passed(s, now, fresh);
    lemma_when_peers_are_pruned(kept, now, fresh, i);
    lemma_peers_after_pass(s, now, fresh);
    law_peers_stay_for_their_ttl(kept, now, fresh, i);
    lemma_pruning_keeps(kept, now, fresh);
    if 0 <= i < t.peers.len() {
        let keep = |e: (Route, PeerEntry)| e.1.deadline > now;
        if t.peers == s.peers {
            assert(s.peers.contains(s.peers[i]));
        } else {
            assert(t.peers.contains(t.peers[i]));
            s.peers.lemma_filter_contains_rev(keep, t.peers[i]);
        }
    }
}

proof fn lemma_when_peers_are_pruned(s: StateView, now: i64, fresh: NodeId, i: int)
    ensures
        ({
            let t = peers_pruned(s, now, fresh);
            &&& 0 <= i < t.peers.len() && (exists|j: int|
                0 <= j < s.peers.len() && (#[trigger] s.peers[j]).1.deadline + 1_000_000 <= now)
                ==> t.peers[i].1.deadline > now
            &&& (forall|j: int|
                0 <= j < s.peers.len() ==> (#[trigger] s.peers[j]).1.deadline + 1_000_000 > now)
                ==> t == s
        }),
{
    let t = peers_pruned(s, now, fresh);
    let live = StateView { peers: live_peers(s.peers, now), ..s };
    let keep = |e: (Route, PeerEntry)| e.1.deadline > now;
    lemma_nodes_gone(live, expired_nodes(s.peers, now));
    s.peers.filter_lemma(keep);
    lemma_earliest_is_some(s.peers);
    if exists|j: int|
        0 <= j < s.peers.len() && (#[trigger] s.peers[j]).1.deadline + 1_000_000 <= now {
        let j = choose|j: int|
            0 <= j < s.peers.len() && (#[trigger] s.peers[j]).1.deadline + 1_000_000 <= now;
        lemma_earliest(s.peers, j);
        assert(t.peers == s.peers.filter(keep));
        if 0 <= i < t.peers.len() {
            assert(keep(t.peers[i]));
        }
    }
}

/// A pass does nothing while nothing is due: no Alive, no change put off, no
/// retry, no re-measurement, no measurement to come, and no peer's end; without
/// audio that is all there is.
#[verifier::rlimit(40)]
pub proof fn law_pass_is_quiet_while_nothing_is_due(s: StateView, now: i64, fresh: NodeId)
    requires
        s.enabled,
        now < s.last_alive_at + 250_000,
        s.broadcast_due matches Some(due) ==> now < due,
        s.measurement matches Some(m) ==> now < m.retry_deadline,
        s.measurement is None ==> s.pending.len() == 0,
        s.next_remeasure_at matches Some(at) ==> now < at,
        forall|j: int|
            0 <= j < s.peers.len() ==> (#[trigger] s.peers[j]).1.deadline + 1_000_000 > now,
    ensures
        core_pass(s, now, fresh) == s,
        s.audio is None ==> passed(s, now, fresh) == s,
{
    lemma_when_peers_are_pruned(s, now, fresh, 0);
}

/// A pass keeps the session while a member of it is known whose time is not
/// over, and as long as it drops no peer. It founds a fresh one, which goes on
/// with the beat, when it drops peers, a member has been seen, and the time of
/// every member is over.
#[verifier::rlimit(40)]
pub proof fn law_pass_leaves_a_lost_session(s: StateView, now: i64, fresh: NodeId)
    requires
        is_clock(now),
        state_ok(s),
        s.enabled,
    ensures
        ({
            let t = passed(s, now, fresh);
            let member_left = exists|i: int|
                0 <= i < s.peers.len() && (#[trigger] s.peers[i]).1.state.session == Some(s.session)
                    && s.peers[i].1.deadline > now;
            let drops = exists|i: int|
                0 <= i < s.peers.len() && (#[trigger] s.peers[i]).1.deadline + 1_000_000 <= now;
            &&& member_left || !s.session_member_seen || !drops ==> t.session == s.session
                && t.node == s.node && t.timeline == s.timeline && t.ghost_offset == s.ghost_offset
                && t.held_stst == s.held_stst
            &&& s.session_member_seen && drops && !member_left ==> t.session == fresh && t.node
                == fresh && beat_at(t, now) == beat_at(s, now) && t.timeline.tempo
                == s.timeline.tempo
        }),
{
    let t = passed(s, now, fresh);
    let kept = alive_kept(s, now);
    lemma_peers_after_pass(s, now, fresh);
    lemma_when_peers_are_pruned(kept, now, fresh, 0);
    let live = StateView { peers: live_peers(kept.peers, now), ..kept };
    let gone = nodes_gone(live, expired_nodes(kept.peers, now));
    lemma_nodes_gone(live, expired_nodes(kept.peers, now));
    law_session_is_left_with_its_last_member(gone, now, fresh);
    let keep = |e: (Route, PeerEntry)| e.1.deadline > now;
    s.peers.filter_lemma(keep);
    assert(gone.peers == s.peers.filter(keep));
    if exists|i: int|
        0 <= i < s.peers.len() && (#[trigger] s.peers[i]).1.state.session == Some(s.session)
            && s.peers[i].1.deadline > now {
        let i = choose|i: int|
            0 <= i < s.peers.len() && (#[trigger] s.peers[i]).1.state.session == Some(s.session)
                && s.peers[i].1.deadline > now;
        assert(keep(s.peers[i]));
        assert(s.peers.filter(keep).contains(s.peers[i]));
        let j = choose|j: int| 0 <= j < gone.peers.len() && gone.peers[j] == s.peers[i];
        assert(gone.peers[j].1.state.session == Some(s.session));
    } else if exists|i: int|
        0 <= i < s.peers.len() && (#[trigger] s.peers[i]).1.deadline + 1_000_000 <= now {
        let i = choose|i: int|
            0 <= i < s.peers.len() && (#[trigger] s.peers[i]).1.deadline + 1_000_000 <= now;
        lemma_earliest(s.peers, i);
        assert forall|j: int| 0 <= j < gone.peers.len() implies (
        #[trigger] gone.peers[j]).1.state.session != Some(s.session) by {
            assert(gone.peers.contains(gone.peers[j]));
            s.peers.lemma_filter_contains_rev(keep, gone.peers[j]);
            assert(keep(gone.peers[j]));
            let x = choose|x: int| 0 <= x < s.peers.len() && s.peers[x] == gone.peers[j];
            assert(s.peers[x].1.deadline > now);
        }
        law_reset_keeps_the_beat(gone, now, fresh);
        assert(beat_at(gone, now) == beat_at(s, now));
    }
}

/// A pass repeats the ping of a measurement whose pong did not come in time, up
/// to five times, and gives the measurement up then; before that time it leaves
/// the measurement alone.
#[verifier::rlimit(40)]
pub proof fn law_pass_retries_the_measurement(s: StateView, now: i64, fresh: NodeId)
    requires
        is_clock(now),
        state_ok(s),
        s.enabled,
        s.measurement is Some,
    ensures
        ({
            let m = s.measurement->0;
            let t = passed(s, now, fresh);
            &&& now < m.retry_deadline ==> t.measurement == s.measurement
            &&& now >= m.retry_deadline && m.timeouts < 5 ==> {
                &&& t.measurement is Some
                &&& t.measurement->0.task == m.task
                &&& t.measurement->0.samples == m.samples
                &&& t.measurement->0.timeouts == m.timeouts + 1
                &&& t.measurement->0.retry_deadline == now + 50_000
                &&& m.task.gateway < s.gateways.len() ==> exists|k: int|
                    s.outbox.len() <= k < t.outbox.len() && (#[trigger] t.outbox[k]).gateway
                        == m.task.gateway && t.outbox[k].outlet == Outlet::Measurement(
                        m.task.target,
                    ) && t.outbox[k].bytes == sync::ping_bytes(now, None)
            }
            &&& now >= m.retry_deadline && m.timeouts >= 5 && s.pending.len() == 0
                && s.next_remeasure_at is None && m.task.purpose is Join ==> t.measurement is None
            &&& now >= m.retry_deadline && m.timeouts >= 5 && s.pending.len() == 0
                && m.task.purpose is Remeasure ==> t.measurement is None && t.next_remeasure_at
                == Some((now + 30_000_000) as i64)
        }),
{
    let m = s.measurement->0;
    let kept = alive_kept(s, now);
    let pruned = peers_pruned(kept, now, fresh);
    let retried = retry_kept(pruned, now);
    let core = core_pass(s, now, fresh);
    let t = passed(s, now, fresh);
    lemma_peers_after_pass(s, now, fresh);
    lemma_pruning_keeps(kept, now, fresh);
    lemma_audio_pass_follows(core, now);
    if now >= m.retry_deadline && m.timeouts < 5 && m.task.gateway < s.gateways.len() {
        let k = pruned.outbox.len() as int;
        assert(s.outbox.len() <= kept.outbox.len());
        assert(retried.outbox[k].bytes == sync::ping_bytes(now, None));
        assert(core.outbox == retried.outbox);
        assert(t.outbox[k] == retried.outbox[k]);
        assert(t.outbox[k].gateway == m.task.gateway);
    }
}

/// A pass starts the first measurement to come when none is under way.
#[verifier::rlimit(40)]
pub proof fn law_pass_starts_the_next_measurement(s: StateView, now: i64, fresh: NodeId)
    requires
        is_clock(now),
        state_ok(s),
        s.enabled,
        s.measurement is None,
        s.pending.len() > 0,
        s.pending[0].gateway < s.gateways.len(),
    ensures
        ({
            let t = passed(s, now, fresh);
            &&& t.measurement is Some
            &&& t.measurement->0.task == s.pending[0]
            &&& t.measurement->0.retry_deadline == now + 50_000
            &&& exists|k: int|
                s.outbox.len() <= k < t.outbox.len() && (#[trigger] t.outbox[k]).gateway
                    == s.pending[0].gateway && t.outbox[k].outlet == Outlet::Measurement(
                    s.pending[0].target,
                ) && t.outbox[k].bytes == sync::ping_bytes(now, None)
        }),
{
    let kept = alive_kept(s, now);
    let pruned = peers_pruned(kept, now, fresh);
    let measured = remeasure_kept(retry_kept(pruned, now), now);
    let core = core_pass(s, now, fresh);
    let t = passed(s, now, fresh);
    lemma_peers_after_pass(s, now, fresh);
    lemma_pruning_keeps(kept, now, fresh);
    lemma_audio_pass_follows(core, now);
    let k = measured.outbox.len() as int;
    assert(s.outbox.len() <= kept.outbox.len());
    assert(measured.pending[0] == s.pending[0]);
    assert(core.outbox[k].bytes == sync::ping_bytes(now, None));
    assert(t.outbox[k] == core.outbox[k]);
    assert(t.outbox[k].gateway == s.pending[0].gateway);
}

/// A joined session is measured again when that is due: a pass starts to
/// measure a member of it, the founder if it can be measured, and the next time
/// is half a minute later. Founders do not measure their own session.
#[verifier::rlimit(40)]
pub proof fn law_pass_remeasures_the_session(s: StateView, now: i64, fresh: NodeId, i: int)
    requires
        is_clock(now),
        state_ok(s),
        s.enabled,
        s.next_remeasure_at is Some,
        s.next_remeasure_at->0 <= now,
        s.measurement is None,
        s.pending.len() == 0,
        0 <= i < s.peers.len(),
        s.peers[i].1.state.session == Some(s.session),
        s.peers[i].1.state.measurement_endpoint is Some,
        s.peers[i].1.deadline > now,
        forall|j: int|
            0 <= j < s.peers.len() ==> (#[trigger] s.peers[j]).0.gateway < s.gateways.len(),
    ensures
        ({
            let t = passed(s, now, fresh);
            &&& t.next_remeasure_at == Some((now + 30_000_000) as i64)
            &&& s.session == s.node ==> t.measurement is None
            &&& s.session != s.node ==> {
                &&& t.measurement is Some
                &&& t.measurement->0.task.session == s.session
                &&& t.measurement->0.task.purpose is Remeasure
                &&& exists|j: int|
                    0 <= j < t.peers.len() && (#[trigger] t.peers[j]).0.gateway
                        == t.measurement->0.task.gateway
                        && t.peers[j].1.state.measurement_endpoint == Some(
                        t.measurement->0.task.target,
                    ) && (t.peers[j].0.id == s.session || (t.peers[j].1.state.session == Some(
                        s.session,
                    ) && forall|k: int|
                        0 <= k < t.peers.len() && (#[trigger] t.peers[k]).0.id == s.session
                            ==> t.peers[k].1.state.measurement_endpoint is None))
            }
        }),
{
    let kept = alive_kept(s, now);
    let pruned = peers_pruned(kept, now, fresh);
    let t = passed(s, now, fresh);
    lemma_peers_after_pass(s, now, fresh);
    lemma_pruning_keeps(kept, now, fresh);
    law_pass_leaves_a_lost_session(s, now, fresh);
    law_pass_drops_silent_peers(s, now, fresh, i);
    lemma_first_target(t.peers, s.session, true);
    lemma_first_target(t.peers, s.session, false);
    assert(pruned.next_remeasure_at == s.next_remeasure_at) by {
        let live = StateView { peers: live_peers(kept.peers, now), ..kept };
        lemma_nodes_gone(live, expired_nodes(kept.peers, now));
        let gone = nodes_gone(live, expired_nodes(kept.peers, now));
        law_session_is_left_with_its_last_member(gone, now, fresh);
        if pruned.peers != s.peers || pruned != kept {
            let keep = |e: (Route, PeerEntry)| e.1.deadline > now;
            s.peers.filter_lemma(keep);
            assert(keep(s.peers[i]));
            assert(gone.peers == s.peers.filter(keep));
            assert(s.peers.filter(keep).contains(s.peers[i]));
            let j = choose|j: int| 0 <= j < gone.peers.len() && gone.peers[j] == s.peers[i];
            assert(gone.peers[j].1.state.session == Some(gone.session));
        }
    }
    assert forall|j: int| 0 <= j < t.peers.len() implies (#[trigger] t.peers[j]).0.gateway
        < s.gateways.len() by {
        law_pass_drops_silent_peers(s, now, fresh, j);
        let k = choose|k: int| 0 <= k < s.peers.len() && s.peers[k] == t.peers[j];
        assert(s.peers[k].0.gateway < s.gateways.len());
    }
    let j = choose|j: int| 0 <= j < t.peers.len() && t.peers[j] == s.peers[i];
    assert(t.peers[j].1.state.session == Some(s.session));
}

/// A pass multicasts an Alive on every gateway when the last one is 250 ms ago,
/// or a change was put off and its time has come; each tells what the peer
/// holds.
#[verifier::rlimit(40)]
pub proof fn law_pass_tells_the_state(s: StateView, now: i64, fresh: NodeId, i: int)
    requires
        is_clock(now),
        state_ok(s),
        s.enabled,
        0 <= i < s.gateways.len() <= usize::MAX,
        is_plain_gateway(s.gateways[i]),
        now >= s.last_alive_at + 250_000 || (s.broadcast_due matches Some(due) && now >= due),
    ensures
        ({
            let t = passed(s, now, fresh);
            let n = s.outbox.len();
            let d = t.outbox[n + i];
            &&& n + s.gateways.len() <= t.outbox.len()
            &&& d.gateway == i
            &&& d.outlet is Multicast
            &&& t.last_alive_at == now
            &&& discovery::decoded(d.bytes) matches Ok(f) && f.node == s.node && f.ttl == 5
                && f.group_id == 0 && (f.message matches discovery::Message::Alive(ps) && tells(
                ps,
                s,
                s.gateways[i],
            ))
        }),
{
    let core = core_pass(s, now, fresh);
    let t = passed(s, now, fresh);
    lemma_core_pass_follows(s, now, fresh);
    lemma_audio_pass_follows(core, now);
    lemma_alive_reads_back(s, s.gateways[i]);
    lemma_alive_kept_tells(s, now, i);
    lemma_tells_on(alive_kept(s, now), core, t, s.outbox.len() + i);
    lemma_audio_pass_is_audio(core, now);
}

proof fn lemma_tells_on(a: StateView, b: StateView, c: StateView, k: int)
    requires
        a.outbox.is_prefix_of(b.outbox),
        b.outbox.is_prefix_of(c.outbox),
        0 <= k < a.outbox.len(),
    ensures
        a.outbox.len() <= c.outbox.len(),
        c.outbox[k] == a.outbox[k],
{
    assert(b.outbox[k] == a.outbox[k]);
}

proof fn lemma_alive_kept_tells(s: StateView, now: i64, i: int)
    requires
        0 <= i < s.gateways.len() <= usize::MAX,
        now >= s.last_alive_at + 250_000 || (s.broadcast_due matches Some(due) && now >= due),
    ensures
        ({
            let t = alive_kept(s, now);
            let k = s.outbox.len() + i;
            &&& s.outbox.len() + s.gateways.len() <= t.outbox.len()
            &&& t.outbox[k].gateway == i
            &&& t.outbox[k].outlet is Multicast
            &&& t.outbox[k].bytes == alive_bytes(s, s.gateways[i])
            &&& t.last_alive_at == now
        }),
{
}

/// The next pass is never wanted later than something is due: an Alive, a
/// change put off, a retry, a re-measurement, or a peer whose time was over a
/// second before.
#[verifier::rlimit(40)]
pub proof fn law_next_pass_is_not_late(s: StateView, now: i64, fresh: NodeId, i: int)
    requires
        is_clock(now),
        state_ok(s),
        s.enabled,
    ensures
        ({
            let t = passed(s, now, fresh);
            let next = pass_deadline(s, now, fresh);
            &&& next <= now + 250_000
            &&& now < s.last_alive_at + 250_000 ==> next <= s.last_alive_at + 250_000
            &&& s.broadcast_due matches Some(due) ==> now < due ==> next <= due
            &&& s.measurement matches Some(m) ==> now < m.retry_deadline ==> next
                <= m.retry_deadline
            &&& s.measurement matches Some(m) ==> now >= m.retry_deadline ==> m.timeouts < 5
                ==> next <= now + 50_000
            &&& t.next_remeasure_at matches Some(at) ==> next <= at
            &&& 0 <= i < t.peers.len() ==> next <= t.peers[i].1.deadline + 1_000_000
        }),
{
    let kept = alive_kept(s, now);
    let t = passed(s, now, fresh);
    lemma_peers_after_pass(s, now, fresh);
    lemma_pruning_keeps(kept, now, fresh);
    if 0 <= i < t.peers.len() {
        lemma_earliest(t.peers, i);
        law_pass_drops_silent_peers(s, now, fresh, i);
        let e = earliest_deadline(t.peers)->0;
        let j = choose|j: int| 0 <= j < s.peers.len() && s.peers[j] == t.peers[i];
        assert(is_deadline(s.peers[j].1.deadline, 255_000_000));
        lemma_earliest_is_a_deadline(s, now, fresh);
    }
}

proof fn lemma_earliest_is_a_deadline(s: StateView, now: i64, fresh: NodeId)
    requires
        is_clock(now),
        state_ok(s),
        s.enabled,
    ensures
        earliest_deadline(passed(s, now, fresh).peers) matches Some(e)
            ==> is_deadline(e, 255_000_000),
{
    let t = passed(s, now, fresh);
    lemma_earliest_is_some(t.peers);
    if let Some(e) = earliest_deadline(t.peers) {
        let i = choose|i: int| 0 <= i < t.peers.len() && (#[trigger] t.peers[i]).1.deadline == e;
        law_pass_drops_silent_peers(s, now, fresh, i);
        let j = choose|j: int| 0 <= j < s.peers.len() && s.peers[j] == t.peers[i];
        assert(is_deadline(s.peers[j].1.deadline, 255_000_000));
    }
}

} // verus!
