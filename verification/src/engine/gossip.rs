//! Discovery gossip that a peer receives.

use vstd::prelude::*;

use crate::audio::inbound::deadline_of;
use crate::audio::upkeep::{peer_gone, peer_left};
use crate::engine::Engine;
use crate::engine::elect::{adopted, join_evaluated, loss_checked};
use crate::engine::measure::measurement_queued;
use crate::engine::send::{broadcast_scheduled, post, posted, response_bytes};
use crate::engine::state::{
    is_clock, is_deadline, peers_ok, state_ok, Outlet, PeerEntry, Purpose, State, StateView,
    MAX_TTL,
};
use crate::math::clamp_tempo;
use crate::table::{law_with, law_without, lemma_place, lookup, place, with, without, Route};
use crate::wire::discovery;
use crate::wire::discovery::{decoded, header_of, PeerState, TYPE_ALIVE};
use crate::wire::types::{stopped, NodeId, SessionId, SocketAddr, StartStopState, Timeline};

verus! {

/// The state after a peer was heard of: it stays until its ttl is over.
pub open spec fn peer_noted(
    s: StateView,
    gw_idx: usize,
    node: NodeId,
    ttl: u8,
    ps: PeerState,
    now: i64,
) -> StateView {
    StateView {
        peers: with(
            s.peers,
            Route { id: node, gateway: gw_idx },
            PeerEntry { state: ps, deadline: deadline_of(now, ttl) },
        ),
        ..s
    }
}

/// The state after a timeline of our session was gossiped: the strictly greater
/// beat origin wins, and is passed on.
pub open spec fn timeline_heard(s: StateView, tl: Option<Timeline>, now: i64) -> StateView {
    match tl {
        Some(tl) => if tl.beat_origin > s.timeline.beat_origin {
            broadcast_scheduled(StateView { timeline: adopted(tl), ..s }, now)
        } else {
            s
        },
        None => s,
    }
}

/// The state after a start/stop state of our session was gossiped: the latest
/// user action wins, and is passed on; the application follows if it is in
/// sync.
pub open spec fn start_stop_heard(
    s: StateView,
    stst: Option<StartStopState>,
    now: i64,
) -> StateView {
    match stst {
        Some(stst) => if stst.timestamp > s.held_stst.timestamp {
            broadcast_scheduled(
                StateView {
                    held_stst: stst,
                    app_playing: if s.sst_sync && stst != stopped() {
                        stst.is_playing
                    } else {
                        s.app_playing
                    },
                    ..s
                },
                now,
            )
        } else {
            s
        },
        None => s,
    }
}

/// The timelines of foreign sessions after one was gossiped: the strictly
/// greater beat origin wins.
pub open spec fn foreign_heard(
    timelines: Seq<(SessionId, Timeline)>,
    sess: SessionId,
    tl: Option<Timeline>,
) -> Seq<(SessionId, Timeline)> {
    match tl {
        Some(tl) => match lookup(timelines, sess) {
            Some(cur) => if tl.beat_origin > cur.beat_origin {
                with(timelines, sess, tl)
            } else {
                timelines
            },
            None => with(timelines, sess, tl),
        },
        None => timelines,
    }
}

/// The state after a peer's state was processed.
pub open spec fn peer_state_processed(
    s: StateView,
    gw_idx: usize,
    node: NodeId,
    ttl: u8,
    ps: PeerState,
    now: i64,
) -> StateView {
    let noted = peer_noted(s, gw_idx, node, ttl, ps, now);
    match ps.session {
        None => noted,
        Some(sess) => if sess == s.session {
            let member = StateView { session_member_seen: true, ..noted };
            start_stop_heard(timeline_heard(member, ps.timeline, now), ps.start_stop, now)
        } else {
            let cached = StateView {
                foreign_timelines: foreign_heard(s.foreign_timelines, sess, ps.timeline),
                ..noted
            };
            match lookup(s.measured, sess) {
                Some(offset) => join_evaluated(cached, sess, offset, now),
                None => measurement_queued(cached, gw_idx, sess, ps, Purpose::Join, now),
            }
        },
    }
}

/// The state after a peer announced its departure.
pub open spec fn peer_departed(
    s: StateView,
    gw_idx: usize,
    node: NodeId,
    now: i64,
    fresh: NodeId,
) -> StateView {
    loss_checked(
        peer_gone(
            StateView {
                peers: without(s.peers, Route { id: node, gateway: gw_idx }),
                ..s
            },
            node,
        ),
        now,
        fresh,
    )
}

/// The state after the answer to an Alive, which does not wait for its payload
/// to parse.
pub open spec fn alive_answered(
    s: StateView,
    gw_idx: usize,
    src: SocketAddr,
    msg_type: u8,
) -> StateView {
    if msg_type == TYPE_ALIVE && gw_idx < s.gateways.len() {
        posted(s, gw_idx, Outlet::Unicast(src), response_bytes(s, s.gateways[gw_idx as int]))
    } else {
        s
    }
}

/// The state after a discovery datagram. What has no header, comes from
/// ourselves or belongs to another group is ignored; a payload that does not
/// parse is discarded.
pub open spec fn discovery_received(
    s: StateView,
    gw_idx: usize,
    src: SocketAddr,
    buf: Seq<u8>,
    now: i64,
    fresh: NodeId,
) -> StateView {
    if !s.enabled {
        s
    } else {
        match header_of(buf) {
            Err(_) => s,
            Ok(header) => if header.node == s.node || header.group_id != 0 {
                s
            } else {
                let answered = alive_answered(s, gw_idx, src, header.msg_type);
                match decoded(buf) {
                    Err(_) => answered,
                    Ok(frame) => match frame.message {
                        discovery::Message::Alive(ps) => peer_state_processed(
                            answered,
                            gw_idx,
                            frame.node,
                            frame.ttl,
                            ps,
                            now,
                        ),
                        discovery::Message::Response(ps) => peer_state_processed(
                            answered,
                            gw_idx,
                            frame.node,
                            frame.ttl,
                            ps,
                            now,
                        ),
                        discovery::Message::ByeBye => peer_departed(
                            answered,
                            gw_idx,
                            frame.node,
                            now,
                            fresh,
                        ),
                    },
                }
            },
        }
    }
}

/// Putting a peer with a deadline keeps the peers in order.
proof fn lemma_peers_with(peers: Seq<(Route, PeerEntry)>, route: Route, e: PeerEntry)
    requires
        peers_ok(peers),
        is_deadline(e.deadline, MAX_TTL),
    ensures
        peers_ok(with(peers, route, e)),
{
    law_with(peers, route, e, route);
    lemma_place(peers, route);
    let t = with(peers, route, e);
    assert forall|i: int| 0 <= i < t.len() implies is_deadline(
        (#[trigger] t[i]).1.deadline,
        MAX_TTL,
    ) by {
        if i < peers.len() && i != place(peers, route) {
            assert(t[i] == peers[i]);
        }
    }
}

proof fn lemma_peers_without(peers: Seq<(Route, PeerEntry)>, route: Route)
    requires
        peers_ok(peers),
    ensures
        peers_ok(without(peers, route)),
{
    law_without(peers, route, route);
    lemma_place(peers, route);
    let t = without(peers, route);
    let n = place(peers, route);
    assert forall|i: int| 0 <= i < t.len() implies is_deadline(
        (#[trigger] t[i]).1.deadline,
        MAX_TTL,
    ) by {
        if n < peers.len() {
            assert(t[i] == peers[if i < n {
                i
            } else {
                i + 1
            }]);
        }
    }
}

impl Engine {
    /// Process a discovery datagram. `fresh` is the identifier of the session
    /// that is founded if the datagram leaves us without members.
    pub fn handle_discovery_datagram(
        &self,
        st: &mut State,
        gw_idx: usize,
        src: SocketAddr,
        buf: &[u8],
        now: i64,
        fresh: NodeId,
    )
        requires
            is_clock(now),
            state_ok(old(st)@),
        ensures
            final(st)@ == discovery_received(old(st)@, gw_idx, src, buf@, now, fresh),
            state_ok(final(st)@),
    {
        if !st.enabled {
            return;
        }
        let header = match discovery::decode_header(buf) {
            Ok(header) => header,
            Err(_) => {
                return;
            },
        };
        if header.node == st.node || header.group_id != 0 {
            return;
        }
        if header.is_alive() && gw_idx < st.gateways.len() {
            let gw = st.gateways[gw_idx];
            let state = self.build_state(st, &gw);
            let response = discovery::encode(&discovery::Frame::response(st.node, state));
            post(st, gw_idx, Outlet::Unicast(src), response);
        }
        let frame = match discovery::decode(buf) {
            Ok(frame) => frame,
            Err(_) => {
                return;
            },
        };
        match frame.message {
            discovery::Message::Alive(ps) => {
                self.process_peer_state(st, gw_idx, frame.node, frame.ttl, ps, now);
            },
            discovery::Message::Response(ps) => {
                self.process_peer_state(st, gw_idx, frame.node, frame.ttl, ps, now);
            },
            discovery::Message::ByeBye => {
                let route = Route { id: frame.node, gateway: gw_idx };
                proof {
                    lemma_peers_without(st@.peers, route);
                }
                st.peers.remove(&route);
                peer_left(st, frame.node);
                self.check_session_loss(st, now, fresh);
            },
        }
    }

    /// Process the state that a peer gossips.
    pub fn process_peer_state(
        &self,
        st: &mut State,
        gw_idx: usize,
        node: NodeId,
        ttl: u8,
        ps: PeerState,
        now: i64,
    )
        requires
            is_clock(now),
            state_ok(old(st)@),
        ensures
            final(st)@ == peer_state_processed(old(st)@, gw_idx, node, ttl, ps, now),
            state_ok(final(st)@),
    {
        let route = Route { id: node, gateway: gw_idx };
        let entry = PeerEntry { state: ps, deadline: now + ttl as i64 * 1_000_000 };
        proof {
            lemma_peers_with(st@.peers, route, entry);
        }
        st.peers.insert(route, entry);
        let sess = match ps.session {
            Some(sess) => sess,
            None => {
                return;
            },
        };
        if sess == st.session {
            st.session_member_seen = true;
            if let Some(tl) = ps.timeline {
                if tl.beat_origin > st.timeline.beat_origin {
                    st.timeline = Timeline {
                        tempo: clamp_tempo(tl.tempo),
                        beat_origin: tl.beat_origin,
                        time_origin: tl.time_origin,
                    };
                    self.schedule_broadcast(st, now);
                }
            }
            if let Some(stst) = ps.start_stop {
                if stst.timestamp > st.held_stst.timestamp {
                    st.held_stst = stst;
                    if st.sst_sync && stst != StartStopState::default() {
                        st.app_playing = stst.is_playing;
                    }
                    self.schedule_broadcast(st, now);
                }
            }
        } else {
            if let Some(tl) = ps.timeline {
                let newer = match st.foreign_timelines.get(&sess) {
                    Some(cur) => tl.beat_origin > cur.beat_origin,
                    None => true,
                };
                if newer {
                    st.foreign_timelines.insert(sess, tl);
                }
            }
            let measured = match st.measured.get(&sess) {
                Some(offset) => Some(*offset),
                None => None,
            };
            match measured {
                // The ghost-time difference is constant, so evaluating again
                // is cheap and idempotent, and right when our own transform
                // has changed since.
                Some(offset) => {
                    self.evaluate_join(st, sess, offset, now);
                },
                None => {
                    self.queue_measurement(st, gw_idx, sess, &ps, Purpose::Join, now);
                },
            }
        }
    }
}

} // verus!
