//! Gossip that a peer sends of its own accord.

use vstd::prelude::*;

use crate::engine::Engine;
use crate::engine::state::{
    is_clock, state_ok, Datagram, DatagramView, Gateway, Outlet, State, StateView,
    MIN_BROADCAST_SPACING,
};
use crate::wire::discovery;
use crate::wire::discovery::{frame_bytes, PeerState, TTL_SECONDS};

verus! {

/// The state with one more datagram to send; a gateway that is not open sends
/// nothing.
pub open spec fn posted(s: StateView, gateway: usize, outlet: Outlet, bytes: Seq<u8>) -> StateView {
    if gateway < s.gateways.len() {
        StateView { outbox: s.outbox.push(DatagramView { gateway, outlet, bytes }), ..s }
    } else {
        s
    }
}

/// The peer-state payload for one gateway.
pub open spec fn state_payload(s: StateView, gw: Gateway) -> PeerState {
    PeerState {
        timeline: Some(s.timeline),
        session: Some(s.session),
        start_stop: Some(s.held_stst),
        measurement_endpoint: Some(gw.measurement),
        audio_endpoint: match s.audio {
            Some(_) => Some(gw.audio),
            None => None,
        },
    }
}

/// The datagram of an Alive through one gateway.
pub open spec fn alive_bytes(s: StateView, gw: Gateway) -> Seq<u8> {
    frame_bytes(
        discovery::Frame {
            ttl: TTL_SECONDS,
            group_id: 0,
            node: s.node,
            message: discovery::Message::Alive(state_payload(s, gw)),
        },
    )
}

/// The datagram of a Response through one gateway.
pub open spec fn response_bytes(s: StateView, gw: Gateway) -> Seq<u8> {
    frame_bytes(
        discovery::Frame {
            ttl: TTL_SECONDS,
            group_id: 0,
            node: s.node,
            message: discovery::Message::Response(state_payload(s, gw)),
        },
    )
}

/// The Alive messages through the first `n` gateways.
pub open spec fn alives(s: StateView, n: nat) -> Seq<DatagramView> {
    Seq::new(
        n,
        |i: int|
            DatagramView {
                gateway: i as usize,
                outlet: Outlet::Multicast,
                bytes: alive_bytes(s, s.gateways[i]),
            },
    )
}

/// The state after an Alive on every gateway.
pub open spec fn alive_sent(s: StateView, now: i64) -> StateView {
    StateView {
        outbox: s.outbox + alives(s, s.gateways.len()),
        last_alive_at: now,
        last_broadcast_at: now,
        broadcast_due: None,
        ..s
    }
}

/// The state after a change was broadcast, or its broadcast put off.
pub open spec fn broadcast_scheduled(s: StateView, now: i64) -> StateView {
    if !s.enabled {
        s
    } else if now - s.last_broadcast_at >= MIN_BROADCAST_SPACING {
        alive_sent(s, now)
    } else {
        StateView { broadcast_due: Some((s.last_broadcast_at + MIN_BROADCAST_SPACING) as i64), ..s }
    }
}

/// Hand a datagram to the caller.
pub fn post(st: &mut State, gateway: usize, outlet: Outlet, bytes: Vec<u8>)
    ensures
        final(st)@ == posted(old(st)@, gateway, outlet, bytes@),
{
    if gateway < st.gateways.len() {
        st.outbox.push(Datagram { gateway, outlet, bytes });
        proof {
            assert(st@.outbox =~= old(st)@.outbox.push(
                DatagramView { gateway, outlet, bytes: bytes@ },
            ));
        }
    }
}

impl Engine {
    /// Our peer-state payload for one gateway.
    pub fn build_state(&self, st: &State, gw: &Gateway) -> (ps: PeerState)
        ensures
            ps == state_payload(st@, *gw),
    {
        PeerState {
            timeline: Some(st.timeline),
            session: Some(st.session),
            start_stop: Some(st.held_stst),
            measurement_endpoint: Some(gw.measurement_endpoint()),
            audio_endpoint: if st.audio.is_some() {
                Some(gw.audio_endpoint())
            } else {
                None
            },
        }
    }

    /// Multicast an Alive on every gateway; resets the periodic timer.
    pub fn send_alive(&self, st: &mut State, now: i64)
        ensures
            final(st)@ == alive_sent(old(st)@, now),
    {
        let ghost s = st@;
        let n = st.gateways.len();
        let mut i: usize = 0;
        proof {
            assert(s.outbox + alives(s, 0) =~= s.outbox);
        }
        while i < n
            invariant
                i <= n,
                n == s.gateways.len(),
                st@ == (StateView { outbox: s.outbox + alives(s, i as nat), ..s }),
            decreases n - i,
        {
            let gw = st.gateways[i];
            let state = self.build_state(st, &gw);
            let bytes = discovery::encode(&discovery::Frame::alive(st.node, state));
            let ghost sent = st@.outbox;
            post(st, i, Outlet::Multicast, bytes);
            proof {
                assert(bytes@ == alive_bytes(s, s.gateways[i as int]));
                assert(st@.outbox =~= s.outbox + alives(s, (i + 1) as nat));
            }
            i = i + 1;
        }
        st.last_alive_at = now;
        st.last_broadcast_at = now;
        st.broadcast_due = None;
    }

    /// Broadcast a state change immediately, or delay it to honor the 50 ms
    /// minimum spacing.
    pub fn schedule_broadcast(&self, st: &mut State, now: i64)
        requires
            is_clock(now),
            state_ok(old(st)@),
        ensures
            final(st)@ == broadcast_scheduled(old(st)@, now),
            state_ok(final(st)@),
    {
        if !st.enabled {
            return;
        }
        if now - st.last_broadcast_at >= MIN_BROADCAST_SPACING {
            self.send_alive(st, now);
        } else {
            st.broadcast_due = Some(st.last_broadcast_at + MIN_BROADCAST_SPACING);
        }
    }
}

} // verus!
