//! What drives a peer: joining and leaving the network, datagrams by the socket
//! they arrive on, the housekeeping timer.

use vstd::prelude::*;

use crate::audio::inbound::{audio_received, handle_datagram};
use crate::audio::ops::{audio_shut, shutdown, sink_ids};
use crate::audio::outbound::lemma_byes_sent;
use crate::audio::sink::next_number;
use crate::engine::Engine;
use crate::engine::elect::{has_member, is_member};
use crate::engine::gossip::discovery_received;
use crate::engine::laws::law_events_only_add_to_the_outbox;
use crate::engine::measure::measurement_received;
use crate::engine::send::{alive_sent, post};
use crate::engine::state::{
    is_clock, state_ok, DatagramView, Gateway, Outlet, PeerEntry, State, StateView, PRUNE_PADDING,
};
use crate::engine::upkeep::{
    alive_kept, core_pass, earliest_deadline, expired_nodes, find_earliest_deadline, lemma_nodes_gone,
    live_peers, pass_deadline, passed,
};
use crate::random::{random_id, NoRandomness};
use crate::table::{distinct, lemma_place, place, without, Key, Route};
use crate::wire::discovery;
use crate::wire::discovery::{frame_bytes, header_of, TYPE_BYEBYE};
use crate::wire::types::{
    stopped, NodeId, SocketAddr, SocketAddrV4, StartStopState, Timeline,
};

verus! {

/// Which socket of a gateway a datagram arrived on.
#[derive(Debug, Clone, Copy, PartialEq, Eq, Structural)]
pub enum Role {
    McastDiscovery,
    UnicastDiscovery,
    Measurement,
    Audio,
}

// ---------------------------------------------------------------- datagrams

/// The state after a datagram.
pub open spec fn dispatched(
    s: StateView,
    gw: usize,
    src: SocketAddr,
    buf: Seq<u8>,
    role: Role,
    now: i64,
    fresh: NodeId,
) -> StateView {
    match role {
        Role::McastDiscovery => discovery_received(s, gw, src, buf, now, fresh),
        Role::UnicastDiscovery => discovery_received(s, gw, src, buf, now, fresh),
        Role::Measurement => measurement_received(s, gw, src, buf, now),
        Role::Audio => audio_received(s, gw, src, buf, now),
    }
}

/// Process a datagram by the socket it arrived on. `fresh` is the identifier of
/// the session that is founded if the datagram leaves us without members.
pub fn dispatch_with(
    eng: &Engine,
    st: &mut State,
    gw: usize,
    src: SocketAddr,
    buf: &[u8],
    role: Role,
    now: i64,
    fresh: NodeId,
)
    requires
        is_clock(now),
        state_ok(old(st)@),
    ensures
        final(st)@ == dispatched(old(st)@, gw, src, buf@, role, now, fresh),
        state_ok(final(st)@),
{
    match role {
        Role::McastDiscovery => {
            eng.handle_discovery_datagram(st, gw, src, buf, now, fresh);
        },
        Role::UnicastDiscovery => {
            eng.handle_discovery_datagram(st, gw, src, buf, now, fresh);
        },
        Role::Measurement => {
            eng.handle_measurement_datagram(st, gw, src, buf, now);
        },
        Role::Audio => {
            handle_datagram(st, gw, src, buf, now);
        },
    }
}

/// Whether a datagram makes us found a fresh session: it is the departure of
/// the last member that is known.
pub open spec fn datagram_founds(s: StateView, gw: usize, buf: Seq<u8>, role: Role) -> bool {
    &&& role is McastDiscovery || role is UnicastDiscovery
    &&& s.enabled
    &&& s.session_member_seen
    &&& header_of(buf) matches Ok(h) && h.node != s.node && h.group_id == 0 && h.msg_type
        == TYPE_BYEBYE && !has_member(
        without(s.peers, Route { id: h.node, gateway: gw }),
        s.session,
    )
}

/// Whether a member of our session is known beside one route.
fn any_member_beside(st: &State, route: Route) -> (r: bool)
    requires
        distinct(st@.peers),
    ensures
        r == has_member(without(st@.peers, route), st@.session),
{
    let ghost peers = st@.peers;
    let ghost rest = without(peers, route);
    let ghost p = place(peers, route);
    proof {
        lemma_place(peers, route);
    }
    let mut i: usize = 0;
    while i < st.peers.items.len()
        invariant
            i <= st.peers.items@.len(),
            peers == st@.peers,
            rest == without(peers, route),
            p == place(peers, route),
            0 <= p <= peers.len(),
            p < peers.len() ==> peers[p].0 == route,
            forall|j: int| 0 <= j < p ==> (#[trigger] peers[j]).0 != route,
            distinct(peers),
            forall|j: int|
                0 <= j < i && (#[trigger] peers[j]).0 != route ==> !is_member(
                    peers[j],
                    st@.session,
                ),
        decreases st.peers.items@.len() - i,
    {
        let key = st.peers.items[i].0;
        if !key.same(&route) {
            if let Some(session) = st.peers.items[i].1.state.session {
                if session == st.session {
                    proof {
                        let k = if i < p {
                            i as int
                        } else {
                            i - 1
                        };
                        if p < peers.len() {
                            assert(rest[k] == peers[i as int]);
                        } else {
                            assert(rest[i as int] == peers[i as int]);
                        }
                        assert(has_member(rest, st@.session));
                    }
                    return true;
                }
            }
        }
        i = i + 1;
    }
    proof {
        if has_member(rest, st@.session) {
            let k = choose|k: int| 0 <= k < rest.len() && is_member(
                #[trigger] rest[k],
                st@.session,
            );
            let j = if p < peers.len() && k >= p {
                k + 1
            } else {
                k
            };
            assert(rest[k] == peers[j]);
            if p < peers.len() {
                assert(peers[j].0 != peers[p].0);
            } else {
                assert(peers[j].0 != route);
            }
        }
    }
    false
}

/// Whether a datagram makes us found a fresh session.
fn founds_session(st: &State, gw: usize, buf: &[u8], role: Role) -> (r: bool)
    requires
        state_ok(st@),
    ensures
        r == datagram_founds(st@, gw, buf@, role),
{
    let discovery = match role {
        Role::McastDiscovery => true,
        Role::UnicastDiscovery => true,
        _ => false,
    };
    if !discovery || !st.enabled || !st.session_member_seen {
        return false;
    }
    match discovery::decode_header(buf) {
        Ok(h) => {
            if h.node == st.node || h.group_id != 0 || h.msg_type != TYPE_BYEBYE {
                return false;
            }
            !any_member_beside(st, Route { id: h.node, gateway: gw })
        },
        Err(_) => false,
    }
}

/// Process a datagram by the socket it arrived on. It fails, and changes
/// nothing, only where a session has to be founded and no identifier can be
/// had.
pub fn dispatch(
    eng: &Engine,
    st: &mut State,
    gw: usize,
    src: SocketAddr,
    buf: &[u8],
    role: Role,
    now: i64,
) -> (r: Result<(), NoRandomness>)
    requires
        is_clock(now),
        state_ok(old(st)@),
    ensures
        match r {
            Ok(()) => exists|fresh: NodeId|
                final(st)@ == #[trigger] dispatched(
                    old(st)@,
                    gw,
                    src,
                    buf@,
                    role,
                    now,
                    fresh,
                ),
            Err(_) => final(st)@ == old(st)@,
        },
        !datagram_founds(old(st)@, gw, buf@, role) ==> r is Ok && final(st)@ == dispatched(
            old(st)@,
            gw,
            src,
            buf@,
            role,
            now,
            old(st)@.node,
        ),
        state_ok(final(st)@),
{
    let fresh = if founds_session(st, gw, buf, role) {
        random_id()?
    } else {
        st.node
    };
    dispatch_with(eng, st, gw, src, buf, role, now, fresh);
    Ok(())
}

/// A datagram either founds a session, under the identifier handed in, or does
/// not depend on that identifier.
pub proof fn law_identifier_is_used_only_to_found(
    s: StateView,
    gw: usize,
    src: SocketAddr,
    buf: Seq<u8>,
    role: Role,
    now: i64,
    a: NodeId,
    b: NodeId,
)
    requires
        state_ok(s),
    ensures
        datagram_founds(s, gw, buf, role) ==> dispatched(s, gw, src, buf, role, now, a).session
            == a && dispatched(s, gw, src, buf, role, now, a).node == a,
        !datagram_founds(s, gw, buf, role) ==> dispatched(s, gw, src, buf, role, now, a)
            == dispatched(s, gw, src, buf, role, now, b),
{
    discovery::law_header_is_independent_of_payload(buf);
}

// ------------------------------------------------------------- housekeeping

/// Whether a pass makes us found a fresh session: it prunes the last member
/// that is known.
pub open spec fn pass_founds(s: StateView, now: i64) -> bool {
    &&& s.enabled
    &&& s.session_member_seen
    &&& earliest_deadline(s.peers) matches Some(e) && now >= e + PRUNE_PADDING
    &&& !has_member(live_peers(s.peers, now), s.session)
}

/// Whether a pass makes us found a fresh session.
fn pass_founds_session(st: &State, now: i64) -> (r: bool)
    requires
        is_clock(now),
        state_ok(st@),
    ensures
        r == pass_founds(st@, now),
{
    if !st.enabled || !st.session_member_seen {
        return false;
    }
    match find_earliest_deadline(&st.peers) {
        Some(e) => now >= e + PRUNE_PADDING && !any_live_member(st, now),
        None => false,
    }
}

/// Whether a member of our session is known whose time is not over.
fn any_live_member(st: &State, now: i64) -> (r: bool)
    ensures
        r == has_member(live_peers(st@.peers, now), st@.session),
{
    let ghost peers = st@.peers;
    let ghost keep = |e: (Route, PeerEntry)| e.1.deadline > now;
    let ghost live = live_peers(peers, now);
    proof {
        peers.filter_lemma(keep);
    }
    let mut i: usize = 0;
    while i < st.peers.items.len()
        invariant
            i <= st.peers.items@.len(),
            peers == st@.peers,
            keep == (|e: (Route, PeerEntry)| e.1.deadline > now),
            live == peers.filter(keep),
            live == live_peers(peers, now),
            forall|j: int| 0 <= j < peers.len() && keep(peers[j]) ==> #[trigger] live.contains(
                peers[j],
            ),
            forall|j: int|
                0 <= j < i && keep(#[trigger] peers[j]) ==> !is_member(peers[j], st@.session),
        decreases st.peers.items@.len() - i,
    {
        if st.peers.items[i].1.deadline > now {
            if let Some(session) = st.peers.items[i].1.state.session {
                if session == st.session {
                    proof {
                        assert(keep(peers[i as int]));
                        assert(live.contains(peers[i as int]));
                        let k = choose|k: int| 0 <= k < live.len() && live[k] == peers[i as int];
                        assert(is_member(live[k], st@.session));
                    }
                    return true;
                }
            }
        }
        i = i + 1;
    }
    proof {
        if has_member(live, st@.session) {
            let k = choose|k: int| 0 <= k < live.len() && is_member(
                #[trigger] live[k],
                st@.session,
            );
            assert(live.contains(live[k]));
            peers.lemma_filter_contains_rev(keep, live[k]);
            let j = choose|j: int| 0 <= j < peers.len() && peers[j] == live[k];
            assert(keep(peers[j]));
        }
    }
    false
}

/// One housekeeping pass; returns the next deadline. It fails, and changes
/// nothing, only where a session has to be founded and no identifier can be
/// had.
pub fn housekeeping(eng: &Engine, st: &mut State, now: i64) -> (r: Result<i64, NoRandomness>)
    requires
        is_clock(now),
        state_ok(old(st)@),
    ensures
        match r {
            Ok(next) => exists|fresh: NodeId|
                final(st)@ == #[trigger] passed(old(st)@, now, fresh) && next == pass_deadline(
                    old(st)@,
                    now,
                    fresh,
                ),
            Err(_) => final(st)@ == old(st)@,
        },
        !pass_founds(old(st)@, now) ==> r == Ok::<i64, NoRandomness>(
            pass_deadline(old(st)@, now, old(st)@.node),
        ) && final(st)@ == passed(old(st)@, now, old(st)@.node),
        state_ok(final(st)@),
{
    let fresh = if pass_founds_session(st, now) {
        random_id()?
    } else {
        st.node
    };
    let ghost s = st@;
    let next = eng.housekeeping_pass(st, now, fresh);
    proof {
        assert(st@ == passed(s, now, fresh));
    }
    Ok(next)
}

/// A pass either founds a session, under the identifier handed in, or does not
/// depend on that identifier.
pub proof fn law_pass_founds_only_on_loss(s: StateView, now: i64, a: NodeId, b: NodeId)
    ensures
        pass_founds(s, now) ==> core_pass(s, now, a).session == a && core_pass(s, now, a).node
            == a,
        !pass_founds(s, now) ==> passed(s, now, a) == passed(s, now, b) && pass_deadline(s, now, a)
            == pass_deadline(s, now, b),
{
    let t = alive_kept(s, now);
    let pruned = StateView { peers: live_peers(t.peers, now), ..t };
    lemma_nodes_gone(pruned, expired_nodes(t.peers, now));
}

/// How long to wait for the next pass, µs.
pub open spec fn wait_of(next: i64, now: i64) -> int {
    if next - now < 1_000 {
        1_000
    } else if next - now > 250_000 {
        250_000
    } else {
        next - now
    }
}

/// Waiting never ends after the deadline by more than a millisecond, and takes
/// at least a millisecond and at most a quarter of a second; it ends at the
/// deadline if that is within these.
pub proof fn law_wait_ends_at_the_deadline(next: i64, now: i64)
    ensures
        1_000 <= wait_of(next, now) <= 250_000,
        1_000 <= next - now <= 250_000 ==> now + wait_of(next, now) == next,
        next >= now ==> now + wait_of(next, now) <= next + 1_000,
        next - now > 250_000 ==> wait_of(next, now) == 250_000,
        next - now < 1_000 ==> wait_of(next, now) == 1_000,
{
}

/// How long to wait for the next pass, µs: until its deadline, but at least
/// 1 ms and at most 250 ms.
pub fn wait_micros(next: i64, now: i64) -> (r: u64)
    ensures
        r == wait_of(next, now),
        r == if next - now < 1_000 {
            1_000int
        } else if next - now > 250_000 {
            250_000
        } else {
            next - now
        },
{
    let wait: i128 = next as i128 - now as i128;
    if wait < 1_000 {
        1_000
    } else if wait > 250_000 {
        250_000
    } else {
        wait as u64
    }
}

// -------------------------------------------------------- joining, leaving

/// The state after the network was joined through the given gateways: fresh
/// identifier and session, ghost time 0 at this moment. Only the tempo is kept.
pub open spec fn joined(
    s: StateView,
    gateways: Seq<Gateway>,
    fresh: NodeId,
    now: i64,
) -> StateView {
    if s.enabled {
        s
    } else {
        alive_sent(
            StateView {
                enabled: true,
                epoch: next_number(s.epoch),
                node: fresh,
                session: fresh,
                ghost_offset: (-now) as i64,
                timeline: Timeline {
                    tempo: s.timeline.tempo,
                    beat_origin: 0,
                    time_origin: 0,
                },
                held_stst: stopped(),
                session_member_seen: false,
                foreign_timelines: Seq::empty(),
                measured: Seq::empty(),
                measurement: None,
                pending: Seq::empty(),
                peers: Seq::empty(),
                broadcast_due: None,
                next_remeasure_at: None,
                gateways,
                ..s
            },
            now,
        )
    }
}

/// Join the network under the given identifier; the first Alive goes out at
/// once.
pub fn enable_as(eng: &Engine, st: &mut State, gateways: Vec<Gateway>, fresh: NodeId, now: i64)
    requires
        is_clock(now),
        state_ok(old(st)@),
    ensures
        final(st)@ == joined(old(st)@, gateways@, fresh, now),
        state_ok(final(st)@),
{
    if st.enabled {
        return;
    }
    st.epoch = st.epoch.wrapping_add(1);
    st.enabled = true;
    st.node = fresh;
    st.session = fresh;
    st.ghost_offset = -now;
    st.timeline = Timeline { tempo: st.timeline.tempo, beat_origin: 0, time_origin: 0 };
    st.held_stst = StartStopState::default();
    st.session_member_seen = false;
    st.foreign_timelines.clear();
    st.measured.clear();
    st.measurement = None;
    st.pending.clear();
    st.peers.clear();
    st.broadcast_due = None;
    st.next_remeasure_at = None;
    st.gateways = gateways;
    eng.send_alive(st, now);
}

/// Join the network: fresh identifier and session (joining never imports prior
/// session state), announce.
pub fn enable(eng: &Engine, st: &mut State, gateways: Vec<Gateway>, now: i64) -> (r: Result<
    (),
    NoRandomness,
>)
    requires
        is_clock(now),
        state_ok(old(st)@),
    ensures
        match r {
            Ok(()) => exists|fresh: NodeId|
                final(st)@ == #[trigger] joined(old(st)@, gateways@, fresh, now),
            Err(_) => final(st)@ == old(st)@,
        },
        old(st)@.enabled ==> r is Ok && final(st)@ == old(st)@,
        state_ok(final(st)@),
{
    if st.enabled {
        proof {
            assert(st@ == joined(st@, gateways@, st@.node, now));
        }
        return Ok(());
    }
    let fresh = random_id()?;
    enable_as(eng, st, gateways, fresh, now);
    Ok(())
}

/// The departure messages through the first `n` gateways.
pub open spec fn farewells(node: NodeId, n: nat) -> Seq<DatagramView> {
    Seq::new(
        n,
        |i: int|
            DatagramView {
                gateway: i as usize,
                outlet: Outlet::Multicast,
                bytes: frame_bytes(
                    discovery::Frame {
                        ttl: 0,
                        group_id: 0,
                        node,
                        message: discovery::Message::ByeBye,
                    },
                ),
            },
    )
}

/// The state after going silent: no gateways, no peers, no measurements.
pub open spec fn silenced(s: StateView) -> StateView {
    StateView {
        enabled: false,
        epoch: next_number(s.epoch),
        gateways: Seq::empty(),
        peers: Seq::empty(),
        measurement: None,
        pending: Seq::empty(),
        broadcast_due: None,
        ..s
    }
}

/// The state after the network was left: channels are withdrawn, then departure
/// is announced on every gateway.
pub open spec fn left(s: StateView) -> StateView {
    if s.enabled {
        let t = audio_shut(s);
        StateView {
            session_member_seen: false,
            next_remeasure_at: None,
            ..silenced(
                StateView { outbox: t.outbox + farewells(t.node, t.gateways.len()), ..t },
            )
        }
    } else {
        s
    }
}

/// Go silent.
pub fn silence(st: &mut State)
    requires
        state_ok(old(st)@),
    ensures
        final(st)@ == silenced(old(st)@),
        state_ok(final(st)@),
{
    st.enabled = false;
    st.epoch = st.epoch.wrapping_add(1);
    st.gateways.clear();
    st.peers.clear();
    st.measurement = None;
    st.pending.clear();
    st.broadcast_due = None;
}

/// Leave the network: announce departure on every gateway, forget peers.
pub fn disable(st: &mut State)
    requires
        state_ok(old(st)@),
    ensures
        final(st)@ == left(old(st)@),
        state_ok(final(st)@),
{
    if !st.enabled {
        return;
    }
    shutdown(st);
    let ghost t = st@;
    let n = st.gateways.len();
    let mut i: usize = 0;
    proof {
        assert(t.outbox + farewells(t.node, 0) =~= t.outbox);
    }
    while i < n
        invariant
            i <= n == t.gateways.len(),
            st@ == (StateView { outbox: t.outbox + farewells(t.node, i as nat), ..t }),
        decreases n - i,
    {
        let bye = discovery::encode(&discovery::Frame::bye_bye(st.node));
        post(st, i, Outlet::Multicast, bye);
        i = i + 1;
        proof {
            assert(st@.outbox =~= t.outbox + farewells(t.node, i as nat));
        }
    }
    silence(st);
    st.session_member_seen = false;
    st.next_remeasure_at = None;
}

// ---------------------------------------------------------------- receivers

/// Whether a receiver that was started in an epoch goes on.
pub open spec fn is_current(s: StateView, epoch: u64) -> bool {
    s.enabled && s.epoch == epoch
}

/// Whether a receiver that was started in `epoch` goes on: it stops when the
/// network was left, though it may have been joined again since.
pub fn receiver_goes_on(st: &State, epoch: u64) -> (r: bool)
    ensures
        r == is_current(st@, epoch),
{
    st.enabled && st.epoch == epoch
}

/// A receiver goes on from the moment it is started until the network is left,
/// and not again when it is joined anew. No other event stops it.
pub proof fn law_receivers_stop_with_their_epoch(
    s: StateView,
    gateways: Seq<Gateway>,
    fresh: NodeId,
    now: i64,
)
    requires
        s.enabled,
    ensures
        is_current(s, s.epoch),
        !is_current(left(s), s.epoch),
        !is_current(silenced(s), s.epoch),
        !is_current(joined(left(s), gateways, fresh, now), s.epoch),
        !is_current(joined(silenced(s), gateways, fresh, now), s.epoch),
        forall|gw: usize, src: SocketAddr, buf: Seq<u8>, role: Role|
            is_current(#[trigger] dispatched(s, gw, src, buf, role, now, fresh), s.epoch),
        is_current(passed(s, now, fresh), s.epoch),
{
    if let Some(a) = s.audio {
        lemma_byes_sent(s, sink_ids(a.sinks));
    }
    assert forall|gw: usize, src: SocketAddr, buf: Seq<u8>, role: Role| is_current(
        #[trigger] dispatched(s, gw, src, buf, role, now, fresh),
        s.epoch,
    ) by {
        law_events_only_add_to_the_outbox(s, gw, src, buf, role, now, fresh);
    }
    let src = SocketAddr::V4(SocketAddrV4 { ip: 0, port: 0 });
    law_events_only_add_to_the_outbox(s, 0, src, Seq::empty(), Role::Audio, now, fresh);
}

/// Each socket has its protocol: both discovery sockets gossip, the measurement
/// socket pings and pongs, the audio socket audio.
pub proof fn law_sockets_have_their_protocols(
    s: StateView,
    gw: usize,
    src: SocketAddr,
    buf: Seq<u8>,
    now: i64,
    fresh: NodeId,
)
    ensures
        dispatched(s, gw, src, buf, Role::McastDiscovery, now, fresh) == discovery_received(
            s,
            gw,
            src,
            buf,
            now,
            fresh,
        ),
        dispatched(s, gw, src, buf, Role::UnicastDiscovery, now, fresh) == dispatched(
            s,
            gw,
            src,
            buf,
            Role::McastDiscovery,
            now,
            fresh,
        ),
        dispatched(s, gw, src, buf, Role::Measurement, now, fresh) == measurement_received(
            s,
            gw,
            src,
            buf,
            now,
        ),
        dispatched(s, gw, src, buf, Role::Audio, now, fresh) == audio_received(
            s,
            gw,
            src,
            buf,
            now,
        ),
{
}

/// A peer that goes silent sends nothing, and is off the network; it keeps its
/// identifiers, its timeline, and what the application sees.
pub proof fn law_crash_is_silent(s: StateView)
    ensures
        ({
            let t = silenced(s);
            &&& t.outbox == s.outbox
            &&& !t.enabled
            &&& t.epoch != s.epoch
            &&& t.peers.len() == 0
            &&& t.gateways.len() == 0
            &&& t.measurement is None
            &&& t.pending.len() == 0
            &&& t.broadcast_due is None
            &&& t.node == s.node
            &&& t.session == s.session
            &&& t.timeline == s.timeline
            &&& t.ghost_offset == s.ghost_offset
            &&& t.app_playing == s.app_playing
            &&& t.sst_sync == s.sst_sync
        }),
{
}

} // verus!
