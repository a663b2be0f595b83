//! Session election: joining a session, founding a fresh one.

use vstd::prelude::*;

use crate::engine::Engine;
use crate::engine::send::broadcast_scheduled;
use crate::engine::state::{
    is_clock, is_tempo, state_ok, PeerEntry, State, StateView, JOIN_EPSILON, REMEASURE_PERIOD,
};
use crate::math::{
    beats_at_ghost, beats_of, beats_wrapped, clamp_tempo, clamped_tempo, fits64,
    lemma_rounding_adds,
    lemma_wrap64_fits, rounded, wrap64, wrapping_sum,
};
use crate::table::{law_with, lookup, with, Route};
use crate::wire::types::{
    id_before, law_id_order_is_strict, law_id_order_is_total, stopped, NodeId, SessionId,
    StartStopState, Timeline,
};

verus! {

/// The join rule: the session with the greater ghost time wins, and of two
/// within ±ε the one with the byte-wise lesser identifier. (Ghost times differ
/// by the difference of the offsets at any instant, both slopes being 1.)
pub open spec fn join_wins(
    sess: SessionId,
    offset: i64,
    current: SessionId,
    current_offset: i64,
) -> bool {
    let diff = offset - current_offset;
    &&& sess != current
    &&& diff > JOIN_EPSILON || (-JOIN_EPSILON < diff < JOIN_EPSILON && id_before(sess, current))
}

/// A timeline as a receiver takes it over: its tempo clamped.
pub open spec fn adopted(tl: Timeline) -> Timeline {
    Timeline { tempo: clamped_tempo(tl.tempo), ..tl }
}

/// The state after the join rule was applied to a measured session.
pub open spec fn join_evaluated(
    s: StateView,
    sess: SessionId,
    offset: i64,
    now: i64,
) -> StateView {
    if join_wins(sess, offset, s.session, s.ghost_offset) {
        broadcast_scheduled(
            StateView {
                measured: with(s.measured, s.session, s.ghost_offset),
                session: sess,
                ghost_offset: offset,
                timeline: match lookup(s.foreign_timelines, sess) {
                    Some(tl) => adopted(tl),
                    None => s.timeline,
                },
                held_stst: stopped(),
                session_member_seen: true,
                next_remeasure_at: Some((now + REMEASURE_PERIOD) as i64),
                ..s
            },
            now,
        )
    } else {
        s
    }
}

/// The beat at local time `now`.
pub open spec fn beat_at(s: StateView, now: i64) -> i64 {
    beats_wrapped(s.timeline, wrap64(now + s.ghost_offset))
}

/// The state after a fresh session was founded: new identifiers, ghost time 0
/// at the founding moment, and a timeline that continues the beat.
pub open spec fn session_reset(s: StateView, now: i64, fresh: NodeId) -> StateView {
    broadcast_scheduled(
        StateView {
            measured: with(s.measured, s.session, s.ghost_offset),
            node: fresh,
            session: fresh,
            ghost_offset: (-now) as i64,
            timeline: Timeline {
                tempo: s.timeline.tempo,
                beat_origin: beat_at(s, now),
                time_origin: 0,
            },
            held_stst: StartStopState {
                is_playing: s.held_stst.is_playing,
                beats: beat_at(s, now),
                timestamp: 0,
            },
            session_member_seen: false,
            next_remeasure_at: None,
            ..s
        },
        now,
    )
}

/// Whether a peer entry is of a member of the session.
pub open spec fn is_member(e: (Route, PeerEntry), session: SessionId) -> bool {
    e.1.state.session == Some(session)
}

/// Whether a peer is known to be in the session.
pub open spec fn has_member(peers: Seq<(Route, PeerEntry)>, session: SessionId) -> bool {
    exists|i: int| 0 <= i < peers.len() && is_member(#[trigger] peers[i], session)
}

/// The state after the loss of the last other member was noticed.
pub open spec fn loss_checked(s: StateView, now: i64, fresh: NodeId) -> StateView {
    if s.session_member_seen && !has_member(s.peers, s.session) {
        session_reset(s, now, fresh)
    } else {
        s
    }
}

impl Engine {
    /// Apply the join rule to a session whose ghost offset is known.
    pub fn evaluate_join(&self, st: &mut State, sess: SessionId, offset: i64, now: i64)
        requires
            is_clock(now),
            state_ok(old(st)@),
        ensures
            final(st)@ == join_evaluated(old(st)@, sess, offset, now),
            state_ok(final(st)@),
    {
        if sess == st.session {
            return;
        }
        let diff: i128 = offset as i128 - st.ghost_offset as i128;
        let near: bool = -(JOIN_EPSILON as i128) < diff && diff < JOIN_EPSILON as i128;
        let join = diff > JOIN_EPSILON as i128 || (near && sess.is_before(&st.session));
        if !join {
            return;
        }
        // The abandoned session is retained with its transform.
        let old_session = st.session;
        let old_offset = st.ghost_offset;
        st.measured.insert(old_session, old_offset);
        st.session = sess;
        st.ghost_offset = offset;
        if let Some(tl) = st.foreign_timelines.get(&sess) {
            st.timeline = Timeline {
                tempo: clamp_tempo(tl.tempo),
                beat_origin: tl.beat_origin,
                time_origin: tl.time_origin,
            };
        }
        // Joining resets the local start/stop state.
        st.held_stst = StartStopState::default();
        st.session_member_seen = true;
        st.next_remeasure_at = Some(now + REMEASURE_PERIOD);
        self.schedule_broadcast(st, now);
    }

    /// Found a fresh session: new identifier, new transform, timeline
    /// continuing the local beat/tempo seamlessly.
    pub fn reset_session(&self, st: &mut State, now: i64, fresh: NodeId)
        requires
            is_clock(now),
            state_ok(old(st)@),
        ensures
            final(st)@ == session_reset(old(st)@, now, fresh),
            state_ok(final(st)@),
    {
        let beats_now = beats_at_ghost(&st.timeline, wrapping_sum(now, st.ghost_offset));
        let session = st.session;
        let offset = st.ghost_offset;
        st.measured.insert(session, offset);
        st.node = fresh;
        st.session = fresh;
        st.ghost_offset = -now;
        st.timeline = Timeline {
            tempo: st.timeline.tempo,
            beat_origin: beats_now,
            time_origin: 0,
        };
        st.held_stst = StartStopState {
            is_playing: st.held_stst.is_playing,
            beats: beats_now,
            timestamp: 0,
        };
        st.session_member_seen = false;
        st.next_remeasure_at = None;
        self.schedule_broadcast(st, now);
    }

    /// Found a fresh session when the last other member of ours is gone. Only
    /// then is `fresh` used.
    pub fn check_session_loss(&self, st: &mut State, now: i64, fresh: NodeId)
        requires
            is_clock(now),
            state_ok(old(st)@),
        ensures
            final(st)@ == loss_checked(old(st)@, now, fresh),
            state_ok(final(st)@),
    {
        if !st.session_member_seen {
            return;
        }
        if !any_member(st) {
            self.reset_session(st, now, fresh);
        }
    }
}

/// Whether a peer is known to be in our session.
pub fn any_member(st: &State) -> (r: bool)
    ensures
        r == has_member(st@.peers, st@.session),
{
    let mut i: usize = 0;
    while i < st.peers.items.len()
        invariant
            i <= st.peers.items@.len(),
            forall|j: int| 0 <= j < i ==> !is_member(#[trigger] st@.peers[j], st@.session),
        decreases st.peers.items@.len() - i,
    {
        if let Some(session) = st.peers.items[i].1.state.session {
            if session == st.session {
                proof {
                    assert(is_member(st@.peers[i as int], st@.session));
                }
                return true;
            }
        }
        i = i + 1;
    }
    false
}

// -------------------------------------------------------------------- laws

/// Of two sessions never each is to be joined from the other: a peer of one
/// and a peer of the other do not change places.
pub proof fn law_join_is_one_way(a: SessionId, offset_a: i64, b: SessionId, offset_b: i64)
    ensures
        !(join_wins(a, offset_a, b, offset_b) && join_wins(b, offset_b, a, offset_a)),
{
    law_id_order_is_strict(a, b);
}

/// Of two different sessions one is to be joined from the other, unless their
/// ghost times differ by exactly ε.
pub proof fn law_join_decides(a: SessionId, offset_a: i64, b: SessionId, offset_b: i64)
    requires
        a != b,
        offset_a - offset_b != JOIN_EPSILON,
        offset_b - offset_a != JOIN_EPSILON,
    ensures
        join_wins(a, offset_a, b, offset_b) != join_wins(b, offset_b, a, offset_a),
{
    law_join_is_one_way(a, offset_a, b, offset_b);
    law_id_order_is_total(a, b);
}

/// Two peers that measured each other's sessions settle on one of them, and
/// then have the same ghost time. (`clock` is what the second peer's clock is
/// ahead of the first one's; each has measured the other's session right.) It
/// fails only if the ghost times differ by exactly ε.
pub proof fn law_two_peers_settle_on_one_session(
    a: StateView,
    b: StateView,
    b_seen_by_a: i64,
    a_seen_by_b: i64,
    clock: int,
    now_a: i64,
    now_b: i64,
)
    requires
        a.session != b.session,
        b_seen_by_a == b.ghost_offset + clock,
        a_seen_by_b == a.ghost_offset - clock,
        b_seen_by_a - a.ghost_offset != JOIN_EPSILON,
        a.ghost_offset - b_seen_by_a != JOIN_EPSILON,
    ensures
        ({
            let a2 = join_evaluated(a, b.session, b_seen_by_a, now_a);
            let b2 = join_evaluated(b, a.session, a_seen_by_b, now_b);
            &&& a2.session == b2.session
            &&& a2.session == a.session || a2.session == b.session
            &&& a2.ghost_offset == b2.ghost_offset + clock
        }),
{
    law_join_decides(b.session, b_seen_by_a, a.session, a.ghost_offset);
}

/// Applying the rule again changes nothing: a session once joined, or refused,
/// stays so.
pub proof fn law_join_is_idempotent(s: StateView, sess: SessionId, offset: i64, now: i64)
    ensures
        join_evaluated(join_evaluated(s, sess, offset, now), sess, offset, now) == join_evaluated(
            s,
            sess,
            offset,
            now,
        ),
{
}

/// A session that was left is not rejoined by the offset it is retained with.
pub proof fn law_left_session_is_retained(s: StateView, sess: SessionId, offset: i64, now: i64)
    requires
        state_ok(s),
        join_wins(sess, offset, s.session, s.ghost_offset),
    ensures
        ({
            let t = join_evaluated(s, sess, offset, now);
            &&& t.session == sess
            &&& lookup(t.measured, s.session) == Some(s.ghost_offset)
            &&& !join_wins(s.session, s.ghost_offset, t.session, t.ghost_offset)
        }),
{
    law_with(s.measured, s.session, s.ghost_offset, s.session);
    law_join_is_one_way(sess, offset, s.session, s.ghost_offset);
}

/// Founding a fresh session is seamless: the beat at that moment and the tempo
/// stay.
pub proof fn law_reset_keeps_the_beat(s: StateView, now: i64, fresh: NodeId)
    requires
        is_clock(now),
        is_tempo(s.timeline.tempo),
    ensures
        beat_at(session_reset(s, now, fresh), now) == beat_at(s, now),
        session_reset(s, now, fresh).timeline.tempo == s.timeline.tempo,
        session_reset(s, now, fresh).session == fresh,
        session_reset(s, now, fresh).held_stst.is_playing == s.held_stst.is_playing,
{
    let t = session_reset(s, now, fresh);
    let tempo = s.timeline.tempo as int;
    lemma_wrap64_fits(0);
    lemma_wrap64_fits(beat_at(s, now) as int);
    vstd::arithmetic::div_mod::lemma_basic_div(tempo / 2, tempo);
    assert(rounded(0, tempo) == 0);
}

/// Whether every step to the beat at local time `now` fits in 64 bits.
pub open spec fn beat_fits(s: StateView, now: i64) -> bool {
    let g = now + s.ghost_offset;
    &&& fits64(g)
    &&& fits64(g - s.timeline.time_origin)
    &&& fits64(beats_of(s.timeline, g))
}

/// From then on the beats of the two timelines stay together: at no time are
/// they more than the rounding, one micro-beat, apart.
pub proof fn law_reset_keeps_later_beats(s: StateView, now: i64, fresh: NodeId, later: i64)
    requires
        is_clock(now),
        is_clock(later),
        is_tempo(s.timeline.tempo),
        beat_fits(s, now),
        beat_fits(s, later),
        beat_fits(session_reset(s, now, fresh), later),
    ensures
        -1 <= beat_at(session_reset(s, now, fresh), later) - beat_at(s, later) <= 1,
{
    let tl = s.timeline;
    let t = session_reset(s, now, fresh);
    let tempo = tl.tempo as int;
    let g = now + s.ghost_offset;
    let elapsed = later - now;
    lemma_beat_at(s, now);
    lemma_beat_at(s, later);
    lemma_beat_at(t, later);
    let a = (g - tl.time_origin) * 1_000_000;
    let b = elapsed * 1_000_000;
    lemma_rounding_adds(a, b, tempo);
    assert(a + b == (g + elapsed - tl.time_origin) * 1_000_000);
}

proof fn lemma_beat_at(s: StateView, now: i64)
    requires
        beat_fits(s, now),
    ensures
        beat_at(s, now) == beats_of(s.timeline, now + s.ghost_offset),
{
    let g = now + s.ghost_offset;
    lemma_wrap64_fits(g);
    lemma_wrap64_fits(g - s.timeline.time_origin);
    lemma_wrap64_fits(beats_of(s.timeline, g));
}

} // verus!
