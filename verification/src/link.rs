//! A session peer, as an application uses it.
//!
//! Beats and quanta are micro-beats, tempi are microseconds per beat, times are
//! microseconds on the peer's own clock, which starts at 0.

use vstd::prelude::*;

use crate::{math, runtime};
use crate::audio::effects::{
    law_withdrawals_reach_every_peer, lemma_byes_add, tells_withdrawal, withdraws,
};
use crate::audio::ops;
use crate::audio::ops::{
    audio_disabled, audio_enabled, audio_shut, channel_published, channel_subscribed,
    channel_unsubscribed, channel_withdrawn, receiving, sink_ids,
};
use crate::audio::outbound::{
    any_unexpired, find_sink, has_length, is_requested, lemma_byes_sent, material_has_length,
    sink_written, write_sink,
};
use crate::audio::source::{chunk_views, ReceivedChunk, ReceivedChunkView, SourceView};
use crate::audio::state::{source_ok, AudioView};
use crate::channels::{list_channels, listing, visible_views, VisibleChannel, VisibleChannelView};
use crate::engine::{Config, Engine};
use crate::engine::effects::{
    is_plain_gateway, lemma_alive_reads_back, lemma_broadcast_passes_on, passes_on, same_but_sent,
    tells_at,
};
use crate::engine::elect::{beat_at, has_member, is_member};
use crate::engine::gossip::{start_stop_heard, timeline_heard};
use crate::engine::send::{alive_bytes, alives, broadcast_scheduled};
use crate::engine::state::{
    datagram_views, is_clock, is_tempo, state_ok, Datagram, Gateway, Outlet, PeerEntry, State, StateView,
};
use crate::math::{
    app_beat_of, app_beat_wrapped, beat_under_app_beat, beats_of, clamp_tempo,
    clamped_tempo, fits64, ghost_of, ghost_of_app_beat, ghost_of_app_beat_wrapped, ghost_wrapped,
    law_app_beat_is_exact, law_app_time_is_exact, law_beat_time_directions_compose,
    law_rounded_is_nearest, law_time_beat_time, lemma_alignment_is_a_shift, lemma_rounding_adds,
    lemma_wrap64_fits, phase_of, rounded, wrap64, wrapping_difference, wrapping_sum,
};
use crate::random::{random_id, NoRandomness};
use crate::runtime::{farewells, joined, left, silenced};
use crate::table::{law_with, lemma_place, lookup, with, Route, Table};
use crate::wire::discovery;
use crate::wire::types::{contains_id, stopped, Id, NodeId, SessionId, StartStopState, Timeline};

verus! {

// ----------------------------------------------------------------- founding

/// A peer that has not joined the network yet.
pub open spec fn fresh_state(node: NodeId, tempo: i64) -> StateView {
    StateView {
        enabled: false,
        epoch: 0,
        node,
        session: node,
        timeline: Timeline { tempo: clamped_tempo(tempo), beat_origin: 0, time_origin: 0 },
        ghost_offset: 0,
        held_stst: stopped(),
        app_playing: false,
        sst_sync: false,
        gateways: Seq::empty(),
        peers: Seq::empty(),
        session_member_seen: false,
        foreign_timelines: Seq::empty(),
        measured: Seq::empty(),
        measurement: None,
        pending: Seq::empty(),
        last_alive_at: 0,
        last_broadcast_at: 0,
        broadcast_due: None,
        next_remeasure_at: None,
        audio: None,
        outbox: Seq::empty(),
    }
}

impl State {
    /// A peer that has not joined the network yet.
    pub fn new(node: NodeId, tempo: i64) -> (st: State)
        ensures
            st@ == fresh_state(node, tempo),
            state_ok(st@),
    {
        let st = State {
            enabled: false,
            epoch: 0,
            node,
            session: node,
            timeline: Timeline { tempo: clamp_tempo(tempo), beat_origin: 0, time_origin: 0 },
            ghost_offset: 0,
            held_stst: StartStopState::default(),
            app_playing: false,
            sst_sync: false,
            gateways: Vec::new(),
            peers: Table::new(),
            session_member_seen: false,
            foreign_timelines: Table::new(),
            measured: Table::new(),
            measurement: None,
            pending: Vec::new(),
            last_alive_at: 0,
            last_broadcast_at: 0,
            broadcast_due: None,
            next_remeasure_at: None,
            audio: None,
            outbox: Vec::new(),
        };
        proof {
            assert(st@.outbox =~= Seq::empty());
        }
        st
    }
}

// ------------------------------------------------------------------ members

/// The nodes in a session, by entry.
pub open spec fn member_nodes(peers: Seq<(Route, PeerEntry)>, session: SessionId) -> Seq<NodeId>
    decreases peers.len(),
{
    if peers.len() == 0 {
        Seq::empty()
    } else {
        let front = member_nodes(peers.drop_last(), session);
        if is_member(peers.last(), session) {
            front.push(peers.last().0.id)
        } else {
            front
        }
    }
}

/// Distinct nodes visible in the current session (0 while disabled).
pub open spec fn peer_count(s: StateView) -> nat {
    if s.enabled {
        member_nodes(s.peers, s.session).to_set().len()
    } else {
        0
    }
}

/// Distinct nodes visible in the current session (0 while disabled).
pub fn count_peers(st: &State) -> (n: usize)
    ensures
        n == peer_count(st@),
{
    if !st.enabled {
        return 0;
    }
    let ghost all = st@.peers;
    let ghost session = st@.session;
    let mut nodes: Vec<NodeId> = Vec::new();
    let mut i: usize = 0;
    proof {
        assert(all.take(0) =~= Seq::empty());
        assert(nodes@.to_set() =~= member_nodes(all.take(0), session).to_set());
    }
    while i < st.peers.items.len()
        invariant
            i <= st.peers.items@.len(),
            all == st@.peers,
            session == st@.session,
            nodes@.no_duplicates(),
            nodes@.to_set() == member_nodes(all.take(i as int), session).to_set(),
        decreases st.peers.items@.len() - i,
    {
        let node = st.peers.items[i].0.id;
        let ghost before = nodes@;
        let ghost members = member_nodes(all.take(i as int), session);
        proof {
            assert(all.take(i + 1).drop_last() =~= all.take(i as int));
            assert(all.take(i + 1).last() == all[i as int]);
            members.lemma_push_to_set_commute(node);
            before.lemma_push_to_set_commute(node);
        }
        let inside = match st.peers.items[i].1.state.session {
            Some(theirs) => theirs == st.session,
            None => false,
        };
        if inside {
            if contains_id(&nodes, &node) {
                proof {
                    assert(before.to_set().contains(node));
                    assert(before.to_set().insert(node) =~= before.to_set());
                }
            } else {
                nodes.push(node);
            }
        }
        i = i + 1;
    }
    proof {
        assert(all.take(i as int) =~= all);
        nodes@.unique_seq_to_set();
    }
    nodes.len()
}

// ----------------------------------------------------------------- snapshot

/// A consistent view of the session at one moment.
///
/// Hosts with realtime audio threads poll [`Link::capture_session`] from
/// another thread and extrapolate on the audio thread with
/// [`SessionSnapshot::beat_at`] and [`SessionSnapshot::phase_at`], which are
/// pure arithmetic.
#[derive(Debug, Clone, Copy, PartialEq, Eq)]
pub struct SessionSnapshot {
    /// Local time at which the snapshot was captured.
    pub at_micros: i64,
    /// The quantum `beat` and `phase` were captured at.
    pub quantum: i64,
    /// Session tempo.
    pub tempo: i64,
    /// Application beat at `at_micros` for `quantum`.
    pub beat: i64,
    /// Phase of `beat` within `quantum`, in `[0, quantum)` (0 when
    /// `quantum <= 0`).
    pub phase: i64,
    /// Transport state visible to the application.
    pub is_playing: bool,
    /// Whether the peer is enabled (participating).
    pub enabled: bool,
    /// Number of other peers in the current session.
    pub num_peers: usize,
    /// The current session identifier.
    pub session_id: [u8; 8],
}

/// The application beat that a snapshot extrapolates to.
pub open spec fn extrapolated(snap: SessionSnapshot, micros: int) -> int {
    snap.beat + rounded((micros - snap.at_micros) * 1_000_000, snap.tempo as int)
}

/// What [`SessionSnapshot::beat_at`] computes: the distance in time and the sum
/// wrap.
pub open spec fn snapshot_beat(snap: SessionSnapshot, micros: i64) -> i64 {
    wrap64(
        snap.beat + rounded(
            wrap64(micros - snap.at_micros) as int * 1_000_000,
            snap.tempo as int,
        ),
    )
}

/// What [`SessionSnapshot::phase_at`] computes.
pub open spec fn snapshot_phase(snap: SessionSnapshot, micros: i64) -> int {
    phase_of(snapshot_beat(snap, micros) as int, snap.quantum as int)
}

impl SessionSnapshot {
    /// Extrapolate the application beat to local time `micros`.
    ///
    /// Exact for as long as the session timeline is unchanged after the
    /// capture; after a tempo or origin change a newer snapshot supersedes
    /// this one.
    pub fn beat_at(&self, micros: i64) -> (r: i64)
        requires
            self.tempo > 0,
        ensures
            r == snapshot_beat(*self, micros),
            r == wrap64(
                self.beat + rounded(
                    wrap64(micros - self.at_micros) as int * 1_000_000,
                    self.tempo as int,
                ),
            ),
            fits64(micros - self.at_micros) && fits64(
                extrapolated(*self, micros as int),
            ) ==> r == extrapolated(*self, micros as int),
    {
        let tl = Timeline {
            tempo: self.tempo,
            beat_origin: self.beat,
            time_origin: self.at_micros,
        };
        math::beats_at_ghost(&tl, micros)
    }

    /// Extrapolated phase within the captured quantum at local time `micros`,
    /// in `[0, quantum)` (0 when `quantum <= 0`).
    pub fn phase_at(&self, micros: i64) -> (r: i64)
        requires
            self.tempo > 0,
        ensures
            r == snapshot_phase(*self, micros),
            r == phase_of(
                wrap64(
                    self.beat + rounded(
                        wrap64(micros - self.at_micros) as int * 1_000_000,
                        self.tempo as int,
                    ),
                ) as int,
                self.quantum as int,
            ),
    {
        math::phase(self.beat_at(micros), self.quantum)
    }
}

// --------------------------------------------------------------------- link

/// The application beat at local time `micros`.
pub open spec fn app_beat(s: StateView, micros: i64, quantum: i64) -> i64 {
    app_beat_wrapped(s.timeline, wrap64(micros + s.ghost_offset), quantum)
}

/// The phase of the application beat at local time `micros`.
pub open spec fn app_phase(s: StateView, micros: i64, quantum: i64) -> int {
    phase_of(app_beat(s, micros, quantum) as int, quantum as int)
}

/// The view of a session at one moment.
pub open spec fn captured(s: StateView, quantum: i64, now: i64) -> SessionSnapshot {
    SessionSnapshot {
        at_micros: now,
        quantum,
        tempo: s.timeline.tempo,
        beat: app_beat(s, now, quantum),
        phase: app_phase(s, now, quantum) as i64,
        is_playing: s.app_playing,
        enabled: s.enabled,
        num_peers: peer_count(s) as usize,
        session_id: s.session.0,
    }
}

/// The local time at which an application beat falls.
pub open spec fn time_of_beat(s: StateView, beat: i64, quantum: i64) -> i64 {
    wrap64(ghost_of_app_beat_wrapped(s.timeline, beat, quantum) - s.ghost_offset)
}

/// The state after the tempo was set: the timeline goes on from the current
/// beat, or from just after its old origin where the beat is not beyond it, so
/// that its beat origin is strictly greater.
pub open spec fn tempo_set(s: StateView, tempo: i64, now: i64) -> StateView {
    let next = wrap64(s.timeline.beat_origin + 1);
    let beat_origin = if beat_at(s, now) >= next {
        beat_at(s, now)
    } else {
        next
    };
    broadcast_scheduled(
        StateView {
            timeline: Timeline {
                tempo: clamped_tempo(tempo),
                beat_origin,
                time_origin: ghost_wrapped(s.timeline, beat_origin),
            },
            ..s
        },
        now,
    )
}

/// The state after the transport was started or stopped. In sync it is gossiped
/// with a timestamp greater than that of any state held before.
pub open spec fn playing_set(s: StateView, playing: bool, now: i64) -> StateView {
    let t = StateView { app_playing: playing, ..s };
    if s.sst_sync {
        let ghost_now = wrap64(now + s.ghost_offset);
        let next = wrap64(s.held_stst.timestamp + 1);
        broadcast_scheduled(
            StateView {
                held_stst: StartStopState {
                    is_playing: playing,
                    beats: beat_at(s, now),
                    timestamp: if ghost_now >= next {
                        ghost_now
                    } else {
                        next
                    },
                },
                ..t
            },
            now,
        )
    } else {
        t
    }
}

/// The state after start/stop sync was switched: on joining in, the application
/// follows the transport state that is held, if any.
pub open spec fn sync_set(s: StateView, enabled: bool) -> StateView {
    StateView {
        sst_sync: enabled,
        app_playing: if enabled && s.held_stst != stopped() {
            s.held_stst.is_playing
        } else {
            s.app_playing
        },
        ..s
    }
}

/// The audio state with one source's inbox emptied.
pub open spec fn polled(s: StateView, channel: Id) -> StateView {
    match s.audio {
        Some(a) => match lookup(a.sources, channel) {
            Some(source) => StateView {
                audio: Some(
                    AudioView {
                        sources: with(
                            a.sources,
                            channel,
                            SourceView { inbox: Seq::empty(), ..source },
                        ),
                        ..a
                    },
                ),
                ..s
            },
            None => s,
        },
        None => s,
    }
}

/// The chunks that wait on a subscription.
pub open spec fn waiting(s: StateView, channel: Id) -> Seq<ReceivedChunkView> {
    match s.audio {
        Some(a) => match lookup(a.sources, channel) {
            Some(source) => source.inbox,
            None => Seq::empty(),
        },
        None => Seq::empty(),
    }
}

/// A session peer. Starts **disabled**; [`Link::enable`] joins the network.
pub struct Link {
    pub eng: Engine,
    pub st: State,
}

impl Link {
    /// Create a disabled peer with the given initial tempo, on the loopback
    /// interface and with audio datagrams of the default size. It fails only if
    /// no identifier can be drawn; [`Link::with_node`] takes one that was.
    pub fn new(tempo: i64) -> (r: Result<Link, NoRandomness>)
        ensures
            r matches Ok(link) ==> link.eng.config.gateways@ == seq![[127u8, 0, 0, 1]]
                && !link.eng.config.fill_audio_datagrams && exists|node: NodeId|
                link.st@ == #[trigger] fresh_state(node, tempo) && state_ok(link.st@),
    {
        Link::with_config(tempo, Config::default())
    }

    /// Create a disabled peer with the given initial tempo and configuration. It
    /// fails only if no identifier can be drawn; [`Link::with_node`] takes one
    /// that was.
    pub fn with_config(tempo: i64, config: Config) -> (r: Result<Link, NoRandomness>)
        ensures
            r matches Ok(link) ==> link.eng.config == config && exists|node: NodeId|
                link.st@ == #[trigger] fresh_state(node, tempo) && state_ok(link.st@),
    {
        let node = random_id()?;
        Ok(Link::with_node(node, tempo, config))
    }

    /// A disabled peer under the given identifier.
    pub fn with_node(node: NodeId, tempo: i64, config: Config) -> (link: Link)
        ensures
            link.eng.config == config,
            link.st@ == fresh_state(node, tempo),
            state_ok(link.st@),
    {
        let st = State::new(node, tempo);
        Link { eng: Engine::new(config), st }
    }

    /// Join the network through the given gateways.
    pub fn enable(&mut self, gateways: Vec<Gateway>, now: i64) -> (r: Result<(), NoRandomness>)
        requires
            is_clock(now),
            state_ok(old(self).st@),
        ensures
            match r {
                Ok(()) => exists|fresh: NodeId|
                    final(self).st@ == #[trigger] joined(old(self).st@, gateways@, fresh, now),
                Err(_) => final(self).st@ == old(self).st@,
            },
            old(self).st@.enabled ==> r is Ok && final(self).st@ == old(self).st@,
            final(self).eng == old(self).eng,
            state_ok(final(self).st@),
    {
        runtime::enable(&self.eng, &mut self.st, gateways, now)
    }

    /// Leave the network.
    pub fn disable(&mut self)
        requires
            state_ok(old(self).st@),
        ensures
            final(self).st@ == left(old(self).st@),
            final(self).eng == old(self).eng,
            state_ok(final(self).st@),
    {
        runtime::disable(&mut self.st);
    }

    pub fn is_enabled(&self) -> (r: bool)
        ensures
            r == self.st@.enabled,
    {
        self.st.enabled
    }

    /// Number of other peers in the current session.
    pub fn num_peers(&self) -> (n: usize)
        ensures
            n == peer_count(self.st@),
    {
        count_peers(&self.st)
    }

    /// Capture tempo, beat, phase, transport, and membership at one moment.
    pub fn capture_session(&self, quantum: i64, now: i64) -> (snap: SessionSnapshot)
        requires
            state_ok(self.st@),
        ensures
            snap == captured(self.st@, quantum, now),
            snap == (SessionSnapshot {
                at_micros: now,
                quantum,
                tempo: self.st@.timeline.tempo,
                beat: app_beat(self.st@, now, quantum),
                phase: phase_of(
                    app_beat(self.st@, now, quantum) as int,
                    quantum as int,
                ) as i64,
                is_playing: self.st@.app_playing,
                enabled: self.st@.enabled,
                num_peers: peer_count(self.st@) as usize,
                session_id: self.st@.session.0,
            }),
    {
        let b = self.beat_at_time(now, quantum);
        SessionSnapshot {
            at_micros: now,
            quantum,
            tempo: self.st.timeline.tempo,
            beat: b,
            phase: math::phase(b, quantum),
            is_playing: self.st.app_playing,
            enabled: self.st.enabled,
            num_peers: count_peers(&self.st),
            session_id: self.st.session.0,
        }
    }

    /// Session tempo.
    pub fn tempo(&self) -> (r: i64)
        ensures
            r == self.st@.timeline.tempo,
    {
        self.st.timeline.tempo
    }

    /// Set the session tempo (clamped to 20–999 bpm) and gossip it.
    pub fn set_tempo(&mut self, tempo: i64, now: i64)
        requires
            is_clock(now),
            state_ok(old(self).st@),
        ensures
            final(self).st@ == tempo_set(old(self).st@, tempo, now),
            final(self).eng == old(self).eng,
            state_ok(final(self).st@),
    {
        let ghost_now = wrapping_sum(now, self.st.ghost_offset);
        let beats_now = math::beats_at_ghost(&self.st.timeline, ghost_now);
        let next = wrapping_sum(self.st.timeline.beat_origin, 1);
        let beat_origin = if beats_now >= next {
            beats_now
        } else {
            next
        };
        let time_origin = math::ghost_at_beats(&self.st.timeline, beat_origin);
        self.st.timeline = Timeline { tempo: clamp_tempo(tempo), beat_origin, time_origin };
        self.eng.schedule_broadcast(&mut self.st, now);
    }

    /// The application beat value for local time `micros` at `quantum`.
    pub fn beat_at_time(&self, micros: i64, quantum: i64) -> (r: i64)
        requires
            state_ok(self.st@),
        ensures
            r == app_beat(self.st@, micros, quantum),
    {
        math::app_beat_at_ghost(
            &self.st.timeline,
            wrapping_sum(micros, self.st.ghost_offset),
            quantum,
        )
    }

    /// The phase within `quantum` at local time `micros`, in `[0, quantum)`.
    pub fn phase_at_time(&self, micros: i64, quantum: i64) -> (r: i64)
        requires
            state_ok(self.st@),
        ensures
            r == app_phase(self.st@, micros, quantum),
            r == phase_of(app_beat(self.st@, micros, quantum) as int, quantum as int),
    {
        math::phase(self.beat_at_time(micros, quantum), quantum)
    }

    /// The local time at which application beat `beat` falls (inverse of
    /// [`Link::beat_at_time`], with the composing tie-break).
    pub fn time_at_beat(&self, beat: i64, quantum: i64) -> (r: i64)
        ensures
            r == time_of_beat(self.st@, beat, quantum),
    {
        let ghost_time = math::ghost_at_app_beat(&self.st.timeline, beat, quantum);
        wrapping_difference(ghost_time, self.st.ghost_offset)
    }

    /// The transport state visible to the application.
    pub fn is_playing(&self) -> (r: bool)
        ensures
            r == self.st@.app_playing,
    {
        self.st.app_playing
    }

    /// Start/stop the transport. With start/stop sync enabled this is gossiped;
    /// otherwise it is local only.
    pub fn set_is_playing(&mut self, playing: bool, now: i64)
        requires
            is_clock(now),
            state_ok(old(self).st@),
        ensures
            final(self).st@ == playing_set(old(self).st@, playing, now),
            final(self).eng == old(self).eng,
            state_ok(final(self).st@),
    {
        self.st.app_playing = playing;
        if self.st.sst_sync {
            let ghost_now = wrapping_sum(now, self.st.ghost_offset);
            let next = wrapping_sum(self.st.held_stst.timestamp, 1);
            self.st.held_stst = StartStopState {
                is_playing: playing,
                beats: math::beats_at_ghost(&self.st.timeline, ghost_now),
                timestamp: if ghost_now >= next {
                    ghost_now
                } else {
                    next
                },
            };
            self.eng.schedule_broadcast(&mut self.st, now);
        }
    }

    pub fn is_start_stop_sync_enabled(&self) -> (r: bool)
        ensures
            r == self.st@.sst_sync,
    {
        self.st.sst_sync
    }

    pub fn enable_start_stop_sync(&mut self, enabled: bool)
        requires
            state_ok(old(self).st@),
        ensures
            final(self).st@ == sync_set(old(self).st@, enabled),
            final(self).eng == old(self).eng,
            state_ok(final(self).st@),
    {
        self.st.sst_sync = enabled;
        if enabled && self.st.held_stst != StartStopState::default() {
            self.st.app_playing = self.st.held_stst.is_playing;
        }
    }

    /// Enable audio: advertise an audio endpoint per gateway and start the
    /// announcement/keepalive machinery.
    pub fn enable_audio(&mut self, peer_name: &str, now: i64)
        requires
            is_clock(now),
            state_ok(old(self).st@),
        ensures
            final(self).st@ == audio_enabled(
                old(self).st@,
                vstd::utf8::encode_utf8(peer_name@),
                now,
            ),
            final(self).eng == old(self).eng,
            state_ok(final(self).st@),
    {
        ops::enable(&self.eng, &mut self.st, peer_name, now);
    }

    /// Disable audio: withdraw all channels and stop advertising the audio
    /// endpoint.
    pub fn disable_audio(&mut self, now: i64)
        requires
            is_clock(now),
            state_ok(old(self).st@),
        ensures
            final(self).st@ == audio_disabled(old(self).st@, now),
            final(self).eng == old(self).eng,
            state_ok(final(self).st@),
    {
        ops::disable(&self.eng, &mut self.st, now);
    }

    pub fn is_audio_enabled(&self) -> (r: bool)
        ensures
            r == (self.st@.audio is Some),
    {
        self.st.audio.is_some()
    }

    /// Publish a channel (create a sink); returns its channel id, or nothing if
    /// audio is not enabled.
    pub fn publish_channel(&mut self, name: &str) -> (r: Result<Option<[u8; 8]>, NoRandomness>)
        requires
            state_ok(old(self).st@),
        ensures
            old(self).st@.audio is None ==> r == Ok::<Option<[u8; 8]>, NoRandomness>(None)
                && final(self).st@ == old(self).st@,
            old(self).st@.audio is Some ==> match r {
                Ok(Some(id)) => final(self).st@ == channel_published(
                    old(self).st@,
                    vstd::utf8::encode_utf8(name@),
                    Id(id),
                ),
                Ok(None) => false,
                Err(_) => final(self).st@ == old(self).st@,
            },
            final(self).eng == old(self).eng,
            state_ok(final(self).st@),
    {
        match ops::publish(&mut self.st, name) {
            Ok(Some(id)) => Ok(Some(id.0)),
            Ok(None) => Ok(None),
            Err(e) => Err(e),
        }
    }

    /// Withdraw a published channel.
    pub fn unpublish_channel(&mut self, id: [u8; 8])
        requires
            state_ok(old(self).st@),
        ensures
            final(self).st@ == channel_withdrawn(old(self).st@, Id(id)),
            final(self).eng == old(self).eng,
            state_ok(final(self).st@),
    {
        ops::unpublish(&mut self.st, Id(id));
    }

    /// Remote channels currently visible, sorted by peer name then channel
    /// name, deduplicated across gateways.
    pub fn visible_channels(&self) -> (v: Vec<VisibleChannel>)
        ensures
            visible_views(v@) == match self.st@.audio {
                Some(a) => listing(a.known),
                None => Seq::<VisibleChannelView>::empty(),
            },
    {
        match &self.st.audio {
            Some(audio) => list_channels(audio),
            None => {
                let v: Vec<VisibleChannel> = Vec::new();
                proof {
                    assert(visible_views(v@) =~= Seq::empty());
                }
                v
            },
        }
    }

    /// Subscribe to a remote channel: request it now and every 5 s.
    pub fn subscribe_channel(&mut self, id: [u8; 8], quantum: i64, now: i64)
        requires
            is_clock(now),
            state_ok(old(self).st@),
        ensures
            final(self).st@ == channel_subscribed(old(self).st@, Id(id), quantum, now),
            final(self).eng == old(self).eng,
            state_ok(final(self).st@),
    {
        ops::subscribe(&mut self.st, Id(id), quantum, now);
    }

    /// Drop a subscription.
    pub fn unsubscribe_channel(&mut self, id: [u8; 8])
        requires
            state_ok(old(self).st@),
        ensures
            final(self).st@ == channel_unsubscribed(old(self).st@, Id(id)),
            final(self).eng == old(self).eng,
            state_ok(final(self).st@),
    {
        ops::unsubscribe(&mut self.st, Id(id));
    }

    /// Write beat-stamped PCM into a published channel. `begin_app_beat` is the
    /// application beat (as returned by [`Link::beat_at_time`] at `quantum`) of
    /// the first frame; the sink transmits full datagrams to every unexpired
    /// requester. A sample rate above 0 is always in order; material without one
    /// has no length in beats. [`Link::can_write_channel`] tells where that matters.
    pub fn write_channel(
        &mut self,
        id: [u8; 8],
        samples: &[i16],
        sample_rate: u32,
        channels: u8,
        begin_app_beat: i64,
        quantum: i64,
        now: i64,
    )
        requires
            is_clock(now),
            state_ok(old(self).st@),
            has_length(
                old(self).st@,
                Id(id),
                samples@,
                sample_rate,
                channels,
                begin_app_beat,
                quantum,
                old(self).eng.config.fill_audio_datagrams,
                now,
            ),
        ensures
            final(self).st@ == sink_written(
                old(self).st@,
                Id(id),
                samples@,
                sample_rate,
                channels,
                begin_app_beat,
                quantum,
                old(self).eng.config.fill_audio_datagrams,
                now,
            ),
            final(self).eng == old(self).eng,
            state_ok(final(self).st@),
    {
        write_sink(
            &self.eng,
            &mut self.st,
            Id(id),
            samples,
            sample_rate,
            channels,
            begin_app_beat,
            quantum,
            now,
        );
    }

    /// Whether [`Link::write_channel`] can take the material: it has a sample rate,
    /// or its length in beats is not asked for.
    pub fn can_write_channel(
        &self,
        id: [u8; 8],
        samples: &[i16],
        sample_rate: u32,
        channels: u8,
        begin_app_beat: i64,
        quantum: i64,
        now: i64,
    ) -> (r: bool)
        requires
            state_ok(self.st@),
        ensures
            r == has_length(
                self.st@,
                Id(id),
                samples@,
                sample_rate,
                channels,
                begin_app_beat,
                quantum,
                self.eng.config.fill_audio_datagrams,
                now,
            ),
    {
        material_has_length(
            &self.eng,
            &self.st,
            Id(id),
            samples,
            sample_rate,
            channels,
            begin_app_beat,
            quantum,
            now,
        )
    }

    /// Drain chunks received on a subscription, each mapped onto the local beat
    /// grid.
    pub fn poll_channel(&mut self, id: [u8; 8]) -> (v: Vec<ReceivedChunk>)
        requires
            state_ok(old(self).st@),
        ensures
            chunk_views(v@) == waiting(old(self).st@, Id(id)),
            final(self).st@ == polled(old(self).st@, Id(id)),
            final(self).eng == old(self).eng,
            state_ok(final(self).st@),
    {
        let mut v: Vec<ReceivedChunk> = Vec::new();
        proof {
            assert(chunk_views(v@) =~= Seq::empty());
        }
        if let Some(mut audio) = self.st.audio.take() {
            let ghost a = audio@;
            let n = audio.sources.index_of(&Id(id));
            if n < audio.sources.items.len() {
                let ghost before = a.sources[n as int].1;
                proof {
                    lemma_place(a.sources, Id(id));
                    assert(source_ok(before));
                }
                std::mem::swap(&mut v, &mut audio.sources.items[n].1.inbox);
                proof {
                    let after = SourceView { inbox: Seq::empty(), ..before };
                    assert(chunk_views(v@) =~= before.inbox);
                    assert(audio@.sources[n as int].1.inbox =~= Seq::empty());
                    assert(audio@.sources =~= with(a.sources, Id(id), after));
                    law_with(a.sources, Id(id), after, Id(id));
                    assert forall|j: int| 0 <= j < audio@.sources.len() implies source_ok(
                        (#[trigger] audio@.sources[j]).1,
                    ) by {
                        if j != n {
                            assert(audio@.sources[j] == a.sources[j]);
                        }
                    }
                }
            }
            self.st.audio = Some(audio);
        }
        v
    }

    /// True while subscribed audio is arriving (within the last second).
    pub fn is_receiving(&self, id: [u8; 8], now: i64) -> (r: bool)
        requires
            is_clock(now),
            state_ok(self.st@),
        ensures
            r == receiving(self.st@, Id(id), now),
    {
        ops::is_receiving(&self.st, Id(id), now)
    }

    /// True while at least one peer holds an unexpired request for the channel
    /// (the sink would transmit written audio).
    pub fn has_requesters(&self, id: [u8; 8], now: i64) -> (r: bool)
        ensures
            r == is_requested(self.st@, Id(id), now),
    {
        match &self.st.audio {
            Some(audio) => {
                let n = find_sink(&audio.sinks, Id(id));
                if n >= audio.sinks.len() {
                    return false;
                }
                any_unexpired(&audio.sinks[n].requesters, now)
            },
            None => false,
        }
    }

    /// Go silent *without* announcing it, as a crashed peer would.
    pub fn simulate_crash(&mut self)
        requires
            state_ok(old(self).st@),
        ensures
            final(self).st@ == if old(self).st@.enabled {
                silenced(old(self).st@)
            } else {
                old(self).st@
            },
            final(self).eng == old(self).eng,
            state_ok(final(self).st@),
    {
        if self.st.enabled {
            runtime::silence(&mut self.st);
        }
    }

    /// This peer's node identifier (changes on enable and on session reset).
    pub fn node_id(&self) -> (r: [u8; 8])
        ensures
            r == self.st@.node.0,
    {
        self.st.node.0
    }

    /// The current session identifier (the founding peer's node id).
    pub fn session_id(&self) -> (r: [u8; 8])
        ensures
            r == self.st@.session.0,
    {
        self.st.session.0
    }

    /// Take away the datagrams to be sent, first to last.
    pub fn take_outbox(&mut self) -> (v: Vec<Datagram>)
        requires
            state_ok(old(self).st@),
        ensures
            datagram_views(v@) == old(self).st@.outbox,
            final(self).st@ == (StateView { outbox: Seq::empty(), ..old(self).st@ }),
            final(self).eng == old(self).eng,
            state_ok(final(self).st@),
    {
        let mut v: Vec<Datagram> = Vec::new();
        std::mem::swap(&mut v, &mut self.st.outbox);
        proof {
            assert(self.st@.outbox =~= Seq::empty());
        }
        v
    }
}

// -------------------------------------------------------------------- laws

/// Setting the tempo gives a timeline with a strictly greater beat origin, so
/// that every peer takes it over. (The greatest beat origin has none beyond.)
pub proof fn law_set_tempo_is_newer(s: StateView, tempo: i64, now: i64)
    requires
        s.timeline.beat_origin < i64::MAX,
    ensures
        tempo_set(s, tempo, now).timeline.beat_origin > s.timeline.beat_origin,
        tempo_set(s, tempo, now).timeline.tempo == clamped_tempo(tempo),
        is_tempo(tempo_set(s, tempo, now).timeline.tempo),
{
    lemma_wrap64_fits(s.timeline.beat_origin + 1);
}

/// A peer that holds the timeline we held takes over the one that setting the
/// tempo gives.
pub proof fn law_set_tempo_is_taken_over(
    s: StateView,
    theirs: StateView,
    tempo: i64,
    now: i64,
    later: i64,
)
    requires
        theirs.timeline == s.timeline,
        s.timeline.beat_origin < i64::MAX,
    ensures
        timeline_heard(theirs, Some(tempo_set(s, tempo, now).timeline), later).timeline
            == tempo_set(s, tempo, now).timeline,
{
    law_set_tempo_is_newer(s, tempo, now);
}

/// Setting the tempo keeps the beat: where the beat is beyond the old origin,
/// and every step fits in 64 bits, the new timeline differs from the old one at
/// that moment by no more than the roundings.
pub proof fn law_set_tempo_keeps_the_beat(s: StateView, tempo: i64, now: i64)
    requires
        state_ok(s),
        beat_at(s, now) > s.timeline.beat_origin,
        ({
            let g = now + s.ghost_offset;
            let b = beats_of(s.timeline, g);
            &&& fits64(g)
            &&& fits64(g - s.timeline.time_origin)
            &&& fits64(b)
            &&& fits64(b - s.timeline.beat_origin)
            &&& fits64(ghost_of(s.timeline, b))
            &&& fits64(beats_of(tempo_set(s, tempo, now).timeline, g))
        }),
    ensures
        ({
            let t = tempo_set(s, tempo, now);
            let drift = beat_at(t, now) - beat_at(s, now);
            let slack = 1_000_000 + s.timeline.tempo + t.timeline.tempo;
            &&& 2 * (drift * t.timeline.tempo) <= slack
            &&& -slack <= 2 * (drift * t.timeline.tempo)
        }),
{
    let tl = s.timeline;
    let g = now + s.ghost_offset;
    let b = beats_of(tl, g);
    let t = tempo_set(s, tempo, now);
    lemma_wrap64_fits(g);
    lemma_wrap64_fits(g - tl.time_origin);
    lemma_wrap64_fits(b);
    lemma_wrap64_fits(b - tl.beat_origin);
    lemma_wrap64_fits(ghost_of(tl, b));
    lemma_wrap64_fits(tl.beat_origin + 1);
    assert(beat_at(s, now) == b);
    assert(t.timeline.beat_origin == b);
    assert(t.timeline.time_origin == ghost_of(tl, b));
    lemma_new_tempo_keeps_the_beat(tl, g, t.timeline.tempo);
    law_time_beat_time(tl, g);
    lemma_wrap64_fits(g - t.timeline.time_origin);
    lemma_wrap64_fits(beats_of(t.timeline, g));
    assert(t.ghost_offset == s.ghost_offset);
}

proof fn lemma_new_tempo_keeps_the_beat(tl: Timeline, g: int, tempo: i64)
    requires
        tl.tempo > 0,
        tempo > 0,
        fits64(beats_of(tl, g)),
        fits64(ghost_of(tl, beats_of(tl, g))),
    ensures
        ({
            let new = Timeline {
                tempo,
                beat_origin: beats_of(tl, g) as i64,
                time_origin: ghost_of(tl, beats_of(tl, g)) as i64,
            };
            let drift = beats_of(new, g) - beats_of(tl, g);
            &&& 2 * (drift * tempo) <= 1_000_000 + tl.tempo + tempo
            &&& -(1_000_000 + tl.tempo + tempo) <= 2 * (drift * tempo)
        }),
{
    let t = ghost_of(tl, beats_of(tl, g));
    let x = (g - t) * 1_000_000;
    law_time_beat_time(tl, g);
    law_rounded_is_nearest(x, tempo as int);
}

/// A transport change in sync is later than every state held before, so that a
/// peer that holds the old state takes it over, and one in sync follows.
pub proof fn law_transport_change_is_taken_over(
    s: StateView,
    theirs: StateView,
    playing: bool,
    now: i64,
    later: i64,
)
    requires
        s.sst_sync,
        s.held_stst.timestamp < i64::MAX,
        theirs.held_stst == s.held_stst,
    ensures
        ({
            let held = playing_set(s, playing, now).held_stst;
            let t = start_stop_heard(theirs, Some(held), later);
            &&& held.timestamp > s.held_stst.timestamp
            &&& held.is_playing == playing
            &&& t.held_stst == held
            &&& theirs.sst_sync && held != stopped() ==> t.app_playing == playing
        }),
{
    lemma_wrap64_fits(s.held_stst.timestamp + 1);
}

/// Out of sync a transport change is local only.
pub proof fn law_transport_change_without_sync_is_local(s: StateView, playing: bool, now: i64)
    requires
        !s.sst_sync,
    ensures
        playing_set(s, playing, now) == (StateView { app_playing: playing, ..s }),
{
}

/// Whether every step to the application beat at local time `micros` fits in 64
/// bits.
pub open spec fn beat_fits(s: StateView, micros: i64, quantum: i64) -> bool {
    let g = micros + s.ghost_offset;
    let b = beats_of(s.timeline, g);
    &&& fits64(g)
    &&& fits64(g - s.timeline.time_origin)
    &&& fits64(b)
    &&& fits64(b - s.timeline.beat_origin)
    &&& fits64(b - quantum as int / 2)
    &&& fits64(app_beat_of(s.timeline, g, quantum as int))
}

/// Whether every step to the local time of an application beat fits in 64 bits.
pub open spec fn time_fits(s: StateView, beat: i64, quantum: i64) -> bool {
    let under = beat_under_app_beat(s.timeline, beat as int, quantum as int);
    let g = ghost_of_app_beat(s.timeline, beat as int, quantum as int);
    &&& fits64(beat - s.timeline.beat_origin)
    &&& fits64(under)
    &&& fits64(under - s.timeline.beat_origin)
    &&& fits64(g)
    &&& fits64(g - s.ghost_offset)
}

proof fn lemma_app_beat(s: StateView, micros: i64, quantum: i64)
    requires
        beat_fits(s, micros, quantum),
    ensures
        app_beat(s, micros, quantum) == app_beat_of(
            s.timeline,
            micros + s.ghost_offset,
            quantum as int,
        ),
{
    let g = micros + s.ghost_offset;
    lemma_wrap64_fits(g);
    law_app_beat_is_exact(s.timeline, g as i64, quantum);
}

/// The local time of an application beat has that application beat, up to the
/// roundings of the two conversions.
pub proof fn law_time_at_beat_inverts_beat_at_time(s: StateView, beat: i64, quantum: i64)
    requires
        state_ok(s),
        time_fits(s, beat, quantum),
        beat_fits(s, time_of_beat(s, beat, quantum), quantum),
    ensures
        ({
            let back = app_beat(s, time_of_beat(s, beat, quantum), quantum);
            &&& 2 * s.timeline.tempo * (back - beat) <= 1_000_000 + s.timeline.tempo
            &&& 2 * s.timeline.tempo * (beat - back) <= 1_000_000 + s.timeline.tempo
        }),
{
    let g = ghost_of_app_beat(s.timeline, beat as int, quantum as int);
    law_app_time_is_exact(s.timeline, beat, quantum);
    lemma_wrap64_fits(g - s.ghost_offset);
    lemma_app_beat(s, time_of_beat(s, beat, quantum), quantum);
    law_beat_time_directions_compose(s.timeline, beat as int, quantum as int);
}

/// A snapshot's own moment extrapolates to its own beat, and other moments, for
/// as long as the timeline is unchanged, to the application beat there or at
/// most the rounding, one micro-beat, beside it.
pub proof fn law_snapshot_extrapolates(
    s: StateView,
    snap: SessionSnapshot,
    quantum: i64,
    now: i64,
    t: i64,
)
    requires
        state_ok(s),
        snap.at_micros == now,
        snap.tempo == s.timeline.tempo,
        snap.beat == app_beat(s, now, quantum),
        beat_fits(s, now, quantum),
        beat_fits(s, t, quantum),
    ensures
        extrapolated(snap, now as int) == snap.beat,
        -1 <= extrapolated(snap, t as int) - app_beat(s, t, quantum) <= 1,
{
    lemma_app_beat(s, now, quantum);
    lemma_app_beat(s, t, quantum);
    lemma_extrapolation(s.timeline, s.ghost_offset as int, quantum as int, now as int, t as int);
}

proof fn lemma_extrapolation(tl: Timeline, offset: int, q: int, at: int, t: int)
    requires
        is_tempo(tl.tempo),
    ensures
        rounded(0, tl.tempo as int) == 0,
        -1 <= app_beat_of(tl, at + offset, q) + rounded((t - at) * 1_000_000, tl.tempo as int)
            - app_beat_of(tl, t + offset, q) <= 1,
{
    let tempo = tl.tempo as int;
    if q > 0 {
        lemma_alignment_is_a_shift(beats_of(tl, at + offset), tl.beat_origin as int, q);
        lemma_alignment_is_a_shift(beats_of(tl, t + offset), tl.beat_origin as int, q);
    }
    let a = (at + offset - tl.time_origin) * 1_000_000;
    let b = (t - at) * 1_000_000;
    lemma_rounding_adds(a, b, tempo);
    assert(a + b == (t + offset - tl.time_origin) * 1_000_000);
    vstd::arithmetic::div_mod::lemma_basic_div(tempo / 2, tempo);
}

/// Peers with one timeline and one ghost time have the same beat and the same
/// phase at any quantum, whatever their clocks say.
pub proof fn law_peers_in_a_session_share_the_beat(
    a: StateView,
    b: StateView,
    at_a: i64,
    at_b: i64,
    quantum: i64,
)
    requires
        a.timeline == b.timeline,
        at_a + a.ghost_offset == at_b + b.ghost_offset,
    ensures
        beat_at(a, at_a) == beat_at(b, at_b),
        app_beat(a, at_a, quantum) == app_beat(b, at_b, quantum),
{
}

/// The phase of any beat is in `[0, quantum)`.
pub proof fn law_phase_is_within_the_quantum(b: int, q: int)
    ensures
        q > 0 ==> 0 <= phase_of(b, q) < q,
        q <= 0 ==> phase_of(b, q) == 0,
{
    if q > 0 {
        vstd::arithmetic::div_mod::lemma_mod_bound(b, q);
    }
}

/// Joining the network starts a session of our own at beat 0 and ghost time 0,
/// with our tempo; nothing of an earlier session is left.
pub proof fn law_joining_starts_afresh(
    s: StateView,
    gateways: Seq<Gateway>,
    fresh: NodeId,
    now: i64,
)
    requires
        is_clock(now),
        state_ok(s),
        !s.enabled,
    ensures
        ({
            let t = joined(s, gateways, fresh, now);
            &&& t.enabled
            &&& t.node == fresh
            &&& t.session == fresh
            &&& wrap64(now + t.ghost_offset) == 0
            &&& beat_at(t, now) == 0
            &&& t.timeline.tempo == s.timeline.tempo
            &&& t.peers.len() == 0
            &&& t.measured.len() == 0
            &&& peer_count(t) == 0
            &&& t.outbox == s.outbox + alives(t, gateways.len())
        }),
{
    let t = joined(s, gateways, fresh, now);
    let tempo = s.timeline.tempo as int;
    lemma_wrap64_fits(0);
    vstd::arithmetic::div_mod::lemma_basic_div(tempo / 2, tempo);
    assert(rounded(0, tempo) == 0);
    assert(Seq::<NodeId>::empty().to_set() =~= Set::empty());
    assert(t.outbox =~= s.outbox + alives(t, gateways.len()));
}

/// Leaving the network says goodbye on every gateway, after everything else,
/// and leaves no peer behind.
pub proof fn law_leaving_says_goodbye(s: StateView)
    requires
        s.enabled,
    ensures
        ({
            let t = left(s);
            &&& !t.enabled
            &&& t.peers.len() == 0
            &&& t.gateways.len() == 0
            &&& t.audio is None
            &&& t.epoch != s.epoch
            &&& peer_count(t) == 0
            &&& t.outbox == audio_shut(s).outbox + farewells(s.node, s.gateways.len())
        }),
{
    if let Some(a) = s.audio {
        lemma_byes_sent(s, sink_ids(a.sinks));
    }
}

/// Peers are counted once each, however many gateways they are seen through;
/// there are some exactly if a member of the session is known.
pub proof fn law_peers_are_counted_once(s: StateView)
    requires
        s.enabled,
    ensures
        peer_count(s) <= s.peers.len(),
        peer_count(s) > 0 <==> has_member(s.peers, s.session),
        forall|n: NodeId| #[trigger]
            member_nodes(s.peers, s.session).to_set().contains(n) <==> is_member_node(
                s.peers,
                s.session,
                n,
            ),
{
    let nodes = member_nodes(s.peers, s.session);
    lemma_member_nodes(s.peers, s.session);
    nodes.lemma_cardinality_of_set();
    vstd::seq_lib::seq_to_set_is_finite(nodes);
    assert forall|n: NodeId| #[trigger] nodes.to_set().contains(n) <==> is_member_node(
        s.peers,
        s.session,
        n,
    ) by {
        assert(nodes.to_set().contains(n) == nodes.contains(n));
    }
    if has_member(s.peers, s.session) {
        let i = choose|i: int| 0 <= i < s.peers.len() && is_member(#[trigger] s.peers[i], s.session);
        let n = s.peers[i].0.id;
        assert(is_member_node(s.peers, s.session, n));
        assert(nodes.to_set().contains(n));
        assert(nodes.to_set().len() > 0) by {
            vstd::set::axiom_set_choose_len(nodes.to_set());
            if nodes.to_set().len() == 0 {
                nodes.to_set().lemma_len0_is_empty();
            }
        }
    } else {
        assert(nodes.to_set() =~= Set::empty()) by {
            assert forall|n: NodeId| !nodes.to_set().contains(n) by {
                if is_member_node(s.peers, s.session, n) {
                    let i = choose|i: int|
                        0 <= i < s.peers.len() && is_member(#[trigger] s.peers[i], s.session)
                            && s.peers[i].0.id == n;
                    assert(has_member(s.peers, s.session));
                }
            }
        }
    }
}

/// Whether a node is known to be in the session through some gateway.
pub open spec fn is_member_node(
    peers: Seq<(Route, PeerEntry)>,
    session: SessionId,
    node: NodeId,
) -> bool {
    exists|i: int|
        0 <= i < peers.len() && is_member(#[trigger] peers[i], session) && peers[i].0.id == node
}

proof fn lemma_member_nodes(peers: Seq<(Route, PeerEntry)>, session: SessionId)
    ensures
        member_nodes(peers, session).len() <= peers.len(),
        forall|n: NodeId| #[trigger]
            member_nodes(peers, session).contains(n) <==> is_member_node(peers, session, n),
    decreases peers.len(),
{
    let nodes = member_nodes(peers, session);
    if peers.len() > 0 {
        let front = peers.drop_last();
        let before = member_nodes(front, session);
        let last = peers.len() - 1;
        lemma_member_nodes(front, session);
        assert forall|n: NodeId| #[trigger] nodes.contains(n) <==> is_member_node(
            peers,
            session,
            n,
        ) by {
            if nodes.contains(n) {
                let k = choose|k: int| 0 <= k < nodes.len() && nodes[k] == n;
                if k < before.len() {
                    assert(before[k] == n);
                    assert(before.contains(n));
                    let i = choose|i: int|
                        0 <= i < front.len() && is_member(#[trigger] front[i], session)
                            && front[i].0.id == n;
                    assert(peers[i] == front[i]);
                    assert(is_member(peers[i], session));
                } else {
                    assert(is_member(peers[last], session));
                }
            }
            if is_member_node(peers, session, n) {
                let i = choose|i: int|
                    0 <= i < peers.len() && is_member(#[trigger] peers[i], session)
                        && peers[i].0.id == n;
                if i < last {
                    assert(is_member(front[i], session));
                    assert(before.contains(n));
                    let k = choose|k: int| 0 <= k < before.len() && before[k] == n;
                    assert(nodes[k] == n);
                } else {
                    assert(nodes[nodes.len() - 1] == n);
                }
            }
        }
    }
}

/// What was polled is not polled again.
pub proof fn law_polling_empties_the_inbox(s: StateView, channel: Id)
    requires
        state_ok(s),
    ensures
        waiting(polled(s, channel), channel).len() == 0,
{
    if let Some(a) = s.audio {
        if let Some(source) = lookup(a.sources, channel) {
            law_with(
                a.sources,
                channel,
                SourceView { inbox: Seq::empty(), ..source },
                channel,
            );
        }
    }
}

/// Setting the tempo changes the timeline alone, to a tempo of 20 to 999 bpm,
/// and is told to the others.
pub proof fn law_set_tempo_is_told(s: StateView, tempo: i64, now: i64)
    requires
        is_clock(now),
        state_ok(s),
    ensures
        ({
            let t = tempo_set(s, tempo, now);
            &&& same_but_sent(StateView { timeline: t.timeline, ..s }, t)
            &&& s.enabled ==> passes_on(s, t)
            &&& 60_060 <= tempo <= 3_000_000 ==> t.timeline.tempo == tempo
            &&& tempo < 60_060 ==> t.timeline.tempo == 60_060
            &&& tempo > 3_000_000 ==> t.timeline.tempo == 3_000_000
            &&& beat_at(s, now) > s.timeline.beat_origin ==> t.timeline.beat_origin == beat_at(
                s,
                now,
            )
            &&& beat_at(s, now) <= s.timeline.beat_origin < i64::MAX ==> t.timeline.beat_origin
                == s.timeline.beat_origin + 1
        }),
{
    let t = tempo_set(s, tempo, now);
    if s.enabled {
        lemma_broadcast_passes_on(StateView { timeline: t.timeline, ..s }, now);
    }
    if s.timeline.beat_origin < i64::MAX {
        lemma_wrap64_fits(s.timeline.beat_origin + 1);
    }
}

/// A transport change is what the application sees at once. In sync it is held,
/// with the beat of that moment and its ghost time as timestamp, or the next
/// one if that is not later than what was held; and it is told to the others.
pub proof fn law_transport_change_is_told(s: StateView, playing: bool, now: i64)
    requires
        is_clock(now),
        state_ok(s),
    ensures
        ({
            let t = playing_set(s, playing, now);
            let ghost_now = wrap64(now + s.ghost_offset);
            &&& t.app_playing == playing
            &&& same_but_sent(
                StateView { app_playing: playing, held_stst: t.held_stst, ..s },
                t,
            )
            &&& !s.sst_sync ==> t.held_stst == s.held_stst && t.outbox == s.outbox
            &&& s.sst_sync ==> {
                &&& t.held_stst.is_playing == playing
                &&& t.held_stst.beats == beat_at(s, now)
                &&& ghost_now > s.held_stst.timestamp ==> t.held_stst.timestamp == ghost_now
                &&& ghost_now <= s.held_stst.timestamp < i64::MAX ==> t.held_stst.timestamp
                    == s.held_stst.timestamp + 1
                &&& s.enabled ==> passes_on(s, t)
            }
        }),
{
    let t = playing_set(s, playing, now);
    if s.enabled && s.sst_sync {
        lemma_broadcast_passes_on(
            StateView { app_playing: playing, held_stst: t.held_stst, ..s },
            now,
        );
    }
    if s.held_stst.timestamp < i64::MAX {
        lemma_wrap64_fits(s.held_stst.timestamp + 1);
    }
}

/// Switching sync on makes the application follow what is held, unless that is
/// the state of a session that was never started; switching it off changes
/// nothing that it sees. Nothing is sent.
pub proof fn law_sync_follows_what_is_held(s: StateView, enabled: bool)
    ensures
        ({
            let t = sync_set(s, enabled);
            let never = !s.held_stst.is_playing && s.held_stst.beats == 0
                && s.held_stst.timestamp == 0;
            &&& t == (StateView { sst_sync: enabled, app_playing: t.app_playing, ..s })
            &&& enabled && !never ==> t.app_playing == s.held_stst.is_playing
            &&& !enabled || never ==> t.app_playing == s.app_playing
        }),
{
    let none = StartStopState { is_playing: false, beats: 0, timestamp: 0 };
    assert(stopped() == none);
}

/// A new peer is alone in a session of its own, at beat 0, stopped, with the
/// wanted tempo, and not on the network.
pub proof fn law_new_peer_is_on_its_own(node: NodeId, tempo: i64)
    ensures
        ({
            let s = fresh_state(node, tempo);
            &&& !s.enabled
            &&& s.node == node
            &&& s.session == node
            &&& s.ghost_offset == 0
            &&& s.timeline.beat_origin == 0
            &&& s.timeline.time_origin == 0
            &&& 60_060 <= tempo <= 3_000_000 ==> s.timeline.tempo == tempo
            &&& tempo < 60_060 ==> s.timeline.tempo == 60_060
            &&& tempo > 3_000_000 ==> s.timeline.tempo == 3_000_000
            &&& !s.app_playing
            &&& !s.sst_sync
            &&& !s.held_stst.is_playing && s.held_stst.beats == 0 && s.held_stst.timestamp == 0
            &&& s.peers.len() == 0
            &&& s.gateways.len() == 0
            &&& s.audio is None
            &&& s.outbox.len() == 0
            &&& s.measurement is None
            &&& s.pending.len() == 0
        }),
{
}

/// Joining the network takes a fresh identifier and a session of its own whose
/// ghost time and beat are 0 now, keeps the tempo, what the application sees and
/// audio, and forgets everything else of before. A peer that is on the network
/// stays as it is.
pub proof fn law_joining_keeps_only_the_tempo(
    s: StateView,
    gateways: Seq<Gateway>,
    fresh: NodeId,
    now: i64,
)
    requires
        is_clock(now),
    ensures
        ({
            let t = joined(s, gateways, fresh, now);
            &&& s.enabled ==> t == s
            &&& !s.enabled ==> {
                &&& t.enabled
                &&& t.epoch != s.epoch
                &&& t.node == fresh
                &&& t.session == fresh
                &&& now + t.ghost_offset == 0
                &&& t.timeline.tempo == s.timeline.tempo
                &&& t.timeline.beat_origin == 0
                &&& t.timeline.time_origin == 0
                &&& !t.held_stst.is_playing && t.held_stst.beats == 0 && t.held_stst.timestamp == 0
                &&& t.app_playing == s.app_playing
                &&& t.sst_sync == s.sst_sync
                &&& t.audio == s.audio
                &&& !t.session_member_seen
                &&& t.gateways == gateways
                &&& t.peers.len() == 0
                &&& t.foreign_timelines.len() == 0
                &&& t.measured.len() == 0
                &&& t.measurement is None
                &&& t.pending.len() == 0
                &&& t.next_remeasure_at is None
                &&& t.broadcast_due is None
                &&& t.last_alive_at == now
                &&& t.last_broadcast_at == now
            }
        }),
{
}

/// A peer that joins the network tells its new state at once, by multicast on
/// every gateway.
pub proof fn law_joining_is_told(
    s: StateView,
    gateways: Seq<Gateway>,
    fresh: NodeId,
    now: i64,
    i: int,
)
    requires
        !s.enabled,
        gateways.len() <= usize::MAX,
    ensures
        ({
            let t = joined(s, gateways, fresh, now);
            let n = s.outbox.len() as int;
            &&& t.outbox.len() == n + gateways.len()
            &&& s.outbox.is_prefix_of(t.outbox)
            &&& 0 <= i < gateways.len() ==> tells_at(t, n, gateways[i], i)
        }),
{
    let t = joined(s, gateways, fresh, now);
    if 0 <= i < gateways.len() {
        assert(t.outbox[s.outbox.len() + i].bytes == alive_bytes(t, gateways[i]));
        if is_plain_gateway(gateways[i]) {
            lemma_alive_reads_back(t, gateways[i]);
        }
    }
}

/// Leaving the network withdraws every published channel from every session
/// peer, then says goodbye by multicast on every gateway; what the application
/// sees, the tempo and the identifiers stay.
#[verifier::rlimit(40)]
pub proof fn law_leaving_withdraws_and_says_goodbye(s: StateView, e: int, c: int, i: int)
    requires
        s.enabled,
        s.gateways.len() <= usize::MAX,
    ensures
        ({
            let t = left(s);
            let n = t.outbox.len() - s.gateways.len();
            &&& !t.enabled
            &&& t.audio is None
            &&& t.measurement is None
            &&& t.pending.len() == 0
            &&& t.broadcast_due is None
            &&& t.next_remeasure_at is None
            &&& !t.session_member_seen
            &&& t.timeline == s.timeline
            &&& t.node == s.node
            &&& t.session == s.session
            &&& t.app_playing == s.app_playing
            &&& t.sst_sync == s.sst_sync
            &&& s.outbox.len() <= n
            &&& s.outbox.is_prefix_of(t.outbox)
            &&& 0 <= i < s.gateways.len() ==> {
                let d = t.outbox[n + i];
                &&& d.gateway == i
                &&& d.outlet is Multicast
                &&& match discovery::decoded(d.bytes) {
                    Ok(f) => f.node == s.node && f.group_id == 0 && f.message is ByeBye,
                    Err(_) => false,
                }
            }
            &&& s.audio is Some && 0 <= e < s.peers.len() && s.peers[e].1.state.session == Some(
                s.session,
            ) && s.peers[e].1.state.audio_endpoint is Some && s.peers[e].0.gateway
                < s.gateways.len() && 0 <= c < s.audio->0.sinks.len() ==> tells_withdrawal(
                s,
                t,
                s.peers[e].0.gateway,
                s.peers[e].1.state.audio_endpoint->0,
                s.audio->0.sinks[c].id,
            )
        }),
{
    let t = left(s);
    let bye = discovery::Frame {
        ttl: 0,
        group_id: 0,
        node: s.node,
        message: discovery::Message::ByeBye,
    };
    discovery::law_frame_roundtrip(bye);
    let shut = audio_shut(s);
    let n = shut.outbox.len() as int;
    if let Some(a) = s.audio {
        let ids = sink_ids(a.sinks);
        lemma_byes_add(s, ids);
        if 0 <= e < s.peers.len() && s.peers[e].1.state.session == Some(s.session)
            && s.peers[e].1.state.audio_endpoint is Some && s.peers[e].0.gateway < s.gateways.len()
            && 0 <= c < a.sinks.len() {
            law_withdrawals_reach_every_peer(s, ids, e, c);
            let ep = s.peers[e].1.state.audio_endpoint->0;
            let k = choose|k: int|
                s.outbox.len() <= k < shut.outbox.len() && (#[trigger] shut.outbox[k]).gateway
                    == s.peers[e].0.gateway && shut.outbox[k].outlet == Outlet::Audio(ep)
                    && withdraws(shut.outbox[k].bytes, s.node, ids[c]);
            assert(t.outbox[k] == shut.outbox[k]);
            assert(t.outbox[k].gateway == s.peers[e].0.gateway);
        }
    }
    if 0 <= i < s.gateways.len() {
        assert(t.outbox[n + i].gateway == i);
    }
}

/// The number of peers is that of the nodes known in the session: a list of
/// them without repetition has that length.
pub proof fn law_number_of_peers_is_that_of_members(s: StateView, nodes: Seq<NodeId>)
    requires
        nodes.no_duplicates(),
        forall|n: NodeId| #[trigger]
            nodes.contains(n) <==> exists|i: int|
                0 <= i < s.peers.len() && (#[trigger] s.peers[i]).0.id == n
                    && s.peers[i].1.state.session == Some(s.session),
    ensures
        s.enabled ==> peer_count(s) == nodes.len(),
        !s.enabled ==> peer_count(s) == 0,
{
    let members = member_nodes(s.peers, s.session);
    lemma_member_nodes(s.peers, s.session);
    nodes.unique_seq_to_set();
    assert forall|n: NodeId| nodes.to_set().contains(n) <==> members.to_set().contains(n) by {
        assert(nodes.to_set().contains(n) == nodes.contains(n));
        assert(members.to_set().contains(n) == members.contains(n));
        if nodes.contains(n) {
            let i = choose|i: int|
                0 <= i < s.peers.len() && (#[trigger] s.peers[i]).0.id == n
                    && s.peers[i].1.state.session == Some(s.session);
            assert(is_member(s.peers[i], s.session));
            assert(is_member_node(s.peers, s.session, n));
        }
        if members.contains(n) {
            assert(is_member_node(s.peers, s.session, n));
            let i = choose|i: int|
                0 <= i < s.peers.len() && is_member(#[trigger] s.peers[i], s.session)
                    && s.peers[i].0.id == n;
            assert(s.peers[i].1.state.session == Some(s.session));
        }
    }
    assert(nodes.to_set() =~= members.to_set());
}

/// Polling a subscription gives every unit that waits on it, and leaves what
/// waits on others, the counts and everything else as it was.
pub proof fn law_polling_gives_what_waits(s: StateView, channel: Id, other: Id)
    requires
        state_ok(s),
        s.audio is Some,
        lookup(s.audio->0.sources, channel) is Some,
    ensures
        ({
            let before = lookup(s.audio->0.sources, channel)->0;
            let t = polled(s, channel);
            let after = lookup(t.audio->0.sources, channel)->0;
            &&& waiting(s, channel) == before.inbox
            &&& t == (StateView { audio: t.audio, ..s })
            &&& t.audio is Some
            &&& t.audio->0 == (AudioView { sources: t.audio->0.sources, ..s.audio->0 })
            &&& lookup(t.audio->0.sources, channel) is Some
            &&& after.inbox.len() == 0
            &&& after == (SourceView { inbox: after.inbox, ..before })
            &&& other != channel ==> lookup(t.audio->0.sources, other) == lookup(
                s.audio->0.sources,
                other,
            )
        }),
{
    let a = s.audio->0;
    let source = lookup(a.sources, channel)->0;
    let new = SourceView { inbox: Seq::empty(), ..source };
    law_with(a.sources, channel, new, channel);
    law_with(a.sources, channel, new, other);
}

/// The timeline of a new tempo starts on the old one: its origin is a moment at
/// which the old one is at that beat, up to the roundings, where every step fits
/// in 64 bits.
pub proof fn law_new_tempo_starts_on_the_old_timeline(s: StateView, tempo: i64, now: i64)
    requires
        state_ok(s),
        ({
            let b = tempo_set(s, tempo, now).timeline.beat_origin;
            fits64(b - s.timeline.beat_origin) && fits64(ghost_of(s.timeline, b as int))
        }),
    ensures
        ({
            let t = tempo_set(s, tempo, now).timeline;
            let off = beats_of(s.timeline, t.time_origin as int) - t.beat_origin;
            &&& 2 * s.timeline.tempo * off <= 1_000_000 + s.timeline.tempo
            &&& 2 * s.timeline.tempo * (-off) <= 1_000_000 + s.timeline.tempo
        }),
{
    let t = tempo_set(s, tempo, now).timeline;
    lemma_wrap64_fits(t.beat_origin - s.timeline.beat_origin);
    lemma_wrap64_fits(ghost_of(s.timeline, t.beat_origin as int));
    crate::math::law_beat_time_beat(s.timeline, t.beat_origin as int);
}

/// A phase is what its beat is beyond a whole number of quanta: it is within the
/// quantum, and the beat less the phase is a multiple of it. Without a quantum it
/// is 0.
pub proof fn law_phase_belongs_to_its_beat(
    s: StateView,
    snap: SessionSnapshot,
    micros: i64,
    quantum: i64,
)
    ensures
        quantum > 0 ==> 0 <= app_phase(s, micros, quantum) < quantum,
        quantum > 0 ==> (app_beat(s, micros, quantum) - app_phase(s, micros, quantum))
            % quantum as int == 0,
        quantum <= 0 ==> app_phase(s, micros, quantum) == 0,
        snap.quantum > 0 ==> 0 <= snapshot_phase(snap, micros) < snap.quantum,
        snap.quantum > 0 ==> (snapshot_beat(snap, micros) - snapshot_phase(snap, micros))
            % snap.quantum as int == 0,
        snap.quantum <= 0 ==> snapshot_phase(snap, micros) == 0,
{
    if quantum > 0 {
        lemma_beyond_quanta(app_beat(s, micros, quantum) as int, quantum as int);
    }
    if snap.quantum > 0 {
        lemma_beyond_quanta(snapshot_beat(snap, micros) as int, snap.quantum as int);
    }
}

proof fn lemma_beyond_quanta(b: int, q: int)
    requires
        q > 0,
    ensures
        0 <= b % q < q,
        (b - b % q) % q == 0,
{
    vstd::arithmetic::div_mod::lemma_mod_bound(b, q);
    vstd::arithmetic::div_mod::lemma_fundamental_div_mod(b, q);
    vstd::arithmetic::div_mod::lemma_mod_multiples_basic(b / q, q);
    assert(q * (b / q) == (b / q) * q) by (nonlinear_arith);
}

/// A snapshot is of one moment: it holds the time and the quantum asked for, the
/// tempo, the beat and phase there, the transport, whether the peer is on the
/// network, how many others are, and the session. Extrapolated to its own moment
/// it gives its own beat and phase.
pub proof fn law_snapshot_is_of_one_moment(s: StateView, quantum: i64, now: i64)
    requires
        state_ok(s),
    ensures
        ({
            let snap = captured(s, quantum, now);
            &&& snap.at_micros == now
            &&& snap.quantum == quantum
            &&& snap.tempo == s.timeline.tempo
            &&& snap.beat == app_beat(s, now, quantum)
            &&& snap.phase == app_phase(s, now, quantum)
            &&& snap.is_playing == s.app_playing
            &&& snap.enabled == s.enabled
            &&& snap.num_peers == peer_count(s) as usize
            &&& snap.session_id == s.session.0
            &&& snapshot_beat(snap, now) == snap.beat
            &&& snapshot_phase(snap, now) == snap.phase
        }),
{
    let snap = captured(s, quantum, now);
    let tempo = s.timeline.tempo as int;
    law_phase_belongs_to_its_beat(s, snap, now, quantum);
    lemma_wrap64_fits(0);
    lemma_wrap64_fits(snap.beat as int);
    vstd::arithmetic::div_mod::lemma_basic_div(tempo / 2, tempo);
    assert(rounded(0, tempo) == 0);
}

/// A snapshot extrapolates at its tempo: where every step fits in 64 bits, one
/// beat, a million micro-beats, later for each so many microseconds.
pub proof fn law_snapshot_advances_with_its_tempo(snap: SessionSnapshot, k: nat)
    requires
        snap.tempo > 0,
        fits64(snap.at_micros + k * snap.tempo),
        fits64(k * snap.tempo),
        fits64(snap.beat + k * 1_000_000),
    ensures
        snapshot_beat(snap, (snap.at_micros + k * snap.tempo) as i64) == snap.beat + k * 1_000_000,
{
    let tempo = snap.tempo as int;
    let micros = (snap.at_micros + k * snap.tempo) as i64;
    lemma_wrap64_fits(k * snap.tempo);
    lemma_wrap64_fits(snap.beat + k * 1_000_000);
    let num = (k * snap.tempo) * 1_000_000;
    assert(num == (k * 1_000_000) * tempo) by (nonlinear_arith)
        requires
            num == (k * snap.tempo) * 1_000_000,
            tempo == snap.tempo,
    ;
    assert(num >= 0) by (nonlinear_arith)
        requires
            num == (k * 1_000_000) * tempo,
            tempo > 0,
    ;
    vstd::arithmetic::div_mod::lemma_hoist_over_denominator(
        tempo / 2,
        (k * 1_000_000) as int,
        tempo as nat,
    );
    vstd::arithmetic::div_mod::lemma_basic_div(tempo / 2, tempo);
}

} // verus!
