//! What a peer knows.

use vstd::prelude::*;

use crate::audio::state::{audio_ok, AudioState, AudioView};
use crate::math::{TEMPO_MAX_MICROS_PER_BEAT, TEMPO_MIN_MICROS_PER_BEAT};
use crate::table::{distinct, Route, Table};
use crate::wire::discovery::PeerState;
use crate::wire::types::{NodeId, SessionId, SocketAddr, StartStopState, Timeline};

verus! {

/// Join threshold ε.
pub const JOIN_EPSILON: i64 = 500_000;

/// Re-measurement period for a joined session.
pub const REMEASURE_PERIOD: i64 = 30_000_000;

/// Prune-timer padding.
pub const PRUNE_PADDING: i64 = 1_000_000;

/// Nominal Alive period.
pub const ALIVE_PERIOD: i64 = 250_000;

/// Minimum spacing between state-change broadcasts.
pub const MIN_BROADCAST_SPACING: i64 = 50_000;

/// Measurement retry timer.
pub const MEASUREMENT_RETRY: i64 = 50_000;

/// Timer-driven retries before a measurement fails.
pub const MAX_MEASUREMENT_RETRIES: u32 = 5;

/// The latest time on a peer's clock: half of its range, some 146,000 years.
/// Deadlines and differences of clock values then never overflow.
pub const MAX_CLOCK: i64 = 0x3fff_ffff_ffff_ffff;

/// The longest time that a ttl grants, µs.
pub const MAX_TTL: i64 = 255_000_000;

// ------------------------------------------------------------------ sending

/// One local interface, as far as the engine sees it: the endpoints that its
/// measurement and audio sockets are bound to.
#[derive(Debug, Clone, Copy, PartialEq, Eq, Structural)]
pub struct Gateway {
    pub index: usize,
    pub measurement: SocketAddr,
    pub audio: SocketAddr,
}

impl Gateway {
    /// The measurement endpoint that is advertised.
    pub fn measurement_endpoint(&self) -> (ep: SocketAddr)
        ensures
            ep == self.measurement,
    {
        self.measurement
    }

    /// The audio endpoint that is advertised.
    pub fn audio_endpoint(&self) -> (ep: SocketAddr)
        ensures
            ep == self.audio,
    {
        self.audio
    }
}

/// The socket of a gateway that a datagram leaves by, and where it goes.
#[derive(Debug, Clone, Copy, PartialEq, Eq, Structural)]
pub enum Outlet {
    /// Discovery socket, to the multicast group.
    Multicast,
    /// Discovery socket, to one peer.
    Unicast(SocketAddr),
    /// Measurement socket.
    Measurement(SocketAddr),
    /// Audio socket.
    Audio(SocketAddr),
}

/// A datagram to be sent.
#[derive(Debug, Clone)]
pub struct Datagram {
    /// Position of the gateway among the open ones.
    pub gateway: usize,
    pub outlet: Outlet,
    pub bytes: Vec<u8>,
}

/// The content of a [`Datagram`].
pub struct DatagramView {
    pub gateway: usize,
    pub outlet: Outlet,
    pub bytes: Seq<u8>,
}

impl View for Datagram {
    type V = DatagramView;

    open spec fn view(&self) -> DatagramView {
        DatagramView { gateway: self.gateway, outlet: self.outlet, bytes: self.bytes@ }
    }
}

pub open spec fn datagram_views(list: Seq<Datagram>) -> Seq<DatagramView> {
    Seq::new(list.len(), |i: int| list[i]@)
}

// ------------------------------------------------------------------- peers

/// A peer as last heard of through one gateway.
#[derive(Debug, Clone, Copy, PartialEq, Eq)]
pub struct PeerEntry {
    pub state: PeerState,
    /// Expiry deadline on our clock, µs.
    pub deadline: i64,
}

impl View for PeerEntry {
    type V = PeerEntry;

    open spec fn view(&self) -> PeerEntry {
        *self
    }
}

// ------------------------------------------------------------- measurements

#[derive(Debug, Clone, Copy, PartialEq, Eq, Structural)]
pub enum Purpose {
    /// Measuring a foreign session to evaluate the join rule.
    Join,
    /// Periodic re-measurement of the joined session.
    Remeasure,
}

#[derive(Debug, Clone, Copy, PartialEq, Eq)]
pub struct MeasureTask {
    pub session: SessionId,
    pub target: SocketAddr,
    pub gateway: usize,
    pub purpose: Purpose,
}

pub struct Measurement {
    pub task: MeasureTask,
    /// Offset samples, estimates of ghost − host in half microseconds.
    pub samples: Vec<i128>,
    /// Timer-driven retries so far.
    pub timeouts: u32,
    pub retry_deadline: i64,
}

/// The content of a [`Measurement`].
pub struct MeasurementView {
    pub task: MeasureTask,
    pub samples: Seq<i128>,
    pub timeouts: u32,
    pub retry_deadline: i64,
}

impl View for Measurement {
    type V = MeasurementView;

    open spec fn view(&self) -> MeasurementView {
        MeasurementView {
            task: self.task,
            samples: self.samples@,
            timeouts: self.timeouts,
            retry_deadline: self.retry_deadline,
        }
    }
}

pub open spec fn measurement_view(m: Option<Measurement>) -> Option<MeasurementView> {
    match m {
        Some(m) => Some(m@),
        None => None,
    }
}

// ------------------------------------------------------------------- state

/// The state of a peer.
pub struct State {
    pub enabled: bool,
    /// Incremented on every enable/disable; receivers stop when it changes
    /// under them.
    pub epoch: u64,
    pub node: NodeId,
    pub session: SessionId,
    pub timeline: Timeline,
    /// Ghost transform intercept: ghost(t) = t + offset (slope fixed at 1).
    pub ghost_offset: i64,
    /// The held network start/stop state.
    pub held_stst: StartStopState,
    /// What the application sees as the transport state.
    pub app_playing: bool,
    pub sst_sync: bool,
    pub gateways: Vec<Gateway>,
    /// Peers, by node and gateway.
    pub peers: Table<Route, PeerEntry>,
    /// True once a member of the current session has been seen; a fresh
    /// session is founded only on the transition back to zero members.
    pub session_member_seen: bool,
    /// Latest gossiped timeline per foreign session, kept under the
    /// beat-origin priority rule.
    pub foreign_timelines: Table<SessionId, Timeline>,
    /// Measured ghost offsets of known sessions.
    pub measured: Table<SessionId, i64>,
    pub measurement: Option<Measurement>,
    /// Measurements to come, first to last.
    pub pending: Vec<MeasureTask>,
    pub last_alive_at: i64,
    pub last_broadcast_at: i64,
    /// A state-change broadcast delayed by the minimum spacing.
    pub broadcast_due: Option<i64>,
    pub next_remeasure_at: Option<i64>,
    /// Present iff audio is enabled.
    pub audio: Option<AudioState>,
    /// Datagrams to be sent, first to last; the caller takes them away.
    pub outbox: Vec<Datagram>,
}

/// The content of a [`State`].
pub struct StateView {
    pub enabled: bool,
    pub epoch: u64,
    pub node: NodeId,
    pub session: SessionId,
    pub timeline: Timeline,
    pub ghost_offset: i64,
    pub held_stst: StartStopState,
    pub app_playing: bool,
    pub sst_sync: bool,
    pub gateways: Seq<Gateway>,
    pub peers: Seq<(Route, PeerEntry)>,
    pub session_member_seen: bool,
    pub foreign_timelines: Seq<(SessionId, Timeline)>,
    pub measured: Seq<(SessionId, i64)>,
    pub measurement: Option<MeasurementView>,
    pub pending: Seq<MeasureTask>,
    pub last_alive_at: i64,
    pub last_broadcast_at: i64,
    pub broadcast_due: Option<i64>,
    pub next_remeasure_at: Option<i64>,
    pub audio: Option<AudioView>,
    pub outbox: Seq<DatagramView>,
}

pub open spec fn audio_view(a: Option<AudioState>) -> Option<AudioView> {
    match a {
        Some(a) => Some(a@),
        None => None,
    }
}

impl View for State {
    type V = StateView;

    open spec fn view(&self) -> StateView {
        StateView {
            enabled: self.enabled,
            epoch: self.epoch,
            node: self.node,
            session: self.session,
            timeline: self.timeline,
            ghost_offset: self.ghost_offset,
            held_stst: self.held_stst,
            app_playing: self.app_playing,
            sst_sync: self.sst_sync,
            gateways: self.gateways@,
            peers: self.peers@,
            session_member_seen: self.session_member_seen,
            foreign_timelines: self.foreign_timelines@,
            measured: self.measured@,
            measurement: measurement_view(self.measurement),
            pending: self.pending@,
            last_alive_at: self.last_alive_at,
            last_broadcast_at: self.last_broadcast_at,
            broadcast_due: self.broadcast_due,
            next_remeasure_at: self.next_remeasure_at,
            audio: audio_view(self.audio),
            outbox: datagram_views(self.outbox@),
        }
    }
}

// --------------------------------------------------------------- invariants

/// Whether `t` is a time on a peer's clock.
pub open spec fn is_clock(t: i64) -> bool {
    0 <= t <= MAX_CLOCK
}

/// Whether `t` is at most `span` after a time on a peer's clock.
pub open spec fn is_deadline(t: i64, span: i64) -> bool {
    0 <= t <= MAX_CLOCK + span
}

/// Whether a tempo is one of 20–999 bpm.
pub open spec fn is_tempo(tempo: i64) -> bool {
    TEMPO_MIN_MICROS_PER_BEAT <= tempo <= TEMPO_MAX_MICROS_PER_BEAT
}

/// The bound of offset samples: twice a difference of 64-bit numbers.
pub open spec fn is_sample(x: i128) -> bool {
    -0x4_0000_0000_0000_0000 <= x <= 0x4_0000_0000_0000_0000
}

/// A measurement under way: it has retries left, and not yet enough samples.
pub open spec fn measurement_ok(m: MeasurementView) -> bool {
    &&& m.timeouts <= MAX_MEASUREMENT_RETRIES
    &&& is_deadline(m.retry_deadline, MEASUREMENT_RETRY)
    &&& m.samples.len() <= 100
    &&& forall|i: int| 0 <= i < m.samples.len() ==> is_sample(#[trigger] m.samples[i])
}

pub open spec fn peers_ok(peers: Seq<(Route, PeerEntry)>) -> bool {
    &&& distinct(peers)
    &&& forall|i: int|
        0 <= i < peers.len() ==> is_deadline((#[trigger] peers[i]).1.deadline, MAX_TTL)
}

/// What holds of every state between two events. The tempo is always in
/// range. Alive messages and broadcasts are one and the same, and a delayed
/// one is due when the minimum spacing has passed.
pub open spec fn state_ok(s: StateView) -> bool {
    &&& is_tempo(s.timeline.tempo)
    &&& peers_ok(s.peers)
    &&& distinct(s.foreign_timelines)
    &&& distinct(s.measured)
    &&& s.measurement matches Some(m) ==> measurement_ok(m)
    &&& is_clock(s.last_alive_at)
    &&& s.last_broadcast_at == s.last_alive_at
    &&& s.broadcast_due matches Some(due) ==> due == s.last_broadcast_at + MIN_BROADCAST_SPACING
    &&& s.next_remeasure_at matches Some(t) ==> is_deadline(t, REMEASURE_PERIOD)
    &&& s.audio matches Some(a) ==> audio_ok(a)
}

} // verus!
