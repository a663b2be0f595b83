//! What a peer knows of audio channels, its own and others'.

use vstd::prelude::*;

use crate::audio::sink::{have_tempo, Sink, SinkView};
use crate::audio::source::{Source, SourceView, INBOX_LIMIT, NEVER};
use crate::engine::state::{is_clock, is_deadline, MAX_CLOCK, MAX_TTL};
use crate::table::{distinct, Route, Table};
use crate::wire::audio::MAX_NAME;
use crate::wire::codec::owned_bytes;
use crate::wire::types::{ChannelId, NodeId};

verus! {

/// RTT sliding-window length.
pub const RTT_WINDOW: usize = 10;

/// A remote channel, as last announced.
pub struct KnownChannel {
    pub peer: NodeId,
    pub peer_name: Vec<u8>,
    pub name: Vec<u8>,
    pub deadline: i64,
}

/// The content of a [`KnownChannel`].
pub struct KnownChannelView {
    pub peer: NodeId,
    pub peer_name: Seq<u8>,
    pub name: Seq<u8>,
    pub deadline: i64,
}

impl View for KnownChannel {
    type V = KnownChannelView;

    open spec fn view(&self) -> KnownChannelView {
        KnownChannelView {
            peer: self.peer,
            peer_name: self.peer_name@,
            name: self.name@,
            deadline: self.deadline,
        }
    }
}

/// Keepalive RTT window of a path, and the rank of its quality.
pub struct PathStats {
    /// The latest round trips in µs, oldest first.
    pub rtts: Vec<i64>,
    /// The quality of the path, in any encoding in which the greater number is
    /// the better path; 0 is that of a path without round trips.
    pub quality: u64,
}

/// The content of a [`PathStats`].
pub struct PathStatsView {
    pub rtts: Seq<i64>,
    pub quality: u64,
}

impl View for PathStats {
    type V = PathStatsView;

    open spec fn view(&self) -> PathStatsView {
        PathStatsView { rtts: self.rtts@, quality: self.quality }
    }
}

/// A path without round trips.
pub open spec fn no_trips() -> PathStatsView {
    PathStatsView { rtts: Seq::empty(), quality: 0 }
}

impl Default for PathStats {
    fn default() -> (s: Self)
        ensures
            s@ == no_trips(),
    {
        PathStats { rtts: Vec::new(), quality: 0 }
    }
}

/// A window with one more round trip; the oldest goes when the window is full.
pub open spec fn with_trip(s: PathStatsView, rtt: i64) -> PathStatsView {
    PathStatsView {
        rtts: if s.rtts.len() == RTT_WINDOW {
            s.rtts.skip(1).push(rtt)
        } else {
            s.rtts.push(rtt)
        },
        ..s
    }
}

impl PathStats {
    pub fn record(&mut self, rtt_micros: i64)
        ensures
            final(self)@ == with_trip(old(self)@, rtt_micros),
            old(self)@.rtts.len() <= RTT_WINDOW ==> final(self)@.rtts.len() <= RTT_WINDOW,
    {
        if self.rtts.len() == RTT_WINDOW {
            self.rtts.remove(0);
            proof {
                assert(self.rtts@ =~= old(self)@.rtts.skip(1));
            }
        }
        self.rtts.push(rtt_micros);
    }
}

/// Audio state of a peer. Present iff audio is enabled, which is also what
/// switches the advertisement of the audio endpoint on.
pub struct AudioState {
    pub peer_name: Vec<u8>,
    pub sinks: Vec<Sink>,
    pub sources: Table<ChannelId, Source>,
    /// Remote channels, tracked per channel and gateway.
    pub known: Table<Route, KnownChannel>,
    /// RTT path metrics per peer and gateway.
    pub paths: Table<Route, PathStats>,
    pub last_announce_at: i64,
}

/// The content of an [`AudioState`].
pub struct AudioView {
    pub peer_name: Seq<u8>,
    pub sinks: Seq<SinkView>,
    pub sources: Seq<(ChannelId, SourceView)>,
    pub known: Seq<(Route, KnownChannelView)>,
    pub paths: Seq<(Route, PathStatsView)>,
    pub last_announce_at: i64,
}

pub open spec fn sink_views(sinks: Seq<Sink>) -> Seq<SinkView> {
    Seq::new(sinks.len(), |i: int| sinks[i]@)
}

impl View for AudioState {
    type V = AudioView;

    open spec fn view(&self) -> AudioView {
        AudioView {
            peer_name: self.peer_name@,
            sinks: sink_views(self.sinks@),
            sources: self.sources@,
            known: self.known@,
            paths: self.paths@,
            last_announce_at: self.last_announce_at,
        }
    }
}

/// A name as it is sent: at most 256 bytes of it.
pub open spec fn capped_name(name: Seq<u8>) -> Seq<u8> {
    if name.len() > MAX_NAME {
        name.take(MAX_NAME as int)
    } else {
        name
    }
}

/// The bytes of a name, cut to the sender-side cap.
pub fn cap_name(name: &str) -> (v: Vec<u8>)
    ensures
        v@ == capped_name(vstd::utf8::encode_utf8(name@)),
{
    let mut v = owned_bytes(name.as_bytes());
    if v.len() > MAX_NAME {
        v.truncate(MAX_NAME);
        proof {
            assert(v@ =~= vstd::utf8::encode_utf8(name@).take(MAX_NAME as int));
        }
    }
    v
}

/// Audio just enabled under a name.
pub open spec fn fresh_audio(peer_name: Seq<u8>) -> AudioView {
    AudioView {
        peer_name: capped_name(peer_name),
        sinks: Seq::empty(),
        sources: Seq::empty(),
        known: Seq::empty(),
        paths: Seq::empty(),
        last_announce_at: 0,
    }
}

impl AudioState {
    pub fn new(peer_name: &str) -> (a: AudioState)
        ensures
            a@ == fresh_audio(vstd::utf8::encode_utf8(peer_name@)),
    {
        let a = AudioState {
            peer_name: cap_name(peer_name),
            sinks: Vec::new(),
            sources: Table::new(),
            known: Table::new(),
            paths: Table::new(),
            last_announce_at: 0,
        };
        proof {
            assert(a@.sinks =~= Seq::empty());
        }
        a
    }
}

// --------------------------------------------------------------- invariants

/// What holds of the requests for a channel.
pub open spec fn requesters_ok(requesters: Seq<(NodeId, i64)>) -> bool {
    &&& distinct(requesters)
    &&& forall|i: int|
        0 <= i < requesters.len() ==> is_deadline((#[trigger] requesters[i]).1, MAX_TTL)
}

/// What holds of every sink.
pub open spec fn sink_ok(s: SinkView) -> bool {
    &&& requesters_ok(s.requesters)
    &&& s.name.len() <= MAX_NAME
    &&& have_tempo(s.segments)
}

/// What holds of every source.
pub open spec fn source_ok(s: SourceView) -> bool {
    &&& is_clock(s.last_request_at)
    &&& NEVER <= s.last_buffer_at <= MAX_CLOCK
    &&& s.inbox.len() <= INBOX_LIMIT
}

/// What holds of every audio state between two events.
pub open spec fn audio_ok(a: AudioView) -> bool {
    &&& a.peer_name.len() <= MAX_NAME
    &&& forall|i: int| 0 <= i < a.sinks.len() ==> sink_ok(#[trigger] a.sinks[i])
    &&& distinct(a.sources)
    &&& forall|i: int| 0 <= i < a.sources.len() ==> source_ok((#[trigger] a.sources[i]).1)
    &&& distinct(a.known)
    &&& forall|i: int|
        0 <= i < a.known.len() ==> is_deadline((#[trigger] a.known[i]).1.deadline, MAX_TTL)
    &&& distinct(a.paths)
    &&& forall|i: int|
        0 <= i < a.paths.len() ==> (#[trigger] a.paths[i]).1.rtts.len() <= RTT_WINDOW
    &&& is_clock(a.last_announce_at)
}

/// Other known channels in order keep the audio state in order.
pub proof fn lemma_with_known(a: AudioView, known: Seq<(Route, KnownChannelView)>)
    requires
        audio_ok(a),
        distinct(known),
        forall|i: int|
            0 <= i < known.len() ==> is_deadline((#[trigger] known[i]).1.deadline, MAX_TTL),
    ensures
        audio_ok(AudioView { known, ..a }),
{
}

} // verus!
