//! Peer discovery messages.

use vstd::prelude::*;

use crate::wire::codec::{
    container_bytes, entry_bytes, exactly, fold_entries, law_unknown_entries_are_skipped,
    lemma_entry_len, lemma_fold_entry, Entries, Error, Writer,
};
use crate::wire::prefix::{
    lemma_prefix_roundtrip, prefix_bytes, prefix_of, read_prefix, write_prefix, Prefix,
};
use crate::wire::types::{
    decode_endpoint_value, endpoint_bytes, endpoint_entry_bytes, endpoint_value, is_plain_endpoint,
    law_endpoint_roundtrip, lemma_endpoint_len, lemma_parse_id, lemma_parse_start_stop,
    lemma_parse_timeline, parse_id, parse_start_stop, parse_timeline, start_stop_bytes,
    timeline_bytes, write_endpoint_entry, write_id_entry, NodeId, SessionId, SocketAddr,
    StartStopState, Timeline,
};

verus! {

/// Frame magic: ASCII `_asdp_v` + version byte 0x01.
pub const MAGIC: [u8; 8] = [0x5f, 0x61, 0x73, 0x64, 0x70, 0x5f, 0x76, 0x01];

/// IPv4 multicast group.
pub const MULTICAST_V4: [u8; 4] = [224, 76, 78, 75];

/// IPv6 link-local multicast group.
pub const MULTICAST_V6: [u16; 8] = [0xff12, 0, 0, 0, 0, 0, 0, 0x8080];

/// UDP port of the multicast receive socket.
pub const PORT: u16 = 20808;

/// Receivers accept up to 512 bytes; senders stay ≤ 511.
pub const MAX_MESSAGE_SIZE: usize = 512;

/// Header `ttl` nominally sent for state messages.
pub const TTL_SECONDS: u8 = 5;

/// Nominal announcement period: ttl × 1000 / 20 ms.
pub const ALIVE_PERIOD_MS: u64 = 250;

/// Minimum spacing between state-change broadcasts.
pub const MIN_BROADCAST_SPACING_MS: u64 = 50;

pub const TYPE_ALIVE: u8 = 1;

pub const TYPE_RESPONSE: u8 = 2;

pub const TYPE_BYEBYE: u8 = 3;

/// `tmln`: timeline.
pub const KEY_TMLN: u32 = 0x746d_6c6e;

/// `sess`: session.
pub const KEY_SESS: u32 = 0x7365_7373;

/// `stst`: start/stop state.
pub const KEY_STST: u32 = 0x7374_7374;

/// `mep4`: measurement endpoint, IPv4.
pub const KEY_MEP4: u32 = 0x6d65_7034;

/// `mep6`: measurement endpoint, IPv6.
pub const KEY_MEP6: u32 = 0x6d65_7036;

/// `aep4`: audio endpoint, IPv4.
pub const KEY_AEP4: u32 = 0x6165_7034;

/// `aep6`: audio endpoint, IPv6.
pub const KEY_AEP6: u32 = 0x6165_7036;

// -------------------------------------------------------------- peer state

/// The peer-state payload carried by Alive and Response. Every entry is
/// optional on receive; a missing entry leaves the field `None`.
#[derive(Debug, Clone, Copy, PartialEq, Eq)]
pub struct PeerState {
    pub timeline: Option<Timeline>,
    pub session: Option<SessionId>,
    pub start_stop: Option<StartStopState>,
    pub measurement_endpoint: Option<SocketAddr>,
    pub audio_endpoint: Option<SocketAddr>,
}

/// The peer state of an empty payload.
pub open spec fn no_state() -> PeerState {
    PeerState {
        timeline: None,
        session: None,
        start_stop: None,
        measurement_endpoint: None,
        audio_endpoint: None,
    }
}

impl Default for PeerState {
    fn default() -> (s: Self)
        ensures
            s == no_state(),
    {
        PeerState {
            timeline: None,
            session: None,
            start_stop: None,
            measurement_endpoint: None,
            audio_endpoint: None,
        }
    }
}

pub open spec fn timeline_entry(t: Option<Timeline>) -> Seq<u8> {
    match t {
        Some(t) => entry_bytes(KEY_TMLN, timeline_bytes(t)),
        None => Seq::empty(),
    }
}

pub open spec fn session_entry(s: Option<SessionId>) -> Seq<u8> {
    match s {
        Some(s) => entry_bytes(KEY_SESS, s.0@),
        None => Seq::empty(),
    }
}

pub open spec fn start_stop_entry(s: Option<StartStopState>) -> Seq<u8> {
    match s {
        Some(s) => entry_bytes(KEY_STST, start_stop_bytes(s)),
        None => Seq::empty(),
    }
}

fn write_timeline_entry(w: &mut Writer, t: &Option<Timeline>)
    ensures
        final(w)@ == old(w)@ + timeline_entry(*t),
{
    if let Some(t) = t {
        let value = |w: &mut Writer|
            ensures
                final(w)@ == old(w)@ + timeline_bytes(*t),
        {
            t.write(w);
        };
        w.entry(KEY_TMLN, value);
        proof {
            assert(w@ == old(w)@ + entry_bytes(KEY_TMLN, timeline_bytes(*t)));
        }
    } else {
        proof {
            assert(w@ =~= old(w)@ + timeline_entry(*t));
        }
    }
}

fn write_session_entry(w: &mut Writer, s: &Option<SessionId>)
    ensures
        final(w)@ == old(w)@ + session_entry(*s),
{
    if let Some(s) = s {
        write_id_entry(w, KEY_SESS, s);
    } else {
        proof {
            assert(w@ =~= old(w)@ + session_entry(*s));
        }
    }
}

fn write_start_stop_entry(w: &mut Writer, s: &Option<StartStopState>)
    ensures
        final(w)@ == old(w)@ + start_stop_entry(*s),
{
    if let Some(s) = s {
        let value = |w: &mut Writer|
            ensures
                final(w)@ == old(w)@ + start_stop_bytes(*s),
        {
            s.write(w);
        };
        w.entry(KEY_STST, value);
        proof {
            assert(w@ == old(w)@ + entry_bytes(KEY_STST, start_stop_bytes(*s)));
        }
    } else {
        proof {
            assert(w@ =~= old(w)@ + start_stop_entry(*s));
        }
    }
}

/// The wire form of a peer state: one entry for each field that is there.
pub open spec fn peer_state_bytes(s: PeerState) -> Seq<u8> {
    timeline_entry(s.timeline) + (session_entry(s.session) + (start_stop_entry(s.start_stop) + (
    endpoint_entry_bytes(KEY_MEP4, KEY_MEP6, s.measurement_endpoint) + endpoint_entry_bytes(
        KEY_AEP4,
        KEY_AEP6,
        s.audio_endpoint,
    ))))
}

/// How one entry updates a peer state; unknown keys are skipped.
pub open spec fn peer_step(acc: PeerState, key: u32, value: Seq<u8>) -> Result<PeerState, Error> {
    if key == KEY_TMLN {
        match exactly(parse_timeline(value)) {
            Ok(v) => Ok(PeerState { timeline: Some(v), ..acc }),
            Err(e) => Err(e),
        }
    } else if key == KEY_SESS {
        match exactly(parse_id(value)) {
            Ok(v) => Ok(PeerState { session: Some(v), ..acc }),
            Err(e) => Err(e),
        }
    } else if key == KEY_STST {
        match exactly(parse_start_stop(value)) {
            Ok(v) => Ok(PeerState { start_stop: Some(v), ..acc }),
            Err(e) => Err(e),
        }
    } else if key == KEY_MEP4 || key == KEY_MEP6 {
        match endpoint_value(value) {
            Ok(v) => Ok(PeerState { measurement_endpoint: Some(v), ..acc }),
            Err(e) => Err(e),
        }
    } else if key == KEY_AEP4 || key == KEY_AEP6 {
        match endpoint_value(value) {
            Ok(v) => Ok(PeerState { audio_endpoint: Some(v), ..acc }),
            Err(e) => Err(e),
        }
    } else {
        Ok(acc)
    }
}

/// [`peer_step`] as a value.
pub open spec fn peer_stepper() -> spec_fn(PeerState, u32, Seq<u8>) -> Result<PeerState, Error> {
    |acc: PeerState, key: u32, value: Seq<u8>| peer_step(acc, key, value)
}

/// The peer state that a payload container holds.
pub open spec fn peer_state_of(payload: Seq<u8>) -> Result<PeerState, Error> {
    fold_entries(payload, no_state(), peer_stepper())
}

impl PeerState {
    /// Encode in the customary order; receivers must not rely on it.
    pub fn write(&self, w: &mut Writer)
        ensures
            final(w)@ == old(w)@ + peer_state_bytes(*self),
    {
        write_timeline_entry(w, &self.timeline);
        write_session_entry(w, &self.session);
        write_start_stop_entry(w, &self.start_stop);
        write_endpoint_entry(w, KEY_MEP4, KEY_MEP6, &self.measurement_endpoint);
        write_endpoint_entry(w, KEY_AEP4, KEY_AEP6, &self.audio_endpoint);
        proof {
            assert(w@ =~= old(w)@ + peer_state_bytes(*self));
        }
    }

    pub fn read(payload: &[u8]) -> (res: Result<PeerState, Error>)
        ensures
            res == peer_state_of(payload@),
    {
        let mut state = PeerState::default();
        let mut entries = Entries::new(payload);
        loop
            invariant
                peer_state_of(payload@) == fold_entries(entries@, state, peer_stepper()),
            decreases entries@.len(),
        {
            let entry = match entries.next() {
                Some(entry) => entry?,
                None => {
                    return Ok(state);
                },
            };
            if entry.key == KEY_TMLN {
                state.timeline = Some(entry.decode(Timeline::read)?);
            } else if entry.key == KEY_SESS {
                state.session = Some(entry.decode(SessionId::read)?);
            } else if entry.key == KEY_STST {
                state.start_stop = Some(entry.decode(StartStopState::read)?);
            } else if entry.key == KEY_MEP4 || entry.key == KEY_MEP6 {
                state.measurement_endpoint = Some(decode_endpoint_value(entry.value)?);
            } else if entry.key == KEY_AEP4 || entry.key == KEY_AEP6 {
                state.audio_endpoint = Some(decode_endpoint_value(entry.value)?);
            }
        }
    }
}

// ------------------------------------------------------------------ frames

#[derive(Debug, Clone, Copy, PartialEq, Eq)]
pub enum Message {
    /// Periodic multicast state dump.
    Alive(PeerState),
    /// Unicast state dump answering an Alive; encoded like it.
    Response(PeerState),
    /// Departure announcement; empty payload, ttl 0.
    ByeBye,
}

/// One discovery datagram.
#[derive(Debug, Clone, Copy, PartialEq, Eq)]
pub struct Frame {
    /// Seconds the carried state stays valid (0 for ByeBye).
    pub ttl: u8,
    /// Session group; always 0 in this protocol version. Receivers must ignore
    /// frames with any other value: the codec surfaces it so that the peer can
    /// apply that admission rule.
    pub group_id: u16,
    /// The sender.
    pub node: NodeId,
    pub message: Message,
}

impl Frame {
    pub fn alive(node: NodeId, state: PeerState) -> (f: Frame)
        ensures
            f == (Frame { ttl: TTL_SECONDS, group_id: 0, node, message: Message::Alive(state) }),
    {
        Frame { ttl: TTL_SECONDS, group_id: 0, node, message: Message::Alive(state) }
    }

    pub fn response(node: NodeId, state: PeerState) -> (f: Frame)
        ensures
            f == (Frame { ttl: TTL_SECONDS, group_id: 0, node, message: Message::Response(state) }),
    {
        Frame { ttl: TTL_SECONDS, group_id: 0, node, message: Message::Response(state) }
    }

    pub fn bye_bye(node: NodeId) -> (f: Frame)
        ensures
            f == (Frame { ttl: 0, group_id: 0, node, message: Message::ByeBye }),
    {
        Frame { ttl: 0, group_id: 0, node, message: Message::ByeBye }
    }
}

pub open spec fn type_of(m: Message) -> u8 {
    match m {
        Message::Alive(_) => TYPE_ALIVE,
        Message::Response(_) => TYPE_RESPONSE,
        Message::ByeBye => TYPE_BYEBYE,
    }
}

pub open spec fn payload_of(m: Message) -> Seq<u8> {
    match m {
        Message::Alive(s) => peer_state_bytes(s),
        Message::Response(s) => peer_state_bytes(s),
        Message::ByeBye => Seq::empty(),
    }
}

/// The datagram of a frame.
pub open spec fn frame_bytes(f: Frame) -> Seq<u8> {
    prefix_bytes(
        MAGIC@,
        Prefix { msg_type: type_of(f.message), ttl: f.ttl, group_id: f.group_id, node: f.node },
    ) + payload_of(f.message)
}

/// Encode a frame.
pub fn encode(frame: &Frame) -> (v: Vec<u8>)
    ensures
        v@ == frame_bytes(*frame),
{
    let mut w = Writer::new();
    let (msg_type, state) = match &frame.message {
        Message::Alive(s) => (TYPE_ALIVE, Some(s)),
        Message::Response(s) => (TYPE_RESPONSE, Some(s)),
        Message::ByeBye => (TYPE_BYEBYE, None),
    };
    write_prefix(
        &mut w,
        &MAGIC,
        &Prefix { msg_type, ttl: frame.ttl, group_id: frame.group_id, node: frame.node },
    );
    if let Some(state) = state {
        state.write(&mut w);
    }
    proof {
        assert(w@ =~= frame_bytes(*frame));
    }
    w.into_vec()
}

/// The fixed 20-byte frame prefix, decodable independently of the payload: a
/// receiver answers an Alive with a Response *before* processing the payload
/// and regardless of whether it parses.
#[derive(Debug, Clone, Copy, PartialEq, Eq)]
pub struct Header {
    pub msg_type: u8,
    pub ttl: u8,
    pub group_id: u16,
    pub node: NodeId,
}

impl Header {
    pub fn is_alive(&self) -> (b: bool)
        ensures
            b == (self.msg_type == TYPE_ALIVE),
    {
        self.msg_type == TYPE_ALIVE
    }
}

/// The header of a datagram.
pub open spec fn header_of(datagram: Seq<u8>) -> Result<Header, Error> {
    match prefix_of(MAGIC@, datagram) {
        Ok((p, _)) => Ok(
            Header { msg_type: p.msg_type, ttl: p.ttl, group_id: p.group_id, node: p.node },
        ),
        Err(e) => Err(e),
    }
}

pub fn decode_header(datagram: &[u8]) -> (res: Result<Header, Error>)
    ensures
        res == header_of(datagram@),
{
    let (p, _) = read_prefix(&MAGIC, datagram)?;
    Ok(Header { msg_type: p.msg_type, ttl: p.ttl, group_id: p.group_id, node: p.node })
}

/// The message of a type and a payload.
pub open spec fn message_of(msg_type: u8, payload: Seq<u8>) -> Result<Message, Error> {
    if msg_type == TYPE_ALIVE {
        match peer_state_of(payload) {
            Ok(s) => Ok(Message::Alive(s)),
            Err(e) => Err(e),
        }
    } else if msg_type == TYPE_RESPONSE {
        match peer_state_of(payload) {
            Ok(s) => Ok(Message::Response(s)),
            Err(e) => Err(e),
        }
    } else if msg_type == TYPE_BYEBYE {
        Ok(Message::ByeBye)
    } else {
        Err(Error::UnknownMessageType(msg_type))
    }
}

/// What a datagram decodes to.
pub open spec fn decoded(datagram: Seq<u8>) -> Result<Frame, Error> {
    match prefix_of(MAGIC@, datagram) {
        Ok((p, payload)) => match message_of(p.msg_type, payload) {
            Ok(message) => Ok(Frame { ttl: p.ttl, group_id: p.group_id, node: p.node, message }),
            Err(e) => Err(e),
        },
        Err(e) => Err(e),
    }
}

/// Decode a discovery datagram.
pub fn decode(datagram: &[u8]) -> (res: Result<Frame, Error>)
    ensures
        res == decoded(datagram@),
{
    let (p, payload) = read_prefix(&MAGIC, datagram)?;
    let message = if p.msg_type == TYPE_ALIVE {
        Message::Alive(PeerState::read(payload)?)
    } else if p.msg_type == TYPE_RESPONSE {
        Message::Response(PeerState::read(payload)?)
    } else if p.msg_type == TYPE_BYEBYE {
        Message::ByeBye
    } else {
        return Err(Error::UnknownMessageType(p.msg_type));
    };
    Ok(Frame { ttl: p.ttl, group_id: p.group_id, node: p.node, message })
}

// ------------------------------------------------------------------- laws

/// Whether the endpoints of a peer state hold nothing but what is transmitted.
pub open spec fn has_plain_endpoints(s: PeerState) -> bool {
    &&& s.measurement_endpoint matches Some(ep) ==> is_plain_endpoint(ep)
    &&& s.audio_endpoint matches Some(ep) ==> is_plain_endpoint(ep)
}

pub open spec fn is_plain_message(m: Message) -> bool {
    match m {
        Message::Alive(s) => has_plain_endpoints(s),
        Message::Response(s) => has_plain_endpoints(s),
        Message::ByeBye => true,
    }
}

/// Reading the wire form of a peer state gives the peer state.
pub proof fn law_peer_state_roundtrip(s: PeerState)
    requires
        has_plain_endpoints(s),
    ensures
        peer_state_of(peer_state_bytes(s)) == Ok::<_, Error>(s),
{
    let none = Seq::<u8>::empty();
    let step = peer_stepper();
    let aep = endpoint_entry_bytes(KEY_AEP4, KEY_AEP6, s.audio_endpoint);
    let mep = endpoint_entry_bytes(KEY_MEP4, KEY_MEP6, s.measurement_endpoint);
    let r3 = mep + aep;
    let r2 = start_stop_entry(s.start_stop) + r3;
    let r1 = session_entry(s.session) + r2;
    let s1 = PeerState { timeline: s.timeline, ..no_state() };
    let s2 = PeerState { session: s.session, ..s1 };
    let s3 = PeerState { start_stop: s.start_stop, ..s2 };
    let s4 = PeerState { measurement_endpoint: s.measurement_endpoint, ..s3 };
    assert(fold_entries(peer_state_bytes(s), no_state(), step) == fold_entries(r1, s1, step)) by {
        if let Some(t) = s.timeline {
            lemma_parse_timeline(t, none);
            assert(timeline_bytes(t) + none =~= timeline_bytes(t));
            lemma_fold_entry(KEY_TMLN, timeline_bytes(t), r1, no_state(), step);
        } else {
            assert(peer_state_bytes(s) =~= r1);
        }
    }
    assert(fold_entries(r1, s1, step) == fold_entries(r2, s2, step)) by {
        if let Some(id) = s.session {
            lemma_parse_id(id, none);
            assert(id.0@ + none =~= id.0@);
            lemma_fold_entry(KEY_SESS, id.0@, r2, s1, step);
        } else {
            assert(r1 =~= r2);
        }
    }
    assert(fold_entries(r2, s2, step) == fold_entries(r3, s3, step)) by {
        if let Some(st) = s.start_stop {
            lemma_parse_start_stop(st, none);
            assert(start_stop_bytes(st) + none =~= start_stop_bytes(st));
            lemma_fold_entry(KEY_STST, start_stop_bytes(st), r3, s2, step);
        } else {
            assert(r2 =~= r3);
        }
    }
    assert(fold_entries(r3, s3, step) == fold_entries(aep, s4, step)) by {
        if let Some(ep) = s.measurement_endpoint {
            let key = if ep is V4 {
                KEY_MEP4
            } else {
                KEY_MEP6
            };
            law_endpoint_roundtrip(ep);
            lemma_endpoint_len(ep);
            assert(mep == entry_bytes(key, endpoint_bytes(ep)));
            lemma_fold_entry(key, endpoint_bytes(ep), aep, s3, step);
        } else {
            assert(r3 =~= aep);
        }
    }
    assert(fold_entries(aep, s4, step) == Ok::<_, Error>(s)) by {
        if let Some(ep) = s.audio_endpoint {
            let key = if ep is V4 {
                KEY_AEP4
            } else {
                KEY_AEP6
            };
            law_endpoint_roundtrip(ep);
            lemma_endpoint_len(ep);
            assert(aep == entry_bytes(key, endpoint_bytes(ep)));
            assert(aep + none =~= aep);
            lemma_fold_entry(key, endpoint_bytes(ep), none, s4, step);
        }
    }
}

/// Decoding an encoded frame gives the frame. (An endpoint's flow label and
/// scope are never transmitted.)
pub proof fn law_frame_roundtrip(f: Frame)
    requires
        is_plain_message(f.message),
    ensures
        decoded(frame_bytes(f)) == Ok::<_, Error>(f),
{
    let p = Prefix {
        msg_type: type_of(f.message),
        ttl: f.ttl,
        group_id: f.group_id,
        node: f.node,
    };
    lemma_prefix_roundtrip(MAGIC@, p, payload_of(f.message));
    match f.message {
        Message::Alive(s) => law_peer_state_roundtrip(s),
        Message::Response(s) => law_peer_state_roundtrip(s),
        Message::ByeBye => {},
    }
}

/// The header is that of the frame, also where the payload does not parse.
pub proof fn law_header_is_independent_of_payload(datagram: Seq<u8>)
    ensures
        header_of(datagram) is Err ==> decoded(datagram) is Err,
        decoded(datagram) matches Ok(f) ==> header_of(datagram) == Ok::<_, Error>(
            Header {
                msg_type: type_of(f.message),
                ttl: f.ttl,
                group_id: f.group_id,
                node: f.node,
            },
        ),
        forall|payload: Seq<u8>, p: Prefix|
            header_of(#[trigger] (prefix_bytes(MAGIC@, p) + payload)) == Ok::<_, Error>(
                Header { msg_type: p.msg_type, ttl: p.ttl, group_id: p.group_id, node: p.node },
            ),
{
    assert forall|payload: Seq<u8>, p: Prefix|
        header_of(#[trigger] (prefix_bytes(MAGIC@, p) + payload)) == Ok::<_, Error>(
            Header { msg_type: p.msg_type, ttl: p.ttl, group_id: p.group_id, node: p.node },
        ) by {
        lemma_prefix_roundtrip(MAGIC@, p, payload);
    }
}

pub open spec fn is_v4(ep: Option<SocketAddr>) -> bool {
    match ep {
        Some(SocketAddr::V4(_)) => true,
        _ => false,
    }
}

/// Sizes on the wire: 20 bytes without payload, 107 with the full state over
/// IPv4, 121 with an audio endpoint too; no frame reaches the limit.
pub proof fn law_frame_sizes(f: Frame)
    ensures
        frame_bytes(f).len() < MAX_MESSAGE_SIZE,
        f.message is ByeBye ==> frame_bytes(f).len() == 20,
        f.message matches Message::Alive(s) ==> s.timeline is Some ==> s.session is Some
            ==> s.start_stop is Some ==> is_v4(s.measurement_endpoint) ==> {
            &&& s.audio_endpoint is None ==> frame_bytes(f).len() == 107
            &&& is_v4(s.audio_endpoint) ==> frame_bytes(f).len() == 121
        },
{
    let p = Prefix {
        msg_type: type_of(f.message),
        ttl: f.ttl,
        group_id: f.group_id,
        node: f.node,
    };
    lemma_prefix_roundtrip(MAGIC@, p, payload_of(f.message));
    match f.message {
        Message::Alive(s) => lemma_peer_state_len(s),
        Message::Response(s) => lemma_peer_state_len(s),
        Message::ByeBye => {},
    }
}

proof fn lemma_peer_state_len(s: PeerState)
    ensures
        peer_state_bytes(s).len() == (if s.timeline is Some {
            32int
        } else {
            0
        }) + (if s.session is Some {
            16int
        } else {
            0
        }) + (if s.start_stop is Some {
            25int
        } else {
            0
        }) + endpoint_size(s.measurement_endpoint) + endpoint_size(s.audio_endpoint),
{
    let none = Seq::<u8>::empty();
    if let Some(t) = s.timeline {
        lemma_parse_timeline(t, none);
        lemma_entry_len(KEY_TMLN, timeline_bytes(t));
    }
    if let Some(id) = s.session {
        lemma_entry_len(KEY_SESS, id.0@);
    }
    if let Some(st) = s.start_stop {
        lemma_parse_start_stop(st, none);
        lemma_entry_len(KEY_STST, start_stop_bytes(st));
    }
    if let Some(ep) = s.measurement_endpoint {
        lemma_endpoint_len(ep);
        lemma_entry_len(KEY_MEP4, endpoint_bytes(ep));
        lemma_entry_len(KEY_MEP6, endpoint_bytes(ep));
    }
    if let Some(ep) = s.audio_endpoint {
        lemma_endpoint_len(ep);
        lemma_entry_len(KEY_AEP4, endpoint_bytes(ep));
        lemma_entry_len(KEY_AEP6, endpoint_bytes(ep));
    }
}

spec fn endpoint_size(ep: Option<SocketAddr>) -> int {
    match ep {
        None => 0,
        Some(SocketAddr::V4(_)) => 14,
        Some(SocketAddr::V6(_)) => 26,
    }
}

/// Which field of a peer state an entry sets: 0 is none.
pub open spec fn field_of(key: u32) -> int {
    if key == KEY_TMLN {
        1
    } else if key == KEY_SESS {
        2
    } else if key == KEY_STST {
        3
    } else if key == KEY_MEP4 || key == KEY_MEP6 {
        4
    } else if key == KEY_AEP4 || key == KEY_AEP6 {
        5
    } else {
        0
    }
}

/// Entries that no field takes are skipped, wherever they stand.
pub proof fn law_unknown_peer_entries_are_skipped(entries: Seq<(u32, Seq<u8>)>)
    requires
        forall|i: int| 0 <= i < entries.len() ==> (#[trigger] entries[i]).1.len() <= u32::MAX,
    ensures
        peer_state_of(container_bytes(entries)) == peer_state_of(
            container_bytes(entries.filter(|e: (u32, Seq<u8>)| field_of(e.0) != 0)),
        ),
{
    law_unknown_entries_are_skipped(
        entries,
        no_state(),
        peer_stepper(),
        |e: (u32, Seq<u8>)| field_of(e.0) != 0,
    );
}

/// The order of entries carries no meaning: two neighbours that set different
/// fields can change places, if both values decode.
pub proof fn law_entry_order_is_free(
    k1: u32,
    v1: Seq<u8>,
    k2: u32,
    v2: Seq<u8>,
    rest: Seq<u8>,
    acc: PeerState,
)
    requires
        v1.len() <= u32::MAX,
        v2.len() <= u32::MAX,
        field_of(k1) != field_of(k2),
        peer_step(no_state(), k1, v1) is Ok,
        peer_step(no_state(), k2, v2) is Ok,
    ensures
        fold_entries(entry_bytes(k1, v1) + (entry_bytes(k2, v2) + rest), acc, peer_stepper())
            == fold_entries(
            entry_bytes(k2, v2) + (entry_bytes(k1, v1) + rest),
            acc,
            peer_stepper(),
        ),
{
    let step = peer_stepper();
    lemma_fold_entry(k1, v1, entry_bytes(k2, v2) + rest, acc, step);
    lemma_fold_entry(k2, v2, entry_bytes(k1, v1) + rest, acc, step);
    if let Ok(a1) = peer_step(acc, k1, v1) {
        lemma_fold_entry(k2, v2, rest, a1, step);
    }
    if let Ok(a2) = peer_step(acc, k2, v2) {
        lemma_fold_entry(k1, v1, rest, a2, step);
    }
}

} // verus!
