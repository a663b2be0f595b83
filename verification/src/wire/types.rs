//! Protocol value types shared by the three protocols.

use vstd::prelude::*;

use crate::wire::codec::{
    be_bytes, entry_bytes, exactly, lemma_be_bytes_len, lemma_parse_bool, lemma_parse_i64,
    lemma_parse_id_bytes, lemma_parse_u128, lemma_parse_u16, lemma_parse_u32, parse_bool, parse_i64,
    parse_id_bytes, parse_u128, parse_u16, parse_u32, Error, Reader, Writer,
};
use crate::wire::text::{hex, to_hex};

verus! {

// ------------------------------------------------------------ identifiers

/// 8-byte random identifier: of a peer, a session or a channel.
#[derive(Debug, Clone, Copy, Eq, PartialOrd, Ord, Hash)]
pub struct Id(pub [u8; 8]);

/// A peer instance on the network.
pub type NodeId = Id;

/// A session: the [`NodeId`] of the peer that founded it.
pub type SessionId = Id;

/// A published audio channel.
pub type ChannelId = Id;

impl PartialEq for Id {
    fn eq(&self, other: &Id) -> (r: bool) {
        let mut i: usize = 0;
        while i < 8
            invariant
                i <= 8,
                forall|j: int| 0 <= j < i ==> self.0@[j] == other.0@[j],
            decreases 8 - i,
        {
            if self.0[i] != other.0[i] {
                return false;
            }
            i = i + 1;
        }
        proof {
            assert(self.0 =~= other.0);
        }
        true
    }
}

impl vstd::std_specs::cmp::PartialEqSpecImpl for Id {
    open spec fn obeys_eq_spec() -> bool {
        true
    }

    open spec fn eq_spec(&self, other: &Id) -> bool {
        *self == *other
    }
}

/// Byte-wise order: at the first byte in which they differ, `a` has the
/// lesser one.
pub open spec fn id_before(a: Id, b: Id) -> bool {
    exists|k: int|
        0 <= k < 8 && #[trigger] a.0@[k] < b.0@[k] && forall|j: int|
            0 <= j < k ==> a.0@[j] == b.0@[j]
}

/// Byte-wise order is strict: no two identifiers precede each other, and none
/// precedes itself.
pub proof fn law_id_order_is_strict(a: Id, b: Id)
    ensures
        !(id_before(a, b) && id_before(b, a)),
        !id_before(a, a),
{
    if id_before(a, b) && id_before(b, a) {
        let k = choose|k: int|
            0 <= k < 8 && #[trigger] a.0@[k] < b.0@[k] && forall|j: int|
                0 <= j < k ==> a.0@[j] == b.0@[j];
        let m = choose|m: int|
            0 <= m < 8 && #[trigger] b.0@[m] < a.0@[m] && forall|j: int|
                0 <= j < m ==> b.0@[j] == a.0@[j];
        assert(k < m || m < k || k == m);
    }
}

/// Byte-wise order is total: of two different identifiers one precedes the
/// other.
pub proof fn law_id_order_is_total(a: Id, b: Id)
    requires
        a != b,
    ensures
        id_before(a, b) || id_before(b, a),
{
    if forall|j: int| 0 <= j < 8 ==> a.0@[j] == b.0@[j] {
        assert(a.0 =~= b.0);
    }
    let n = choose|n: int| 0 <= n < 8 && #[trigger] a.0@[n] != b.0@[n];
    lemma_first_difference(a, b, n);
}

proof fn lemma_first_difference(a: Id, b: Id, n: int)
    requires
        0 <= n < 8,
        a.0@[n] != b.0@[n],
    ensures
        id_before(a, b) || id_before(b, a),
    decreases n,
{
    if exists|j: int| 0 <= j < n && #[trigger] a.0@[j] != b.0@[j] {
        let j = choose|j: int| 0 <= j < n && #[trigger] a.0@[j] != b.0@[j];
        lemma_first_difference(a, b, j);
    } else if a.0@[n] < b.0@[n] {
        assert(id_before(a, b));
    } else {
        assert(b.0@[n] < a.0@[n]);
        assert(id_before(b, a));
    }
}

/// What reading an identifier makes of `s`.
pub open spec fn parse_id(s: Seq<u8>) -> (Result<Id, Error>, Seq<u8>) {
    match parse_id_bytes(s) {
        (Ok(b), rest) => (Ok(Id(b)), rest),
        (Err(e), rest) => (Err(e), rest),
    }
}

pub proof fn lemma_parse_id(id: Id, rest: Seq<u8>)
    ensures
        parse_id(id.0@ + rest) == (Ok::<_, Error>(id), rest),
{
    lemma_parse_id_bytes(id.0, rest);
}

impl Id {
    pub fn read(r: &mut Reader<'_>) -> (res: Result<Id, Error>)
        ensures
            (res, final(r)@) == parse_id(old(r)@),
    {
        let b = r.id()?;
        Ok(Id(b))
    }

    pub fn write(&self, w: &mut Writer)
        ensures
            final(w)@ == old(w)@ + self.0@,
    {
        w.id(&self.0);
    }

    /// Whether this identifier comes first in byte-wise order.
    pub fn is_before(&self, other: &Id) -> (r: bool)
        ensures
            r == id_before(*self, *other),
    {
        let mut i: usize = 0;
        while i < 8
            invariant
                i <= 8,
                forall|j: int| 0 <= j < i ==> self.0@[j] == other.0@[j],
            decreases 8 - i,
        {
            if self.0[i] < other.0[i] {
                proof {
                    assert(self.0@[i as int] < other.0@[i as int]);
                }
                return true;
            }
            if other.0[i] < self.0[i] {
                proof {
                    assert(other.0@[i as int] < self.0@[i as int]);
                    assert(id_before(*other, *self));
                    law_id_order_is_strict(*self, *other);
                }
                return false;
            }
            i = i + 1;
        }
        false
    }

    /// Sixteen hexadecimal digits.
    pub fn to_string(&self) -> (s: String)
        ensures
            s@ == hex(self.0@),
    {
        to_hex(self.0.as_slice())
    }
}

/// Whether a list holds an identifier.
pub fn contains_id(ids: &Vec<Id>, id: &Id) -> (r: bool)
    ensures
        r == ids@.contains(*id),
{
    let mut i: usize = 0;
    while i < ids.len()
        invariant
            i <= ids@.len(),
            forall|j: int| 0 <= j < i ==> ids@[j] != *id,
        decreases ids@.len() - i,
    {
        if ids[i] == *id {
            return true;
        }
        i = i + 1;
    }
    false
}

// --------------------------------------------------------------- timeline

/// The session timeline: a bijection between beats and ghost-time
/// microseconds.
#[derive(Debug, Clone, Copy, PartialEq, Eq, Structural)]
pub struct Timeline {
    /// Tempo as a period: microseconds per beat.
    pub tempo: i64,
    /// Beat origin in micro-beats.
    pub beat_origin: i64,
    /// Time origin in ghost-time microseconds.
    pub time_origin: i64,
}

impl View for Timeline {
    type V = Timeline;

    open spec fn view(&self) -> Timeline {
        *self
    }
}

pub open spec fn i64_bytes(v: i64) -> Seq<u8> {
    be_bytes((v as u64) as nat, 8)
}

/// The wire form of a timeline.
pub open spec fn timeline_bytes(t: Timeline) -> Seq<u8> {
    i64_bytes(t.tempo) + i64_bytes(t.beat_origin) + i64_bytes(t.time_origin)
}

/// What reading a timeline makes of `s`.
pub open spec fn parse_timeline(s: Seq<u8>) -> (Result<Timeline, Error>, Seq<u8>) {
    match parse_i64(s) {
        (Err(e), r1) => (Err(e), r1),
        (Ok(tempo), r1) => match parse_i64(r1) {
            (Err(e), r2) => (Err(e), r2),
            (Ok(beat_origin), r2) => match parse_i64(r2) {
                (Err(e), r3) => (Err(e), r3),
                (Ok(time_origin), r3) => (Ok(Timeline { tempo, beat_origin, time_origin }), r3),
            },
        },
    }
}

/// A timeline read back from its own bytes, whatever follows them.
pub proof fn lemma_parse_timeline(t: Timeline, rest: Seq<u8>)
    ensures
        timeline_bytes(t).len() == Timeline::WIRE_SIZE,
        parse_timeline(timeline_bytes(t) + rest) == (Ok::<_, Error>(t), rest),
{
    let c = i64_bytes(t.time_origin) + rest;
    let b = i64_bytes(t.beat_origin) + c;
    assert(timeline_bytes(t) + rest =~= i64_bytes(t.tempo) + b);
    lemma_parse_i64(t.tempo, b);
    lemma_parse_i64(t.beat_origin, c);
    lemma_parse_i64(t.time_origin, rest);
    lemma_be_bytes_len((t.tempo as u64) as nat, 8);
    lemma_be_bytes_len((t.beat_origin as u64) as nat, 8);
    lemma_be_bytes_len((t.time_origin as u64) as nat, 8);
}

impl Timeline {
    pub const WIRE_SIZE: usize = 24;

    pub fn read(r: &mut Reader<'_>) -> (res: Result<Timeline, Error>)
        ensures
            (res, final(r)@) == parse_timeline(old(r)@),
    {
        let tempo = r.i64()?;
        let beat_origin = r.i64()?;
        let time_origin = r.i64()?;
        Ok(Timeline { tempo, beat_origin, time_origin })
    }

    pub fn write(&self, w: &mut Writer)
        ensures
            final(w)@ == old(w)@ + timeline_bytes(*self),
    {
        w.i64(self.tempo);
        w.i64(self.beat_origin);
        w.i64(self.time_origin);
        proof {
            assert(w@ =~= old(w)@ + timeline_bytes(*self));
        }
    }
}

// -------------------------------------------------------------- transport

/// Transport start/stop state.
#[derive(Debug, Clone, Copy, PartialEq, Eq, Structural)]
pub struct StartStopState {
    pub is_playing: bool,
    /// Session-timeline beat position of the transport change, micro-beats.
    pub beats: i64,
    /// Ghost time of the user action, microseconds.
    pub timestamp: i64,
}

/// The state before any user action.
pub open spec fn stopped() -> StartStopState {
    StartStopState { is_playing: false, beats: 0, timestamp: 0 }
}

impl Default for StartStopState {
    fn default() -> (s: Self)
        ensures
            s == stopped(),
    {
        StartStopState { is_playing: false, beats: 0, timestamp: 0 }
    }
}

/// The wire form of a start/stop state.
pub open spec fn start_stop_bytes(s: StartStopState) -> Seq<u8> {
    be_bytes(if s.is_playing { 1 } else { 0 }, 1) + i64_bytes(s.beats) + i64_bytes(s.timestamp)
}

/// What reading a start/stop state makes of `s`.
pub open spec fn parse_start_stop(s: Seq<u8>) -> (Result<StartStopState, Error>, Seq<u8>) {
    match parse_bool(s) {
        (Err(e), r1) => (Err(e), r1),
        (Ok(is_playing), r1) => match parse_i64(r1) {
            (Err(e), r2) => (Err(e), r2),
            (Ok(beats), r2) => match parse_i64(r2) {
                (Err(e), r3) => (Err(e), r3),
                (Ok(timestamp), r3) => (
                    Ok(StartStopState { is_playing, beats, timestamp }),
                    r3,
                ),
            },
        },
    }
}

/// A start/stop state read back from its own bytes, whatever follows them.
pub proof fn lemma_parse_start_stop(s: StartStopState, rest: Seq<u8>)
    ensures
        start_stop_bytes(s).len() == StartStopState::WIRE_SIZE,
        parse_start_stop(start_stop_bytes(s) + rest) == (Ok::<_, Error>(s), rest),
{
    let c = i64_bytes(s.timestamp) + rest;
    let b = i64_bytes(s.beats) + c;
    let flag: nat = if s.is_playing { 1 } else { 0 };
    assert(start_stop_bytes(s) + rest =~= be_bytes(flag, 1) + b);
    lemma_parse_bool(s.is_playing, b);
    lemma_parse_i64(s.beats, c);
    lemma_parse_i64(s.timestamp, rest);
    lemma_be_bytes_len(flag, 1);
    lemma_be_bytes_len((s.beats as u64) as nat, 8);
    lemma_be_bytes_len((s.timestamp as u64) as nat, 8);
}

impl StartStopState {
    pub const WIRE_SIZE: usize = 17;

    pub fn read(r: &mut Reader<'_>) -> (res: Result<StartStopState, Error>)
        ensures
            (res, final(r)@) == parse_start_stop(old(r)@),
    {
        let is_playing = r.bool()?;
        let beats = r.i64()?;
        let timestamp = r.i64()?;
        Ok(StartStopState { is_playing, beats, timestamp })
    }

    pub fn write(&self, w: &mut Writer)
        ensures
            final(w)@ == old(w)@ + start_stop_bytes(*self),
    {
        w.bool(self.is_playing);
        w.i64(self.beats);
        w.i64(self.timestamp);
        proof {
            assert(w@ =~= old(w)@ + start_stop_bytes(*self));
        }
    }
}


// ----------------------------------------------------- single-value entries

/// A number is exactly what its own bytes decode to.
pub proof fn lemma_i64_value(v: i64)
    ensures
        i64_bytes(v).len() == 8,
        exactly(parse_i64(i64_bytes(v))) == Ok::<_, Error>(v),
{
    let none = Seq::<u8>::empty();
    lemma_be_bytes_len((v as u64) as nat, 8);
    lemma_parse_i64(v, none);
    assert(i64_bytes(v) + none =~= i64_bytes(v));
}

/// Append an entry that holds one signed 64-bit number.
pub fn write_i64_entry(w: &mut Writer, key: u32, v: i64)
    ensures
        final(w)@ == old(w)@ + entry_bytes(key, i64_bytes(v)),
{
    let value = |w: &mut Writer|
        ensures
            final(w)@ == old(w)@ + i64_bytes(v),
    {
        w.i64(v);
    };
    w.entry(key, value);
    proof {
        assert(w@ == old(w)@ + entry_bytes(key, i64_bytes(v)));
    }
}

/// Append an entry that holds one identifier.
pub fn write_id_entry(w: &mut Writer, key: u32, id: &Id)
    ensures
        final(w)@ == old(w)@ + entry_bytes(key, id.0@),
{
    let value = |w: &mut Writer|
        ensures
            final(w)@ == old(w)@ + id.0@,
    {
        id.write(w);
    };
    w.entry(key, value);
    proof {
        assert(w@ == old(w)@ + entry_bytes(key, id.0@));
    }
}

// -------------------------------------------------------------- endpoints

/// An IPv4 endpoint; the address is the number its four bytes spell.
#[derive(Debug, Clone, Copy, PartialEq, Eq, Structural)]
pub struct SocketAddrV4 {
    pub ip: u32,
    pub port: u16,
}

/// An IPv6 endpoint; the address is the number its sixteen bytes spell.
#[derive(Debug, Clone, Copy, PartialEq, Eq, Structural)]
pub struct SocketAddrV6 {
    pub ip: u128,
    pub port: u16,
    pub flowinfo: u32,
    pub scope_id: u32,
}

/// A UDP endpoint.
#[derive(Debug, Clone, Copy, PartialEq, Eq, Structural)]
pub enum SocketAddr {
    V4(SocketAddrV4),
    V6(SocketAddrV6),
}

/// Whether an endpoint holds nothing but what is transmitted: no flow label
/// and no scope.
pub open spec fn is_plain_endpoint(ep: SocketAddr) -> bool {
    match ep {
        SocketAddr::V4(_) => true,
        SocketAddr::V6(v6) => v6.flowinfo == 0 && v6.scope_id == 0,
    }
}

/// The wire form of an endpoint: address, port.
pub open spec fn endpoint_bytes(ep: SocketAddr) -> Seq<u8> {
    match ep {
        SocketAddr::V4(v4) => be_bytes(v4.ip as nat, 4) + be_bytes(v4.port as nat, 2),
        SocketAddr::V6(v6) => be_bytes(v6.ip as nat, 16) + be_bytes(v6.port as nat, 2),
    }
}

/// What reading an IPv4 endpoint makes of `s`.
pub open spec fn parse_endpoint_v4(s: Seq<u8>) -> (Result<SocketAddr, Error>, Seq<u8>) {
    match parse_u32(s) {
        (Err(e), r1) => (Err(e), r1),
        (Ok(ip), r1) => match parse_u16(r1) {
            (Err(e), r2) => (Err(e), r2),
            (Ok(port), r2) => (Ok(SocketAddr::V4(SocketAddrV4 { ip, port })), r2),
        },
    }
}

/// What reading an IPv6 endpoint makes of `s`.
pub open spec fn parse_endpoint_v6(s: Seq<u8>) -> (Result<SocketAddr, Error>, Seq<u8>) {
    match parse_u128(s) {
        (Err(e), r1) => (Err(e), r1),
        (Ok(ip), r1) => match parse_u16(r1) {
            (Err(e), r2) => (Err(e), r2),
            (Ok(port), r2) => (
                Ok(SocketAddr::V6(SocketAddrV6 { ip, port, flowinfo: 0, scope_id: 0 })),
                r2,
            ),
        },
    }
}

/// What an endpoint entry value decodes to, by its size.
pub open spec fn endpoint_value(value: Seq<u8>) -> Result<SocketAddr, Error> {
    if value.len() == 6 {
        parse_endpoint_v4(value).0
    } else if value.len() == 18 {
        parse_endpoint_v6(value).0
    } else {
        Err(Error::Malformed("endpoint value size"))
    }
}

/// Decoding the wire form of an endpoint gives the endpoint.
pub proof fn law_endpoint_roundtrip(ep: SocketAddr)
    requires
        is_plain_endpoint(ep),
    ensures
        endpoint_value(endpoint_bytes(ep)) == Ok::<_, Error>(ep),
{
    lemma_endpoint_len(ep);
    let none = Seq::<u8>::empty();
    match ep {
        SocketAddr::V4(v4) => {
            let p = be_bytes(v4.port as nat, 2);
            lemma_parse_u32(v4.ip, p);
            lemma_parse_u16(v4.port, none);
            assert(p + none =~= p);
        },
        SocketAddr::V6(v6) => {
            let p = be_bytes(v6.port as nat, 2);
            lemma_parse_u128(v6.ip, p);
            lemma_parse_u16(v6.port, none);
            assert(p + none =~= p);
        },
    }
}

pub proof fn lemma_endpoint_len(ep: SocketAddr)
    ensures
        endpoint_bytes(ep).len() == if ep is V4 {
            6nat
        } else {
            18
        },
{
    match ep {
        SocketAddr::V4(v4) => {
            lemma_be_bytes_len(v4.ip as nat, 4);
            lemma_be_bytes_len(v4.port as nat, 2);
        },
        SocketAddr::V6(v6) => {
            lemma_be_bytes_len(v6.ip as nat, 16);
            lemma_be_bytes_len(v6.port as nat, 2);
        },
    }
}

/// Read the 6-byte IPv4 endpoint value layout.
pub fn read_endpoint_v4(r: &mut Reader<'_>) -> (res: Result<SocketAddr, Error>)
    ensures
        (res, final(r)@) == parse_endpoint_v4(old(r)@),
{
    let ip = r.u32()?;
    let port = r.u16()?;
    Ok(SocketAddr::V4(SocketAddrV4 { ip, port }))
}

/// Read the 18-byte IPv6 endpoint value layout. No scope (zone) identifier is
/// transmitted; it decodes as 0, and receivers substitute the arrival
/// interface's scope.
pub fn read_endpoint_v6(r: &mut Reader<'_>) -> (res: Result<SocketAddr, Error>)
    ensures
        (res, final(r)@) == parse_endpoint_v6(old(r)@),
{
    let ip = r.u128()?;
    let port = r.u16()?;
    Ok(SocketAddr::V6(SocketAddrV6 { ip, port, flowinfo: 0, scope_id: 0 }))
}

/// Write an endpoint in its family's value layout.
pub fn write_endpoint(w: &mut Writer, ep: &SocketAddr)
    ensures
        final(w)@ == old(w)@ + endpoint_bytes(*ep),
{
    match ep {
        SocketAddr::V4(v4) => {
            w.u32(v4.ip);
            w.u16(v4.port);
        },
        SocketAddr::V6(v6) => {
            w.u128(v6.ip);
            w.u16(v6.port);
        },
    }
    proof {
        assert(w@ =~= old(w)@ + endpoint_bytes(*ep));
    }
}

/// The wire form of an optional endpoint as payload entries: one entry, whose
/// key goes by the address family; nothing when absent.
pub open spec fn endpoint_entry_bytes(
    key_v4: u32,
    key_v6: u32,
    ep: Option<SocketAddr>,
) -> Seq<u8> {
    match ep {
        None => Seq::empty(),
        Some(SocketAddr::V4(v4)) => entry_bytes(key_v4, endpoint_bytes(SocketAddr::V4(v4))),
        Some(SocketAddr::V6(v6)) => entry_bytes(key_v6, endpoint_bytes(SocketAddr::V6(v6))),
    }
}

/// Write the endpoint payload entries for one endpoint kind: exactly one of
/// the v4/v6 keys, matching the endpoint's family; nothing when absent.
pub fn write_endpoint_entry(w: &mut Writer, key_v4: u32, key_v6: u32, ep: &Option<SocketAddr>)
    ensures
        final(w)@ == old(w)@ + endpoint_entry_bytes(key_v4, key_v6, *ep),
{
    if let Some(ep) = ep {
        let key = match ep {
            SocketAddr::V4(_) => key_v4,
            SocketAddr::V6(_) => key_v6,
        };
        let value = |w: &mut Writer|
            ensures
                final(w)@ == old(w)@ + endpoint_bytes(*ep),
        {
            write_endpoint(w, ep);
        };
        w.entry(key, value);
        proof {
            assert(w@ == old(w)@ + entry_bytes(key, endpoint_bytes(*ep)));
        }
    } else {
        proof {
            assert(w@ =~= old(w)@ + endpoint_entry_bytes(key_v4, key_v6, *ep));
        }
    }
}

/// Decode an endpoint entry value by its declared size (6 = IPv4, 18 = IPv6).
pub fn decode_endpoint_value(value: &[u8]) -> (res: Result<SocketAddr, Error>)
    ensures
        res == endpoint_value(value@),
{
    let mut r = Reader::new(value);
    if value.len() == 6 {
        read_endpoint_v4(&mut r)
    } else if value.len() == 18 {
        read_endpoint_v6(&mut r)
    } else {
        Err(Error::Malformed("endpoint value size"))
    }
}

} // verus!
