use tactus::wire::codec::{fourcc, Error, Writer};
use tactus::wire::discovery::{
    decode, decode_header, encode, Frame, Message, PeerState, KEY_SESS, MAGIC, TYPE_ALIVE,
};
use tactus::wire::types::{Id, SocketAddr, SocketAddrV4, SocketAddrV6, StartStopState, Timeline};

fn v4(ip: [u8; 4], port: u16) -> SocketAddr {
    SocketAddr::V4(SocketAddrV4 { ip: u32::from_be_bytes(ip), port })
}

fn full_state() -> PeerState {
    PeerState {
        timeline: Some(Timeline {
            tempo: 500_000,
            beat_origin: 1_000_000,
            time_origin: 2_500_000,
        }),
        session: Some(Id(*b"SESSIONX")),
        start_stop: Some(StartStopState {
            is_playing: true,
            beats: 4_000_000,
            timestamp: 3_000_000,
        }),
        measurement_endpoint: Some(v4([127, 0, 0, 1], 42802)),
        audio_endpoint: None,
    }
}

#[test]
fn alive_roundtrip_and_documented_size() {
    let frame = Frame::alive(Id(*b"NODEID01"), full_state());
    let bytes = encode(&frame);
    // Plain peer state over IPv4 = 107 bytes.
    assert_eq!(bytes.len(), 107);
    assert_eq!(decode(&bytes).unwrap(), frame);
}

#[test]
fn audio_state_is_121_bytes() {
    let mut state = full_state();
    state.audio_endpoint = Some(v4([127, 0, 0, 1], 34751));
    let bytes = encode(&Frame::alive(Id(*b"NODEID01"), state));
    // Audio-enabled peer state over IPv4 = 121 bytes.
    assert_eq!(bytes.len(), 121);
}

#[test]
fn byebye_is_20_bytes() {
    let frame = Frame::bye_bye(Id(*b"NODEID01"));
    let bytes = encode(&frame);
    assert_eq!(bytes.len(), 20);
    assert_eq!(decode(&bytes).unwrap(), frame);
}

#[test]
fn short_or_unmagical_datagrams_are_rejected() {
    assert_eq!(decode(&[0u8; 10]).unwrap_err(), Error::Truncated);
    let mut bytes = encode(&Frame::bye_bye(Id(*b"NODEID01")));
    bytes[0] ^= 0xff;
    assert_eq!(decode(&bytes).unwrap_err(), Error::BadMagic);
}

#[test]
fn unknown_message_type_is_surfaced() {
    let mut bytes = encode(&Frame::bye_bye(Id(*b"NODEID01")));
    bytes[8] = 99;
    assert_eq!(decode(&bytes).unwrap_err(), Error::UnknownMessageType(99));
}

#[test]
fn missing_entries_decode_as_none() {
    let frame = Frame::alive(Id(*b"NODEID01"), PeerState::default());
    let decoded = decode(&encode(&frame)).unwrap();
    assert_eq!(decoded.message, Message::Alive(PeerState::default()));
}

#[test]
fn unknown_payload_entries_are_skipped() {
    let mut w = Writer::new();
    w.bytes(&MAGIC);
    w.u8(TYPE_ALIVE);
    w.u8(5);
    w.u16(0);
    w.id(b"NODEID01");
    w.entry(fourcc(b"zzzz"), |w| w.u32(1234)); // unknown key
    w.entry(KEY_SESS, |w| w.id(b"SESSIONX"));
    let frame = decode(&w.into_vec()).unwrap();
    match frame.message {
        Message::Alive(state) => assert_eq!(state.session, Some(Id(*b"SESSIONX"))),
        _ => panic!("expected Alive"),
    }
}

#[test]
fn header_decodes_where_the_payload_does_not() {
    let mut bytes = encode(&Frame::alive(Id(*b"NODEID01"), full_state()));
    bytes.truncate(60);
    assert_eq!(decode(&bytes).unwrap_err(), Error::Truncated);
    let header = decode_header(&bytes).unwrap();
    assert!(header.is_alive());
    assert_eq!(header.ttl, 5);
    assert_eq!(header.group_id, 0);
    assert_eq!(header.node, Id(*b"NODEID01"));
    assert_eq!(decode_header(&bytes[..19]).unwrap_err(), Error::Truncated);
}

#[test]
fn response_over_ipv6_roundtrips() {
    let v6 = |port| {
        SocketAddr::V6(SocketAddrV6 { ip: 0xfe80 << 112 | 0x1234, port, flowinfo: 0, scope_id: 0 })
    };
    let mut state = full_state();
    state.measurement_endpoint = Some(v6(7));
    state.audio_endpoint = Some(v6(8));
    let frame = Frame::response(Id(*b"NODEID01"), state);
    let bytes = encode(&frame);
    assert_eq!(bytes.len(), 145);
    assert_eq!(decode(&bytes).unwrap(), frame);
}

#[test]
fn endpoint_of_another_size_is_malformed() {
    let mut w = Writer::new();
    w.bytes(&MAGIC);
    w.u8(TYPE_ALIVE);
    w.u8(5);
    w.u16(0);
    w.id(b"NODEID01");
    w.entry(fourcc(b"mep4"), |w| w.u32(1234));
    assert_eq!(decode(&w.into_vec()).unwrap_err(), Error::Malformed("endpoint value size"));
}
