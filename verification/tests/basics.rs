use tactus::engine::state::{Gateway, State};
use tactus::engine::{Config, Engine};
use tactus::link::Link;
use tactus::random::{identifier, NoRandomness};
use tactus::runtime::{disable, enable_as, housekeeping, receiver_goes_on};
use tactus::table::{Route, Table};
use tactus::wire::audio::{self, ChannelInfo, Message};
use tactus::wire::codec::{fourcc, Error, Writer};
use tactus::wire::types::{Id, SocketAddr, SocketAddrV4};

#[test]
fn errors_and_identifiers_have_a_text() {
    assert_eq!(Error::Truncated.to_string(), "read past end of buffer");
    assert_eq!(Error::BadMagic.to_string(), "bad frame magic");
    assert_eq!(Error::UnknownMessageType(0).to_string(), "unknown message type 0");
    assert_eq!(Error::UnknownMessageType(209).to_string(), "unknown message type 209");
    assert_eq!(Error::Malformed("why").to_string(), "malformed message: why");
    assert_eq!(Id([0, 1, 0x9f, 0xa0, 255, 16, 7, 0x80]).to_string(), "00019fa0ff100780");
}

#[test]
fn a_table_keeps_one_value_per_key() {
    let key = |n: u8, gateway: usize| Route { id: Id([n; 8]), gateway };
    let mut t: Table<Route, i64> = Table::new();
    t.insert(key(1, 0), 10);
    t.insert(key(1, 1), 11);
    t.insert(key(2, 0), 20);
    t.insert(key(1, 0), 12);
    assert_eq!(t.len(), 3);
    assert_eq!(t.get(&key(1, 0)), Some(&12));
    assert_eq!(t.get(&key(3, 0)), None);
    if let Some(v) = t.get_mut(&key(2, 0)) {
        *v = 21;
    }
    t.retain(|k, v| k.gateway == 0 && *v > 12);
    assert_eq!(t.len(), 1);
    assert_eq!(t.get(&key(2, 0)), Some(&21));
    assert!(t.remove(&key(2, 0)) && !t.remove(&key(2, 0)));
    t.insert(key(4, 4), 4);
    t.clear();
    assert_eq!(t.len(), 0);
}

#[test]
fn announcement_entries_come_in_any_order_among_unknown_ones() {
    let prefix = audio::encode(&audio::Frame::new(
        Id(*b"NODEID01"),
        Message::PeerAnnouncement {
            session: Id(*b"SESSIONX"),
            peer_name: b"Alice".to_vec(),
            channels: vec![ChannelInfo { name: b"A".to_vec(), id: Id(*b"CHANNEL1") }],
            ping: Some(7),
        },
    ));
    let mut w = Writer::new();
    w.bytes(&prefix[..20]);
    w.entry(fourcc(b"what"), |w| w.bytes(&[1, 2, 3]));
    w.entry(fourcc(b"__ht"), |w| w.i64(7));
    w.entry(fourcc(b"auca"), |w| {
        w.u32(1);
        w.string(b"A");
        w.id(b"CHANNEL1");
    });
    w.entry(fourcc(b"ever"), |_| {});
    w.entry(fourcc(b"__pi"), |w| w.string(b"Alice"));
    w.entry(fourcc(b"sess"), |w| w.id(b"SESSIONX"));
    assert_eq!(audio::decode(&w.into_vec()), audio::decode(&prefix));
}

fn gateway() -> Gateway {
    let ep = |port| SocketAddr::V4(SocketAddrV4 { ip: 0x7f00_0001, port });
    Gateway { index: 0, measurement: ep(1), audio: ep(2) }
}

#[test]
fn receivers_stop_when_the_network_is_left() {
    let eng = Engine::new(Config::default());
    let mut st = State::new(Id([1; 8]), 500_000);
    assert!(!receiver_goes_on(&st, st.epoch));
    enable_as(&eng, &mut st, vec![gateway()], Id([2; 8]), 0);
    let epoch = st.epoch;
    assert!(receiver_goes_on(&st, epoch));
    disable(&mut st);
    assert!(!receiver_goes_on(&st, epoch));
    enable_as(&eng, &mut st, vec![gateway()], Id([3; 8]), 1);
    assert!(!receiver_goes_on(&st, epoch));
    assert!(receiver_goes_on(&st, st.epoch));
}

#[test]
fn a_peer_does_not_spin() {
    let mut link = Link::with_node(Id([1; 8]), 500_000, Config::default());
    enable_as(&link.eng, &mut link.st, vec![gateway()], Id([2; 8]), 0);
    link.enable_audio("x", 0);
    link.subscribe_channel([9; 8], 4_000_000, 0);
    for now in (0..12_000_000).step_by(12_345) {
        let next = housekeeping(&link.eng, &mut link.st, now).unwrap();
        assert!(next > now);
        assert!(next <= now + 250_000);
    }
}

#[test]
fn drawn_bytes_make_an_identifier() {
    assert_eq!(identifier(Ok(*b"NODEID01")), Ok(Id(*b"NODEID01")));
    assert_eq!(identifier(Err(NoRandomness)), Err(NoRandomness));
}

#[test]
fn a_new_peer_is_on_loopback() {
    let link = Link::new(500_000).unwrap();
    assert_eq!(link.eng.config.gateways, [[127, 0, 0, 1]]);
    assert!(!link.eng.config.fill_audio_datagrams);
    assert!(!link.is_enabled());
    assert_eq!(link.tempo(), 500_000);
    assert_eq!(link.session_id(), link.node_id());
}
