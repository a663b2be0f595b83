use tactus::wire::codec::{Error, Writer};
use tactus::wire::sync::{decode, encode_ping, encode_pong, parse_echo, Message, MAGIC, TYPE_PING};
use tactus::wire::types::Id;

#[test]
fn ping_shapes_match_observed_sizes() {
    // First ping 25 bytes, steady-state ping 41.
    assert_eq!(encode_ping(123, None).len(), 25);
    assert_eq!(encode_ping(123, Some(456)).len(), 41);
}

#[test]
fn pong_shapes_match_observed_sizes() {
    // First pong 57 bytes, steady-state pong 73.
    let first_ping = encode_ping(123, None);
    let pong = encode_pong(Id(*b"SESSIONX"), 999, &first_ping[9..]);
    assert_eq!(pong.len(), 57);
    let chain_ping = encode_ping(124, Some(999));
    let pong = encode_pong(Id(*b"SESSIONX"), 1000, &chain_ping[9..]);
    assert_eq!(pong.len(), 73);
}

#[test]
fn ping_roundtrip() {
    let bytes = encode_ping(-5, Some(7));
    match decode(&bytes).unwrap() {
        Message::Ping(p) => {
            assert_eq!(p.host_time, Some(-5));
            assert_eq!(p.prev_ghost_time, Some(7));
            assert_eq!(p.payload, &bytes[9..]);
        }
        _ => panic!("expected ping"),
    }
}

#[test]
fn pong_roundtrip_preserves_echo() {
    let ping = encode_ping(11, Some(22));
    let bytes = encode_pong(Id(*b"SESSIONX"), 33, &ping[9..]);
    match decode(&bytes).unwrap() {
        Message::Pong(p) => {
            assert_eq!(p.session, Id(*b"SESSIONX"));
            assert_eq!(p.ghost_time, 33);
            assert_eq!(p.echo, &ping[9..]);
            assert_eq!(parse_echo(&p.echo).unwrap(), (Some(11), Some(22)));
            assert_eq!(encode_pong(p.session, p.ghost_time, &p.echo), bytes);
        }
        _ => panic!("expected pong"),
    }
}

#[test]
fn empty_ping_payload_is_valid() {
    // A responder answers any ping with payload ≤ 32 bytes,
    // including an empty one.
    let mut w = Writer::new();
    w.bytes(&MAGIC);
    w.u8(TYPE_PING);
    match decode(&w.into_vec()).unwrap() {
        Message::Ping(p) => {
            assert_eq!(p.host_time, None);
            assert!(p.payload.is_empty());
        }
        _ => panic!("expected ping"),
    }
}

#[test]
fn measurement_errors_are_told_apart() {
    assert_eq!(decode(&[0u8; 8]), Err(Error::Truncated));
    let mut bytes = encode_ping(1, None);
    bytes[7] = 2;
    assert_eq!(decode(&bytes), Err(Error::BadMagic));
    let mut bytes = encode_ping(1, None);
    bytes[8] = 3;
    assert_eq!(decode(&bytes), Err(Error::UnknownMessageType(3)));
    // A pong whose leading entries are those of a ping.
    let mut bytes = encode_ping(1, None);
    bytes[8] = 2;
    assert_eq!(decode(&bytes), Err(Error::Malformed("unexpected leading pong entry")));
    // A pong without entries.
    assert_eq!(
        decode(&[0x5f, 0x6c, 0x69, 0x6e, 0x6b, 0x5f, 0x76, 0x01, 2]),
        Err(Error::Malformed("pong missing sess/__gt"))
    );
    // A ping cut short inside its entry.
    let bytes = encode_ping(1, None);
    assert_eq!(decode(&bytes[..24]), Err(Error::Truncated));
}

#[test]
fn ping_bytes_are_exact() {
    assert_eq!(
        encode_ping(0x0102, None),
        [
            0x5f, 0x6c, 0x69, 0x6e, 0x6b, 0x5f, 0x76, 0x01, 1, 0x5f, 0x5f, 0x68, 0x74, 0, 0, 0, 8,
            0, 0, 0, 0, 0, 0, 1, 2,
        ]
    );
}
