use tactus::wire::codec::{Error, Reader, Writer};
use tactus::wire::types::{
    decode_endpoint_value, write_endpoint, Id, SocketAddr, SocketAddrV4, SocketAddrV6,
    StartStopState, Timeline,
};

#[test]
fn endpoint_v4_roundtrip() {
    let ep = SocketAddr::V4(SocketAddrV4 { ip: u32::from_be_bytes([192, 168, 77, 1]), port: 20808 });
    let mut w = Writer::new();
    write_endpoint(&mut w, &ep);
    let buf = w.into_vec();
    assert_eq!(buf, [192, 168, 77, 1, 0x51, 0x48]);
    assert_eq!(buf.len(), 6);
    assert_eq!(decode_endpoint_value(&buf).unwrap(), ep);
}

#[test]
fn endpoint_v6_roundtrip() {
    let ep = SocketAddr::V6(SocketAddrV6 {
        ip: 0xfe80_0000_0000_0000_0000_0000_0000_1234,
        port: 9000,
        flowinfo: 0,
        scope_id: 0,
    });
    let mut w = Writer::new();
    write_endpoint(&mut w, &ep);
    let buf = w.into_vec();
    assert_eq!(buf.len(), 18);
    assert_eq!(decode_endpoint_value(&buf).unwrap(), ep);
}

#[test]
fn timeline_and_transport_roundtrip() {
    let tl = Timeline { tempo: 500_000, beat_origin: -1, time_origin: 7 };
    let st = StartStopState { is_playing: true, beats: -4_000_000, timestamp: 3 };
    let mut w = Writer::new();
    tl.write(&mut w);
    st.write(&mut w);
    let buf = w.into_vec();
    assert_eq!(buf.len(), Timeline::WIRE_SIZE + StartStopState::WIRE_SIZE);
    let mut r = Reader::new(&buf);
    assert_eq!(Timeline::read(&mut r), Ok(tl));
    assert_eq!(StartStopState::read(&mut r), Ok(st));
    assert_eq!(Timeline::read(&mut r), Err(Error::Truncated));
    assert_eq!(StartStopState::default(), StartStopState { is_playing: false, beats: 0, timestamp: 0 });
}

#[test]
fn identifiers_are_ordered_byte_wise() {
    let a = Id([0, 0, 0, 0, 0, 0, 1, 255]);
    let b = Id([0, 0, 0, 0, 0, 0, 2, 0]);
    assert!(a.is_before(&b) && !b.is_before(&a) && !a.is_before(&a));
    assert_eq!(a < b, a.is_before(&b));
    assert_eq!(Id(*b"SESSIONX").to_string(), "53455353494f4e58");
}
