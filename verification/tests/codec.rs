use tactus::wire::codec::{fourcc, Entries, Error, Reader, Writer};

#[test]
fn fourcc_matches_spec_table() {
    assert_eq!(fourcc(b"sess"), 0x7365_7373);
}

#[test]
fn primitive_reads_are_bounds_checked() {
    let mut r = Reader::new(&[0x01, 0x02]);
    assert_eq!(r.u16().unwrap(), 0x0102);
    assert_eq!(r.u8(), Err(Error::Truncated));
}

#[test]
fn string_length_past_end_is_error() {
    // A length of 5, but only 2 bytes remain.
    let mut r = Reader::new(&[0, 0, 0, 5, b'a', b'b']);
    assert_eq!(r.string(), Err(Error::Truncated));
}

#[test]
fn entry_size_past_end_is_error() {
    let mut w = Writer::new();
    w.u32(fourcc(b"test"));
    w.u32(10); // declares 10 value bytes...
    w.bytes(&[1, 2, 3]); // ...but only 3 follow
    let buf = w.into_vec();
    let mut it = Entries::new(&buf);
    assert_eq!(it.next().unwrap().unwrap_err(), Error::Truncated);
}

#[test]
fn entry_roundtrip() {
    let mut w = Writer::new();
    w.entry(fourcc(b"__ht"), |w| w.i64(-42));
    let buf = w.into_vec();
    assert_eq!(buf.len(), 16);
    let mut it = Entries::new(&buf);
    let e = it.next().unwrap().unwrap();
    assert_eq!(e.key, fourcc(b"__ht"));
    assert_eq!(e.decode(|r| r.i64()).unwrap(), -42);
    assert!(it.next().is_none());
}

#[test]
fn entry_value_must_be_exactly_consumed() {
    let mut w = Writer::new();
    w.entry(fourcc(b"xxxx"), |w| w.u32(7));
    let buf = w.into_vec();
    let e = Entries::new(&buf).next().unwrap().unwrap();
    // Decoding fewer bytes than declared is a parse error.
    assert!(e.decode(|r| r.u16()).is_err());
}
