use tactus::wire::audio::{
    decode, encode, AudioBuffer, ChannelInfo, Chunk, Frame, Message, CHUNK_RECORD_SIZE,
    CODEC_PCM_I16, KEY_AUCA, KEY_AUCB, KEY_SESS, MAGIC, MAX_MESSAGE_SIZE,
};
use tactus::wire::codec::{Error, Writer};
use tactus::wire::types::Id;

const NODE: Id = Id(*b"NODEID01");

#[test]
fn announcement_roundtrip() {
    let frame = Frame::new(
        NODE,
        Message::PeerAnnouncement {
            session: Id(*b"SESSIONX"),
            peer_name: b"Alice".to_vec(),
            channels: vec![ChannelInfo {
                name: b"A Sink".to_vec(),
                id: Id(*b"CHANNEL1"),
            }],
            ping: Some(123_456),
        },
    );
    let bytes = encode(&frame);
    // Entries sess, __pi, auca, __ht; a 5-byte peer name + one 6-byte
    // channel name = 99 bytes.
    assert_eq!(bytes.len(), 99);
    assert_eq!(decode(&bytes).unwrap(), frame);
}

#[test]
fn byes_pong_request_roundtrip() {
    for msg in [
        Message::ChannelByes {
            channels: vec![Id(*b"CHANNEL1"), Id(*b"CHANNEL2")],
        },
        Message::Pong { host_time: -99 },
        Message::ChannelRequest {
            channel: Id(*b"CHANNEL1"),
        },
        Message::StopChannelRequest {
            channel: Id(*b"CHANNEL1"),
        },
    ] {
        let frame = Frame::new(NODE, msg);
        assert_eq!(decode(&encode(&frame)).unwrap(), frame);
    }
}

#[test]
fn request_ttls_follow_spec() {
    let req = Frame::new(
        NODE,
        Message::ChannelRequest {
            channel: Id(*b"CHANNEL1"),
        },
    );
    assert_eq!(req.ttl, 5);
    let stop = Frame::new(
        NODE,
        Message::StopChannelRequest {
            channel: Id(*b"CHANNEL1"),
        },
    );
    assert_eq!(stop.ttl, 0);
}

fn test_buffer() -> AudioBuffer {
    let samples: Vec<i16> = (0..251).map(|i| (i * 13 - 1000) as i16).collect();
    AudioBuffer {
        channel: Id(*b"CHANNEL1"),
        session: Id(*b"SESSIONX"),
        chunks: vec![Chunk {
            seq: 1,
            num_frames: 251,
            begin_beats: 4_000_000,
            tempo: 500_000,
        }],
        codec: CODEC_PCM_I16,
        sample_rate: 48_000,
        num_channels: 1,
        sample_data: AudioBuffer::encode_samples(&samples),
    }
}

#[test]
fn audio_buffer_roundtrip_at_cap_is_576_bytes() {
    let frame = Frame::new(NODE, Message::AudioBuffer(test_buffer()));
    let bytes = encode(&frame);
    // A single-chunk datagram at the 502-byte cap = 576 bytes total.
    assert_eq!(bytes.len(), 576);
    assert_eq!(decode(&bytes).unwrap(), frame);
}

/// The parse path has no 512-frame-per-chunk ceiling: it is bounded only by
/// the datagram.
#[test]
fn audio_buffer_accepts_chunks_above_512_frames() {
    let samples: Vec<i16> = (0..550).map(|i| (i * 7 - 500) as i16).collect();
    let jumbo = AudioBuffer {
        chunks: vec![Chunk {
            seq: 9,
            num_frames: 550,
            begin_beats: 0,
            tempo: 500_000,
        }],
        sample_data: AudioBuffer::encode_samples(&samples),
        ..test_buffer()
    };
    let frame = Frame::new(NODE, Message::AudioBuffer(jumbo));
    let bytes = encode(&frame);
    assert_eq!(bytes.len(), 1174);
    assert_eq!(decode(&bytes).unwrap(), frame);

    // A full 1200-byte datagram
    // of two 275-frame chunks — 550 frames total, each chunk ≤ 512.
    let packed = AudioBuffer {
        chunks: (0..2)
            .map(|i| Chunk {
                seq: 9 + i,
                num_frames: 275,
                begin_beats: i as i64 * 3_437_500,
                tempo: 500_000,
            })
            .collect(),
        sample_data: AudioBuffer::encode_samples(&samples),
        ..test_buffer()
    };
    let frame = Frame::new(NODE, Message::AudioBuffer(packed));
    let bytes = encode(&frame);
    assert_eq!(bytes.len(), MAX_MESSAGE_SIZE);
    assert_eq!(decode(&bytes).unwrap(), frame);
}

#[test]
fn audio_buffer_rejects_invalid() {
    let frame = Frame::new(NODE, Message::AudioBuffer(test_buffer()));
    let good = encode(&frame);

    // Zero chunks rejected.
    let mut zero_chunks = good.clone();
    zero_chunks[36..40].copy_from_slice(&0u32.to_be_bytes());
    assert!(decode(&zero_chunks).is_err());

    // Codec 0 rejected. Codec byte sits after the chunk record.
    let codec_at = 20 + 16 + 4 + CHUNK_RECORD_SIZE;
    let mut codec0 = good.clone();
    codec0[codec_at] = 0;
    assert!(decode(&codec0).is_err());

    // Truncated sample data rejected.
    let mut short = good.clone();
    short.truncate(good.len() - 1);
    assert!(decode(&short).is_err());

    // Frame count / numBytes mismatch rejected.
    let mut bad_frames = good.clone();
    let frames_at = 20 + 16 + 4 + 8;
    bad_frames[frames_at..frames_at + 2].copy_from_slice(&250u16.to_be_bytes());
    assert!(decode(&bad_frames).is_err());
}

#[test]
fn sample_encoding_is_big_endian_interleaved() {
    let bytes = AudioBuffer::encode_samples(&[0x0102, -2]);
    assert_eq!(bytes, [0x01, 0x02, 0xff, 0xfe]);
}

fn payload(msg_type: u8) -> Writer {
    let mut w = Writer::new();
    w.bytes(&MAGIC);
    w.u8(msg_type);
    w.u8(5);
    w.u16(0);
    w.id(b"NODEID01");
    w
}

#[test]
fn audio_buffer_errors_are_told_apart() {
    let good = encode(&Frame::new(NODE, Message::AudioBuffer(test_buffer())));
    let mut bytes = good.clone();
    bytes[39] = 0;
    assert_eq!(decode(&bytes), Err(Error::Malformed("audio buffer with zero chunks")));
    let mut bytes = good.clone();
    bytes[66] = 2;
    assert_eq!(decode(&bytes), Err(Error::Malformed("unsupported codec")));
    assert_eq!(
        decode(&good[..good.len() - 1]),
        Err(Error::Malformed("sample bytes do not fill the datagram"))
    );
    let mut bytes = good.clone();
    bytes[49] = 250;
    assert_eq!(decode(&bytes), Err(Error::Malformed("frame count and sample bytes disagree")));
    assert_eq!(decode(&good[..60]), Err(Error::Truncated));
}

#[test]
fn messages_without_their_entry_are_malformed() {
    assert_eq!(decode(&payload(1).into_vec()), Err(Error::Malformed("announcement missing sess")));
    assert_eq!(decode(&payload(3).into_vec()), Err(Error::Malformed("pong missing __ht")));
    assert_eq!(decode(&payload(4).into_vec()), Err(Error::Malformed("request missing chid")));
    assert_eq!(decode(&payload(5).into_vec()), Err(Error::Malformed("request missing chid")));
    assert_eq!(decode(&payload(7).into_vec()), Err(Error::UnknownMessageType(7)));
    assert_eq!(decode(&[0; 19]), Err(Error::Truncated));
    assert_eq!(decode(&[0; 20]), Err(Error::BadMagic));
    // Byes without a list withdraw nothing.
    assert_eq!(
        decode(&payload(2).into_vec()).unwrap().message,
        Message::ChannelByes { channels: vec![] }
    );
}

#[test]
fn a_list_stops_where_the_bytes_run_out() {
    let mut w = payload(2);
    w.entry(KEY_AUCB, |w| {
        w.u32(3);
        w.id(b"CHANNEL1");
    });
    assert_eq!(
        decode(&w.into_vec()).unwrap().message,
        Message::ChannelByes { channels: vec![Id(*b"CHANNEL1")] }
    );
    // Bytes past the count are an error.
    let mut w = payload(1);
    w.entry(KEY_SESS, |w| w.id(b"SESSIONX"));
    w.entry(KEY_AUCA, |w| {
        w.u32(0);
        w.u8(9);
    });
    assert_eq!(
        decode(&w.into_vec()),
        Err(Error::Malformed("entry value not exactly consumed"))
    );
}

#[test]
fn samples_come_back_from_their_bytes() {
    let mut buf = test_buffer();
    let samples: Vec<i16> = (0..251).map(|i| (i * 13 - 1000) as i16).collect();
    assert_eq!(buf.samples(), samples);
    assert_eq!(buf.total_frames(), 251);
    // A last odd byte holds no sample.
    buf.sample_data = vec![0xff, 0xfe, 0x01];
    assert_eq!(buf.samples(), [-2]);
}
