use tactus::audio::announce::{build_announcement_round, encode_announcement};
use tactus::audio::sink::{drain_datagrams, frames_to_micro_beats, Segment, Sink};
use tactus::audio::source::{deliver, Source, INBOX_LIMIT};
use tactus::audio::state::{AudioState, PathStats};
use tactus::table::Table;
use tactus::wire::audio as wire;
use tactus::wire::types::{Id, Timeline};

/// This receiver stages into the decoded vector itself (no fixed scratch
/// buffer), so a single chunk above 512 frames is delivered intact.
#[test]
fn deliver_stages_chunk_above_512_frames_intact() {
    let samples: Vec<i16> = (0..550).map(|i| (i * 7 - 500) as i16).collect();
    let buf = wire::AudioBuffer {
        channel: Id(*b"CHANNEL1"),
        session: Id(*b"SESSIONX"),
        chunks: vec![wire::Chunk {
            seq: 3,
            num_frames: 550,
            begin_beats: 4_000_000,
            tempo: 500_000,
        }],
        codec: wire::CODEC_PCM_I16,
        sample_rate: 48_000,
        num_channels: 1,
        sample_data: wire::AudioBuffer::encode_samples(&samples),
    };
    let timeline = Timeline { tempo: 500_000, beat_origin: 0, time_origin: 0 };
    let mut source = test_source();
    deliver(&mut source, &buf, &timeline, 123);
    assert_eq!(source.inbox.len(), 1);
    let chunk = &source.inbox[0];
    assert_eq!(chunk.samples, samples);
    assert_eq!(chunk.seq, 3);
    assert_eq!(source.last_buffer_at, 123);
}

fn test_source() -> Source {
    Source {
        quantum: 4_000_000,
        last_request_at: 0,
        last_buffer_at: i64::MIN / 2,
        inbox: Vec::new(),
        next_seq_expected: None,
        lost_chunks: 0,
    }
}

fn seq_buffer(seqs: &[u64]) -> wire::AudioBuffer {
    let frames = 4usize;
    wire::AudioBuffer {
        channel: Id(*b"CHANNEL1"),
        session: Id(*b"SESSIONX"),
        chunks: seqs
            .iter()
            .map(|&seq| wire::Chunk {
                seq,
                num_frames: frames as u16,
                begin_beats: 0,
                tempo: 500_000,
            })
            .collect(),
        codec: wire::CODEC_PCM_I16,
        sample_rate: 48_000,
        num_channels: 1,
        sample_data: wire::AudioBuffer::encode_samples(&vec![0; frames * seqs.len()]),
    }
}

fn test_sink(frames: usize, ch: usize) -> Sink {
    Sink {
        id: Id(*b"CHANNEL1"),
        name: b"sink".to_vec(),
        requesters: Table::new(),
        next_seq: 1,
        segments: vec![Segment {
            begin: 0,
            tempo: 500_000,
            samples: vec![0i16; frames * ch],
        }],
        format: Some((48_000, ch as u8)),
    }
}

fn drain(sink: &mut Sink, ch: u8, fill: bool) -> Vec<wire::AudioBuffer> {
    drain_datagrams(sink, Id(*b"CHANNEL1"), Id(*b"SESSIONX"), 48_000, ch, fill)
}

fn encoded_len(buf: &wire::AudioBuffer) -> usize {
    wire::encode(&wire::Frame::new(
        Id(*b"NODEID01"),
        wire::Message::AudioBuffer(buf.clone()),
    ))
    .len()
}

/// Default sizing: 251-frame mono datagrams at the 502-byte sample cap (576
/// bytes on the wire); the partial remainder stays pending.
#[test]
fn drain_reference_sizing_matches_the_reference_wire_shape() {
    let mut sink = test_sink(600, 1);
    let bufs = drain(&mut sink, 1, false);
    assert_eq!(bufs.len(), 2);
    for buf in &bufs {
        assert_eq!(buf.total_frames(), 251);
        assert_eq!(encoded_len(buf), 576);
    }
    let pending: usize = sink.segments.iter().map(|s| s.samples.len()).sum();
    assert_eq!(pending, 600 - 2 * 251);
}

/// Fill sizing: each datagram packs to the 1176-byte payload budget with every
/// chunk within 512 frames: 548 mono frames per datagram as a 512 + 36 chunk
/// pair.
#[test]
fn drain_fill_sizing_packs_the_datagram_within_v1_bounds() {
    let mut sink = test_sink(1200, 1);
    let bufs = drain(&mut sink, 1, true);
    assert_eq!(bufs.len(), 2);
    let mut expected_seq = 1;
    for buf in &bufs {
        assert_eq!(buf.total_frames(), 548);
        assert_eq!(encoded_len(buf), 20 + wire::MAX_PAYLOAD);
        for c in &buf.chunks {
            assert!((c.num_frames as usize) <= wire::V1_MAX_CHUNK_FRAMES);
            assert_eq!(c.seq, expected_seq);
            expected_seq += 1;
        }
    }
    let pending: usize = sink.segments.iter().map(|s| s.samples.len()).sum();
    assert_eq!(pending, 1200 - 2 * 548);
}

/// The receiver surfaces loss from sequence gaps; the first seen chunk seeds
/// the counter (mid-stream subscription is not loss), and a reordered late
/// arrival takes its gap back off the count.
#[test]
fn sequence_gaps_are_surfaced_as_loss() {
    let timeline = Timeline { tempo: 500_000, beat_origin: 0, time_origin: 0 };
    let mut source = test_source();
    deliver(&mut source, &seq_buffer(&[5]), &timeline, 0);
    assert_eq!(source.lost_chunks, 0, "mid-stream start is not loss");
    deliver(&mut source, &seq_buffer(&[6, 7]), &timeline, 1);
    assert_eq!(source.lost_chunks, 0);
    deliver(&mut source, &seq_buffer(&[10]), &timeline, 2);
    assert_eq!(source.lost_chunks, 2, "chunks 8 and 9 missing");
    deliver(&mut source, &seq_buffer(&[8]), &timeline, 3);
    assert_eq!(source.lost_chunks, 1, "8 arrived late, only 9 missing");
    assert_eq!(source.inbox.len(), 5);
}

#[test]
fn loss_is_what_did_not_arrive() {
    let timeline = Timeline { tempo: 500_000, beat_origin: 0, time_origin: 0 };
    let mut source = test_source();
    deliver(&mut source, &seq_buffer(&[1]), &timeline, 0);
    let seqs = [2, 5, 6, 20, 21];
    deliver(&mut source, &seq_buffer(&seqs), &timeline, 0);
    assert_eq!(source.next_seq_expected, Some(22));
    assert_eq!(source.lost_chunks, 22 - 2 - seqs.len() as u64);
}

#[test]
fn inbox_keeps_the_newest_chunks() {
    let timeline = Timeline { tempo: 500_000, beat_origin: 0, time_origin: 0 };
    let mut source = test_source();
    for seq in 1..=300 {
        deliver(&mut source, &seq_buffer(&[seq]), &timeline, seq as i64);
    }
    assert_eq!(source.inbox.len(), INBOX_LIMIT);
    assert_eq!(source.inbox[0].seq, 45);
    assert_eq!(source.inbox[INBOX_LIMIT - 1].seq, 300);
}

#[test]
fn delivered_beats_are_local_beats() {
    // Origin at beat 5.5: with a quantum of 4 the offset of the local grid is 4
    // beats, the multiple nearest to the origin, a tie going down.
    let timeline = Timeline { tempo: 500_000, beat_origin: 5_500_000, time_origin: 0 };
    let mut source = test_source();
    let mut buf = seq_buffer(&[1, 2]);
    buf.chunks[1].begin_beats = 333;
    deliver(&mut source, &buf, &timeline, 0);
    assert_eq!(source.inbox[0].begin_app_beat, 4_000_000);
    assert_eq!(source.inbox[1].begin_app_beat, 4_000_333);
    assert_eq!(source.inbox[0].samples.len(), 4);
}

#[test]
fn drained_samples_are_the_written_ones() {
    for fill in [false, true] {
        for ch in [1usize, 2, 3] {
            let samples: Vec<i16> = (0..(1500 * ch) as i32).map(|i| (i * 31) as i16).collect();
            let mut sink = test_sink(0, ch);
            sink.segments = samples
                .chunks(100 * ch)
                .enumerate()
                .map(|(i, part)| Segment {
                    begin: i as i64 * 4_167,
                    tempo: 500_000,
                    samples: part.to_vec(),
                })
                .collect();
            sink.next_seq = 7;
            let bufs = drain(&mut sink, ch as u8, fill);
            assert!(!bufs.is_empty());
            let mut seq = 7;
            let mut out: Vec<i16> = Vec::new();
            for buf in &bufs {
                let bytes = buf.sample_data.len();
                let spent = bytes + if fill { 26 * buf.chunks.len() } else { 0 };
                let (budget, record) = if fill { (1148, 26) } else { (502, 0) };
                assert!(spent <= budget && budget < spent + record + 2 * ch);
                assert_eq!(buf.total_frames() as usize * ch * 2, bytes);
                for c in &buf.chunks {
                    assert_eq!(c.seq, seq);
                    seq += 1;
                }
                out.extend(buf.samples());
                let frame = wire::Frame::new(Id(*b"NODEID01"), wire::Message::AudioBuffer(buf.clone()));
                assert_eq!(wire::decode(&wire::encode(&frame)), Ok(frame));
            }
            assert_eq!(sink.next_seq, seq);
            for s in &sink.segments {
                out.extend(&s.samples);
            }
            assert_eq!(out, samples);
        }
    }
}

#[test]
fn sub_frame_residue_is_dropped_between_chunks() {
    let mut sink = test_sink(0, 2);
    // 10 frames and a half, then enough for a datagram of 125 frames.
    sink.segments = vec![
        Segment { begin: 0, tempo: 500_000, samples: vec![1; 21] },
        Segment { begin: 9, tempo: 500_000, samples: vec![2; 240] },
    ];
    let bufs = drain(&mut sink, 2, false);
    assert_eq!(bufs.len(), 1);
    let frames: Vec<u16> = bufs[0].chunks.iter().map(|c| c.num_frames).collect();
    assert_eq!(frames, [10, 115]);
    let samples = bufs[0].samples();
    assert_eq!(samples[..20], [1; 20]);
    assert_eq!(samples[20..], [2; 230]);
    assert_eq!(sink.segments.len(), 1);
    assert_eq!(sink.segments[0].samples.len(), 10);
}

#[test]
fn chunk_lengths_in_beats() {
    // Half a second at 120 bpm is one beat.
    assert_eq!(frames_to_micro_beats(24_000, 48_000, 500_000), 1_000_000);
    assert_eq!(frames_to_micro_beats(251, 48_000, 500_000), 10_458);
    assert_eq!(frames_to_micro_beats(0, 44_100, 500_000), 0);
    assert_eq!(frames_to_micro_beats(-24_000, 48_000, 500_000), -1_000_000);
}

fn announcing(channels: usize, name_len: usize) -> AudioState {
    let mut audio = AudioState::new("Alice");
    for i in 0..channels {
        let mut sink = test_sink(0, 1);
        sink.id = Id([i as u8; 8]);
        sink.name = vec![b'a' + i as u8; name_len];
        audio.sinks.push(sink);
    }
    audio
}

#[test]
fn rounds_cover_all_channels_and_ping_once() {
    let node = Id(*b"NODEID01");
    let session = Id(*b"SESSIONX");
    for (channels, name_len, messages) in [(0, 5, 1), (1, 256, 1), (4, 256, 1), (5, 256, 2), (20, 256, 5), (60, 8, 2)] {
        let audio = announcing(channels, name_len);
        let round = build_announcement_round(node, session, &audio, 77);
        assert_eq!(round.len(), messages, "{channels} channels");
        let mut ids = Vec::new();
        for (i, bytes) in round.iter().enumerate() {
            assert!(bytes.len() <= 20 + wire::MAX_PAYLOAD);
            match wire::decode(bytes).unwrap().message {
                wire::Message::PeerAnnouncement { session: s, peer_name, channels, ping } => {
                    assert_eq!(s, session);
                    assert_eq!(peer_name, b"Alice");
                    assert_eq!(ping, if i == 0 { Some(77) } else { None });
                    ids.extend(channels.into_iter().map(|c| c.id));
                }
                _ => panic!("expected announcement"),
            }
        }
        let all: Vec<Id> = audio.sinks.iter().map(|s| s.id).collect();
        assert_eq!(ids, all);
    }
}

#[test]
fn announcements_have_their_documented_size() {
    let channels = vec![wire::ChannelInfo { name: b"A Sink".to_vec(), id: Id(*b"CHANNEL1") }];
    let bytes =
        encode_announcement(Id(*b"NODEID01"), Id(*b"SESSIONX"), b"Alice", &channels, Some(1));
    assert_eq!(bytes.len(), 99);
    let bytes = encode_announcement(Id(*b"NODEID01"), Id(*b"SESSIONX"), b"Alice", &channels, None);
    assert_eq!(bytes.len(), 83);
}

#[test]
fn names_are_cut_to_256_bytes() {
    let audio = AudioState::new(&"é".repeat(200));
    assert_eq!(audio.peer_name.len(), 256);
    assert_eq!(audio.peer_name, "é".repeat(128).as_bytes());
}

#[test]
fn path_window_holds_ten_round_trips() {
    let mut stats = PathStats::default();
    for rtt in 0..25 {
        stats.record(rtt);
    }
    assert_eq!(stats.rtts, (15..25).collect::<Vec<i64>>());
}

#[test]
fn numbers_start_over_and_sizes_stay() {
    let mut sink = test_sink(600, 1);
    sink.next_seq = u64::MAX;
    let bufs = drain(&mut sink, 1, false);
    let seqs: Vec<u64> = bufs.iter().flat_map(|b| b.chunks.iter().map(|c| c.seq)).collect();
    assert_eq!(seqs, [u64::MAX, 0]);
    assert_eq!(sink.next_seq, 1);
    assert!(bufs.iter().all(|b| b.sample_data.len() == 502));
    assert_eq!(sink.segments[0].samples.len(), 98);
}

#[test]
fn first_chunk_carries_the_beat_of_the_first_whole_frame() {
    let mut sink = test_sink(0, 2);
    sink.segments = vec![
        Segment { begin: 7, tempo: 400_000, samples: vec![1] },
        Segment { begin: 9, tempo: 500_000, samples: vec![2; 400] },
    ];
    let bufs = drain(&mut sink, 2, false);
    assert_eq!(bufs[0].chunks[0].begin_beats, 9);
    assert_eq!(bufs[0].chunks[0].tempo, 500_000);
}

#[test]
fn chunks_without_channels_are_units_without_samples() {
    let mut buf = seq_buffer(&[3, 4]);
    buf.num_channels = 0;
    buf.sample_data = Vec::new();
    let mut source = test_source();
    let timeline = Timeline { tempo: 500_000, beat_origin: 0, time_origin: 0 };
    deliver(&mut source, &buf, &timeline, 0);
    let seqs: Vec<u64> = source.inbox.iter().map(|c| c.seq).collect();
    assert_eq!(seqs, [3, 4]);
    assert!(source.inbox.iter().all(|c| c.samples.is_empty()));
}

#[test]
fn loss_counts_on_from_any_count() {
    let mut source = test_source();
    source.next_seq_expected = Some(10);
    source.lost_chunks = 1_000;
    let timeline = Timeline { tempo: 500_000, beat_origin: 0, time_origin: 0 };
    deliver(&mut source, &seq_buffer(&[12, 13, 17]), &timeline, 0);
    assert_eq!(source.next_seq_expected, Some(18));
    assert_eq!(source.lost_chunks, 1_005);
}
