use tactus::engine::measure::median_round;
use tactus::engine::state::{
    Gateway, MeasureTask, Measurement, Outlet, Purpose, State, MAX_MEASUREMENT_RETRIES,
};
use tactus::engine::{Config, Engine};
use tactus::link::{count_peers, Link};
use tactus::random::random_id;
use tactus::runtime::{dispatch, disable, enable, enable_as, housekeeping, wait_micros, Role};
use tactus::wire::audio as wire_audio;
use tactus::wire::discovery::{self, Frame, Message, PeerState};
use tactus::wire::sync;
use tactus::wire::types::{Id, SocketAddr, SocketAddrV4, StartStopState, Timeline};

const NODE: Id = Id(*b"NODEID01");
const OTHER: Id = Id(*b"NODEID02");
const FRESH: Id = Id(*b"FRESHID1");

/// Samples are in half microseconds.
fn halves(samples: &[f64]) -> Vec<i128> {
    samples.iter().map(|s| (s * 2.0) as i128).collect()
}

#[test]
fn median_is_robust_to_outliers() {
    let s = halves(&[10.0, 11.0, 9.0, 10.5, 500_000.0]);
    assert_eq!(median_round(&s), 11); // median 10.5, rounded
    let s = halves(&[10.0, 12.0]);
    assert_eq!(median_round(&s), 11);
}

#[test]
fn median_rounds_away_from_zero() {
    assert_eq!(median_round(&halves(&[-10.5])), -11);
    assert_eq!(median_round(&halves(&[-10.0, -10.5])), -10);
    assert_eq!(median_round(&halves(&[3.0, 1.0, 2.0])), 2);
    assert_eq!(median_round(&vec![0x4_0000_0000_0000_0000]), i64::MAX);
}

fn v4(port: u16) -> SocketAddr {
    SocketAddr::V4(SocketAddrV4 { ip: 0x7f00_0001, port })
}

fn gateway() -> Gateway {
    Gateway { index: 0, measurement: v4(1001), audio: v4(1002) }
}

fn engine() -> Engine {
    Engine::new(Config { gateways: vec![], fill_audio_datagrams: false })
}

/// A peer that joined the network at time 0.
fn joined() -> State {
    let mut st = State::new(NODE, 500_000);
    enable_as(&engine(), &mut st, vec![gateway()], NODE, 0);
    st.outbox.clear();
    st
}

/// The 5-retry budget is cumulative over a measurement's lifetime. A pong
/// re-arms the 50 ms timer but never restores the budget, and the first expiry
/// after the budget is spent fails the measurement.
#[test]
fn pong_rearms_retry_timer_but_never_restores_budget() {
    let eng = engine();
    let mut st = State::new(NODE, 500_000);
    st.enabled = true;
    let sess = Id(*b"SESSIONX");
    let target = v4(9999);
    st.measurement = Some(Measurement {
        task: MeasureTask { session: sess, target, gateway: 0, purpose: Purpose::Join },
        samples: Vec::new(),
        timeouts: 3,
        retry_deadline: 0,
    });

    // A valid pong from the measured endpoint re-arms the timer only.
    let pong = sync::encode_pong(sess, 1, &[]);
    eng.handle_measurement_datagram(&mut st, 0, target, &pong, 7);
    let m = st.measurement.as_ref().expect("measurement still running");
    assert_eq!(m.timeouts, 3, "pong receipt must not restore the budget");
    assert!(m.retry_deadline > 0, "pong receipt re-arms the timer");

    // Two more expiries spend the budget (4, 5); the next one fails.
    for spent in [4, 5] {
        st.measurement.as_mut().unwrap().retry_deadline = 0;
        eng.housekeeping_pass(&mut st, 8, FRESH);
        assert_eq!(st.measurement.as_ref().unwrap().timeouts, spent);
    }
    assert_eq!(MAX_MEASUREMENT_RETRIES, 5);
    st.measurement.as_mut().unwrap().retry_deadline = 0;
    eng.housekeeping_pass(&mut st, 9, FRESH);
    assert!(st.measurement.is_none(), "expiry after the 5-retry budget fails the measurement");
}

#[test]
fn pong_of_another_session_fails_the_measurement() {
    let eng = engine();
    let mut st = joined();
    st.measurement = Some(Measurement {
        task: MeasureTask {
            session: OTHER,
            target: v4(9),
            gateway: 0,
            purpose: Purpose::Remeasure,
        },
        samples: Vec::new(),
        timeouts: 0,
        retry_deadline: 0,
    });
    // From elsewhere it is ignored...
    let pong = sync::encode_pong(NODE, 1, &[]);
    eng.handle_measurement_datagram(&mut st, 0, v4(10), &pong, 5);
    eng.handle_measurement_datagram(&mut st, 1, v4(9), &pong, 5);
    assert!(st.measurement.is_some());
    // ...from the measured endpoint it counts, and re-measurement is put off.
    eng.handle_measurement_datagram(&mut st, 0, v4(9), &pong, 5);
    assert!(st.measurement.is_none());
    assert_eq!(st.next_remeasure_at, Some(30_000_005));
}

#[test]
fn pings_are_answered_with_their_payload() {
    let eng = engine();
    let mut st = joined();
    st.ghost_offset = 1_000;
    let ping = sync::encode_ping(11, Some(22));
    eng.handle_measurement_datagram(&mut st, 0, v4(5), &ping, 234);
    assert_eq!(st.outbox.len(), 1);
    assert_eq!(st.outbox[0].outlet, Outlet::Measurement(v4(5)));
    match sync::decode(&st.outbox[0].bytes).unwrap() {
        sync::Message::Pong(p) => {
            assert_eq!(p.session, NODE);
            assert_eq!(p.ghost_time, 1_234);
            assert_eq!(p.echo, ping[9..]);
        }
        _ => panic!("expected pong"),
    }
    // A payload above 32 bytes is not answered.
    let mut long = ping[..9].to_vec();
    long.extend([0, 0, 0, 1, 0, 0, 0, 25]);
    long.extend([0; 25]);
    eng.handle_measurement_datagram(&mut st, 0, v4(5), &long, 234);
    assert_eq!(st.outbox.len(), 1);
}

#[test]
fn measurement_chain_yields_the_offset() {
    let eng = engine();
    let mut st = joined();
    let sess = Id(*b"AAAAAAAA");
    let ps = PeerState {
        session: Some(sess),
        timeline: Some(Timeline { tempo: 400_000, beat_origin: 5, time_origin: 6 }),
        measurement_endpoint: Some(v4(77)),
        ..PeerState::default()
    };
    let alive = discovery::encode(&Frame::alive(sess, ps));
    let mut now = 1_000;
    eng.handle_discovery_datagram(&mut st, 0, v4(50), &alive, now, FRESH);
    assert!(st.measurement.is_some());
    // The response to the Alive, then the first ping.
    assert_eq!(st.outbox.len(), 2);
    assert_eq!(st.outbox[0].outlet, Outlet::Unicast(v4(50)));
    // Delay 300 µs each way, their ghost clock 2 s ahead of ours.
    let offset = 2_000_000;
    let mut pongs = 0;
    while st.measurement.is_some() {
        let ping = st.outbox.last().unwrap().bytes.clone();
        now += 300;
        let pong = sync::encode_pong(sess, now + offset, &ping[9..]);
        now += 300;
        eng.handle_measurement_datagram(&mut st, 0, v4(77), &pong, now);
        pongs += 1;
    }
    // One sample from the first pong, two from each other.
    assert_eq!(pongs, 51);
    assert_eq!(st.session, sess);
    assert_eq!(st.ghost_offset, offset);
    assert_eq!(st.timeline, Timeline { tempo: 400_000, beat_origin: 5, time_origin: 6 });
    assert_eq!(st.held_stst, StartStopState::default());
    assert_eq!(st.measured.get(&NODE), Some(&0));
    assert_eq!(st.next_remeasure_at, Some(now + 30_000_000));
}

#[test]
fn join_rule_prefers_greater_ghost_time_then_lesser_id() {
    let eng = engine();
    let cases = [
        (Id(*b"ZZZZZZZZ"), 500_001, true),
        (Id(*b"AAAAAAAA"), 500_000, false),
        (Id(*b"AAAAAAAA"), 499_999, true),
        (Id(*b"ZZZZZZZZ"), 499_999, false),
        (Id(*b"AAAAAAAA"), -499_999, true),
        (Id(*b"AAAAAAAA"), -500_000, false),
        (Id(*b"AAAAAAAA"), i64::MIN, false),
        (Id(*b"ZZZZZZZZ"), i64::MAX, true),
    ];
    for (sess, offset, joins) in cases {
        let mut st = joined();
        eng.evaluate_join(&mut st, sess, offset, 1);
        assert_eq!(st.session == sess, joins, "{sess:?} {offset}");
        if joins {
            assert_eq!(st.measured.get(&NODE), Some(&0));
            // Joining again changes nothing.
            let before = st.next_remeasure_at;
            eng.evaluate_join(&mut st, sess, offset, 2);
            assert_eq!(st.next_remeasure_at, before);
        }
    }
}

fn state_of(session: Id, tempo: i64, beat_origin: i64) -> PeerState {
    PeerState {
        timeline: Some(Timeline { tempo, beat_origin, time_origin: 0 }),
        session: Some(session),
        start_stop: None,
        measurement_endpoint: Some(v4(77)),
        audio_endpoint: None,
    }
}

#[test]
fn greater_beat_origin_wins_and_tempo_is_clamped() {
    let eng = engine();
    let mut st = joined();
    eng.process_peer_state(&mut st, 0, OTHER, 5, state_of(NODE, 400_000, 0), 1);
    assert_eq!(st.timeline.tempo, 500_000);
    eng.process_peer_state(&mut st, 0, OTHER, 5, state_of(NODE, 1, 10), 2);
    assert_eq!(st.timeline, Timeline { tempo: 60_060, beat_origin: 10, time_origin: 0 });
    eng.process_peer_state(&mut st, 0, OTHER, 5, state_of(NODE, 400_000, 9), 3);
    assert_eq!(st.timeline.tempo, 60_060);
    assert!(st.session_member_seen);
    assert_eq!(count_peers(&st), 1);
}

#[test]
fn latest_transport_change_wins() {
    let eng = engine();
    let mut st = joined();
    let heard = |is_playing, timestamp| PeerState {
        session: Some(NODE),
        start_stop: Some(StartStopState { is_playing, beats: 0, timestamp }),
        ..PeerState::default()
    };
    eng.process_peer_state(&mut st, 0, OTHER, 5, heard(true, 5), 1);
    assert_eq!(st.held_stst.timestamp, 5);
    assert!(!st.app_playing, "not in sync");
    st.sst_sync = true;
    eng.process_peer_state(&mut st, 0, OTHER, 5, heard(false, 5), 1);
    assert!(st.held_stst.is_playing);
    eng.process_peer_state(&mut st, 0, OTHER, 5, heard(true, 6), 1);
    assert!(st.app_playing);
}

#[test]
fn broadcasts_are_spaced_and_delayed_ones_sent() {
    let eng = engine();
    let mut st = joined();
    // The first Alive went out at 0.
    eng.schedule_broadcast(&mut st, 49_999);
    assert!(st.outbox.is_empty());
    assert_eq!(st.broadcast_due, Some(50_000));
    let next = eng.housekeeping_pass(&mut st, 49_999, FRESH);
    assert_eq!(next, 50_000);
    eng.housekeeping_pass(&mut st, 50_000, FRESH);
    assert_eq!(st.outbox.len(), 1);
    assert_eq!(st.outbox[0].outlet, Outlet::Multicast);
    assert_eq!(st.broadcast_due, None);
    eng.schedule_broadcast(&mut st, 100_000);
    assert_eq!(st.outbox.len(), 2);
    // Then the periodic one.
    assert_eq!(eng.housekeeping_pass(&mut st, 349_999, FRESH), 350_000);
    assert_eq!(st.outbox.len(), 2);
    eng.housekeeping_pass(&mut st, 350_000, FRESH);
    assert_eq!(st.outbox.len(), 3);
}

#[test]
fn alive_is_answered_though_its_payload_is_cut() {
    let eng = engine();
    let mut st = joined();
    let mut bytes = discovery::encode(&Frame::alive(OTHER, state_of(OTHER, 500_000, 0)));
    bytes.truncate(30);
    eng.handle_discovery_datagram(&mut st, 0, v4(50), &bytes, 5, FRESH);
    assert_eq!(st.outbox.len(), 1);
    assert_eq!(st.outbox[0].outlet, Outlet::Unicast(v4(50)));
    match discovery::decode(&st.outbox[0].bytes).unwrap().message {
        Message::Response(ps) => {
            assert_eq!(ps.session, Some(NODE));
            assert_eq!(ps.measurement_endpoint, Some(v4(1001)));
            assert_eq!(ps.audio_endpoint, None);
        }
        _ => panic!("expected response"),
    }
    assert_eq!(st.peers.len(), 0);
    // Our own, and those of other groups, are not.
    let own = discovery::encode(&Frame::alive(NODE, state_of(NODE, 500_000, 0)));
    eng.handle_discovery_datagram(&mut st, 0, v4(50), &own, 5, FRESH);
    let mut group = Frame::alive(OTHER, state_of(OTHER, 500_000, 0));
    group.group_id = 1;
    eng.handle_discovery_datagram(&mut st, 0, v4(50), &discovery::encode(&group), 5, FRESH);
    assert_eq!(st.outbox.len(), 1);
    assert_eq!(st.peers.len(), 0);
}

#[test]
fn losing_the_last_member_founds_a_session_that_goes_on() {
    let eng = engine();
    let mut st = joined();
    st.timeline.tempo = 300_000;
    eng.process_peer_state(&mut st, 0, OTHER, 5, state_of(NODE, 300_000, 0), 1);
    st.held_stst = StartStopState { is_playing: true, beats: 1, timestamp: 2 };
    let bye = discovery::encode(&Frame::bye_bye(OTHER));
    eng.handle_discovery_datagram(&mut st, 0, v4(50), &bye, 600_000, FRESH);
    assert_eq!(st.node, FRESH);
    assert_eq!(st.session, FRESH);
    assert_eq!(st.ghost_offset, -600_000);
    assert_eq!(st.timeline, Timeline { tempo: 300_000, beat_origin: 2_000_000, time_origin: 0 });
    assert_eq!(
        st.held_stst,
        StartStopState { is_playing: true, beats: 2_000_000, timestamp: 0 }
    );
    assert!(!st.session_member_seen);
    // Without a member nothing more is founded.
    eng.handle_discovery_datagram(&mut st, 0, v4(50), &bye, 700_000, OTHER);
    assert_eq!(st.node, FRESH);
}

#[test]
fn peers_are_pruned_after_ttl_and_padding() {
    let eng = engine();
    let mut st = joined();
    eng.process_peer_state(&mut st, 0, OTHER, 2, state_of(OTHER, 500_000, 0), 1_000);
    eng.process_peer_state(&mut st, 1, OTHER, 3, state_of(OTHER, 500_000, 0), 1_000);
    eng.housekeeping_pass(&mut st, 3_000_999, FRESH);
    assert_eq!(st.peers.len(), 2);
    eng.housekeeping_pass(&mut st, 3_001_000, FRESH);
    assert_eq!(st.peers.len(), 0);
}

#[test]
fn one_node_on_two_gateways_counts_once() {
    let eng = engine();
    let mut st = joined();
    for gw in [0, 1, 2] {
        eng.process_peer_state(&mut st, gw, OTHER, 5, state_of(NODE, 500_000, 0), 1);
    }
    eng.process_peer_state(&mut st, 0, FRESH, 5, state_of(NODE, 500_000, 0), 1);
    eng.process_peer_state(&mut st, 0, Id(*b"ELSEWHER"), 5, state_of(OTHER, 500_000, 0), 1);
    assert_eq!(count_peers(&st), 2);
    st.enabled = false;
    assert_eq!(count_peers(&st), 0);
}

#[test]
fn enabling_starts_afresh_and_disabling_says_goodbye() {
    let eng = engine();
    let mut st = joined();
    st.timeline = Timeline { tempo: 400_000, beat_origin: 9, time_origin: 9 };
    st.outbox.clear();
    disable(&mut st);
    assert!(!st.enabled && st.gateways.is_empty());
    assert_eq!(st.outbox.len(), 1);
    let bye = discovery::decode(&st.outbox[0].bytes).unwrap();
    assert_eq!((bye.node, bye.message, bye.ttl), (NODE, Message::ByeBye, 0));
    let epoch = st.epoch;
    disable(&mut st);
    assert_eq!(st.epoch, epoch);
    st.outbox.clear();
    enable(&eng, &mut st, vec![gateway(), gateway()], 12_345).unwrap();
    assert_ne!(st.node, NODE);
    assert_eq!(st.session, st.node);
    assert_eq!(st.ghost_offset, -12_345);
    assert_eq!(st.timeline, Timeline { tempo: 400_000, beat_origin: 0, time_origin: 0 });
    assert_eq!(st.outbox.len(), 2);
    assert_eq!((st.outbox[0].gateway, st.outbox[1].gateway), (0, 1));
    assert_eq!(st.epoch, epoch + 1);
}

#[test]
fn a_disabled_peer_is_silent() {
    let eng = engine();
    let mut st = State::new(NODE, 500_000);
    let alive = discovery::encode(&Frame::alive(OTHER, state_of(OTHER, 500_000, 0)));
    dispatch(&eng, &mut st, 0, v4(1), &alive, Role::McastDiscovery, 5).unwrap();
    dispatch(&eng, &mut st, 0, v4(1), &sync::encode_ping(1, None), Role::Measurement, 5).unwrap();
    assert_eq!(housekeeping(&eng, &mut st, 5), Ok(250_005));
    assert!(st.outbox.is_empty() && st.peers.len() == 0);
}

#[test]
fn random_identifiers_differ() {
    // Nothing promises it, but two equal draws of 64 bits do not happen.
    assert_ne!(random_id().unwrap(), random_id().unwrap());
    assert_ne!(random_id().unwrap(), Id([0; 8]));
}

#[test]
fn waits_are_bounded() {
    assert_eq!(wait_micros(5_000, 0), 5_000);
    assert_eq!(wait_micros(0, 5_000), 1_000);
    assert_eq!(wait_micros(i64::MAX, i64::MIN), 250_000);
}

// ------------------------------------------------------------------- audio

fn audio_peer() -> Link {
    let mut link = Link::with_node(NODE, 500_000, Config::default());
    enable_as(&link.eng, &mut link.st, vec![gateway()], NODE, 0);
    link.enable_audio("Me", 0);
    link.st.outbox.clear();
    link
}

fn hear_of(link: &mut Link, node: Id, audio: SocketAddr) {
    let mut ps = state_of(NODE, 500_000, 0);
    ps.audio_endpoint = Some(audio);
    link.eng.process_peer_state(&mut link.st, 0, node, 5, ps, 0);
    link.st.outbox.clear();
}

fn receive(link: &mut Link, src: SocketAddr, node: Id, message: wire_audio::Message, now: i64) {
    let bytes = wire_audio::encode(&wire_audio::Frame::new(node, message));
    dispatch(&link.eng, &mut link.st, 0, src, &bytes, Role::Audio, now).unwrap();
}

fn announcement(name: &str, id: Id, ping: Option<i64>) -> wire_audio::Message {
    wire_audio::Message::PeerAnnouncement {
        session: NODE,
        peer_name: b"Them".to_vec(),
        channels: vec![wire_audio::ChannelInfo { name: name.as_bytes().to_vec(), id }],
        ping,
    }
}

#[test]
fn channels_come_only_from_gossiped_endpoints() {
    let mut link = audio_peer();
    let ch = Id(*b"CHANNEL1");
    // The ping is answered whoever sent it.
    receive(&mut link, v4(9), OTHER, announcement("x", ch, Some(55)), 1);
    assert!(link.visible_channels().is_empty());
    assert_eq!(link.st.outbox.len(), 1);
    assert_eq!(link.st.outbox[0].outlet, Outlet::Audio(v4(9)));
    assert_eq!(
        wire_audio::decode(&link.st.outbox[0].bytes).unwrap().message,
        wire_audio::Message::Pong { host_time: 55 }
    );
    hear_of(&mut link, OTHER, v4(9));
    receive(&mut link, v4(9), OTHER, announcement("x", ch, None), 1);
    assert_eq!(link.visible_channels().len(), 1);
    assert!(link.st.outbox.is_empty());
    // Only its publisher withdraws it.
    let byes = wire_audio::Message::ChannelByes { channels: vec![ch] };
    receive(&mut link, v4(9), FRESH, byes.clone(), 2);
    assert_eq!(link.visible_channels().len(), 1);
    receive(&mut link, v4(9), OTHER, byes, 2);
    assert!(link.visible_channels().is_empty());
}

#[test]
fn visible_channels_are_sorted_and_deduplicated() {
    let mut link = audio_peer();
    hear_of(&mut link, OTHER, v4(9));
    for (name, id) in [("b", 2), ("a", 3), ("a", 1), ("\u{e9}", 4), ("Z", 5)] {
        receive(&mut link, v4(9), OTHER, announcement(name, Id([id; 8]), None), 1);
    }
    // The same channel through another gateway.
    let mut ps = state_of(NODE, 500_000, 0);
    ps.audio_endpoint = Some(v4(9));
    link.eng.process_peer_state(&mut link.st, 1, OTHER, 5, ps, 0);
    let bytes = wire_audio::encode(&wire_audio::Frame::new(OTHER, announcement("b", Id([2; 8]), None)));
    dispatch(&link.eng, &mut link.st, 1, v4(9), &bytes, Role::Audio, 1).unwrap();
    assert_eq!(link.st.audio.as_ref().unwrap().known.len(), 6);
    let list = link.visible_channels();
    let names: Vec<(&str, u8)> = list.iter().map(|c| (c.name.as_str(), c.id[0])).collect();
    assert_eq!(names, [("Z", 5), ("a", 1), ("a", 3), ("b", 2), ("\u{e9}", 4)]);
    assert!(list.iter().all(|c| c.peer_name == "Them"));
}

#[test]
fn names_that_are_no_utf8_are_shown_with_replacements() {
    let mut link = audio_peer();
    hear_of(&mut link, OTHER, v4(9));
    let message = wire_audio::Message::PeerAnnouncement {
        session: NODE,
        peer_name: vec![b'a', 0xff, b'b'],
        channels: vec![wire_audio::ChannelInfo { name: "\u{fc}".into(), id: Id([1; 8]) }],
        ping: None,
    };
    receive(&mut link, v4(9), OTHER, message, 1);
    let list = link.visible_channels();
    assert_eq!(list[0].peer_name, "a\u{fffd}b");
    assert_eq!(list[0].name, "\u{fc}");
}

#[test]
fn audio_goes_to_requesters_over_their_best_path() {
    let mut link = audio_peer();
    link.st.gateways.push(gateway());
    hear_of(&mut link, OTHER, v4(9));
    let mut ps = state_of(NODE, 500_000, 0);
    ps.audio_endpoint = Some(v4(10));
    link.eng.process_peer_state(&mut link.st, 1, OTHER, 5, ps, 0);
    let ch = link.publish_channel("mine").unwrap().unwrap();
    let write = |link: &mut Link, now| {
        link.st.outbox.clear();
        link.write_channel(ch, &[3; 251], 48_000, 1, 0, 4_000_000, now);
        link.st.outbox.iter().map(|d| (d.gateway, d.outlet)).collect::<Vec<_>>()
    };
    assert!(write(&mut link, 1).is_empty(), "nobody asked");
    let request = wire_audio::Message::ChannelRequest { channel: Id(ch) };
    receive(&mut link, v4(9), OTHER, request, 1_000);
    assert!(link.has_requesters(ch, 5_000_999));
    assert!(!link.has_requesters(ch, 5_001_000));
    // Of equal paths the last known one; else the one of better quality.
    assert_eq!(write(&mut link, 2_000), [(1, Outlet::Audio(v4(10)))]);
    receive(&mut link, v4(9), OTHER, wire_audio::Message::Pong { host_time: 1_500 }, 2_000);
    link.st.audio.as_mut().unwrap().paths.items[0].1.quality = 7;
    assert_eq!(write(&mut link, 3_000), [(0, Outlet::Audio(v4(9)))]);
    assert!(write(&mut link, 5_001_000).is_empty(), "expired");
    // A request for another channel is dropped, a withdrawal works at once.
    receive(&mut link, v4(9), OTHER, wire_audio::Message::ChannelRequest { channel: OTHER }, 1);
    assert!(!link.has_requesters(ch, 1));
    receive(&mut link, v4(9), OTHER, wire_audio::Message::ChannelRequest { channel: Id(ch) }, 1);
    receive(&mut link, v4(9), OTHER, wire_audio::Message::StopChannelRequest { channel: Id(ch) }, 1);
    assert!(!link.has_requesters(ch, 1));
}

#[test]
fn material_is_contiguous_or_a_new_chunk() {
    let mut link = audio_peer();
    hear_of(&mut link, OTHER, v4(9));
    let ch = link.publish_channel("mine").unwrap().unwrap();
    receive(&mut link, v4(9), OTHER, wire_audio::Message::ChannelRequest { channel: Id(ch) }, 1);
    link.st.outbox.clear();
    // 48 frames at 48 kHz and 120 bpm are 2,000 micro-beats.
    let at = |link: &mut Link, beat| {
        link.write_channel(ch, &[1; 48], 48_000, 1, beat, 0, 2);
        link.st.audio.as_ref().unwrap().sinks[0].segments.len()
    };
    assert_eq!(at(&mut link, 100), 1);
    assert_eq!(at(&mut link, 2_100), 1);
    assert_eq!(at(&mut link, 4_101), 1, "rounding");
    assert_eq!(at(&mut link, 9_000), 2, "a gap");
    link.write_channel(ch, &[1; 48], 44_100, 1, 11_000, 0, 2);
    assert_eq!(
        link.st.audio.as_ref().unwrap().sinks[0].segments.len(),
        1,
        "another format drops what is pending"
    );
    // A rate of 0 has no beats, and is harmless while nobody asks.
    receive(&mut link, v4(9), OTHER, wire_audio::Message::StopChannelRequest { channel: Id(ch) }, 2);
    link.write_channel(ch, &[1; 48], 0, 1, 0, 0, 2);
    assert!(link.st.audio.as_ref().unwrap().sinks[0].segments.is_empty());
}

#[test]
fn buffers_of_other_sessions_and_channels_are_discarded() {
    let mut link = audio_peer();
    let ch = Id(*b"CHANNEL1");
    link.subscribe_channel(ch.0, 4_000_000, 0);
    let buffer = |session, channel| {
        wire_audio::Message::AudioBuffer(wire_audio::AudioBuffer {
            channel,
            session,
            chunks: vec![wire_audio::Chunk {
                seq: 1,
                num_frames: 2,
                begin_beats: 0,
                tempo: 500_000,
            }],
            codec: wire_audio::CODEC_PCM_I16,
            sample_rate: 48_000,
            num_channels: 1,
            sample_data: vec![0, 1, 0, 2],
        })
    };
    assert!(!link.is_receiving(ch.0, 10));
    receive(&mut link, v4(9), OTHER, buffer(OTHER, ch), 10);
    receive(&mut link, v4(9), OTHER, buffer(NODE, OTHER), 10);
    receive(&mut link, v4(9), NODE, buffer(NODE, ch), 10);
    assert!(!link.is_receiving(ch.0, 10));
    receive(&mut link, v4(9), OTHER, buffer(NODE, ch), 10);
    assert!(link.is_receiving(ch.0, 1_000_010));
    assert!(!link.is_receiving(ch.0, 1_000_011));
    let chunks = link.poll_channel(ch.0);
    assert_eq!(chunks.len(), 1);
    assert_eq!(chunks[0].samples, [1, 2]);
    assert!(link.poll_channel(ch.0).is_empty());
}

#[test]
fn departure_forgets_channels_and_withdrawals_are_split() {
    let mut link = audio_peer();
    hear_of(&mut link, OTHER, v4(9));
    receive(&mut link, v4(9), OTHER, announcement("x", Id([1; 8]), None), 1);
    assert_eq!(link.visible_channels().len(), 1);
    for _ in 0..150 {
        link.publish_channel("c").unwrap().unwrap();
    }
    link.st.outbox.clear();
    link.disable_audio(2);
    let sizes: Vec<usize> = link
        .st
        .outbox
        .iter()
        .filter(|d| d.outlet == Outlet::Audio(v4(9)))
        .map(|d| d.bytes.len())
        .collect();
    assert_eq!(sizes, [20 + 12 + 145 * 8, 20 + 12 + 5 * 8]);

    let mut link = audio_peer();
    hear_of(&mut link, OTHER, v4(9));
    receive(&mut link, v4(9), OTHER, announcement("x", Id([1; 8]), None), 1);
    let bye = discovery::encode(&Frame::bye_bye(OTHER));
    link.eng.handle_discovery_datagram(&mut link.st, 0, v4(50), &bye, 5, FRESH);
    assert!(link.visible_channels().is_empty());
}

#[test]
fn publishing_needs_audio() {
    let mut link = Link::with_node(NODE, 500_000, Config::default());
    assert_eq!(link.publish_channel("x"), Ok(None));
    assert!(!link.is_audio_enabled());
    link.enable_audio("Me", 0);
    assert!(link.publish_channel("x").unwrap().is_some());
}

/// Carry what waits in one outbox to another peer's audio socket.
fn carry_audio(from: &mut Link, to: &mut Link, src: SocketAddr, now: i64) {
    for d in from.take_outbox() {
        if let Outlet::Audio(_) = d.outlet {
            dispatch(&to.eng, &mut to.st, 0, src, &d.bytes, Role::Audio, now).unwrap();
        }
    }
}

#[test]
fn audio_lands_on_the_beat_it_was_written_at() {
    for (sent_at, heard_at) in [(4_000_000, 4_000_000), (4_000_000, 3_000_000)] {
        let mut a = audio_peer();
        // A session whose beat origin is off the grid.
        let timeline = Timeline { tempo: 495_868, beat_origin: 7_345_678, time_origin: 1_234 };
        a.st.timeline = timeline;
        let mut b = Link::with_node(OTHER, 500_000, Config::default());
        enable_as(&b.eng, &mut b.st, vec![gateway()], OTHER, 0);
        b.enable_audio("Them", 0);
        b.st.session = NODE;
        b.st.timeline = timeline;
        b.st.outbox.clear();
        hear_of(&mut a, OTHER, v4(9));
        let mut ps = state_of(NODE, 500_000, 0);
        ps.audio_endpoint = Some(v4(1002));
        b.eng.process_peer_state(&mut b.st, 0, NODE, 5, ps, 0);
        b.st.outbox.clear();

        let ch = a.publish_channel("mine").unwrap().unwrap();
        housekeeping(&a.eng, &mut a.st, 300_000).unwrap();
        carry_audio(&mut a, &mut b, v4(1002), 300_000);
        assert_eq!(b.visible_channels().len(), 1);
        b.subscribe_channel(ch, heard_at, 300_000);
        carry_audio(&mut b, &mut a, v4(9), 300_000);
        assert!(a.has_requesters(ch, 300_000));

        let samples: Vec<i16> = (0..251).collect();
        let beat = a.beat_at_time(300_000, sent_at);
        a.write_channel(ch, &samples, 48_000, 1, beat, sent_at, 300_000);
        carry_audio(&mut a, &mut b, v4(1002), 300_000);
        assert!(b.is_receiving(ch, 300_000));
        let chunks = b.poll_channel(ch);
        assert_eq!(chunks.len(), 1);
        assert_eq!(chunks[0].samples, samples);
        if sent_at == heard_at {
            assert_eq!(chunks[0].begin_app_beat, beat);
        }
        assert_eq!(chunks[0].tempo_micros_per_beat, 495_868);
        assert_eq!(chunks[0].begin_app_beat, b.beat_at_time(300_000, heard_at));
    }
}

#[test]
fn a_channel_under_two_names_is_listed_once() {
    let mut link = audio_peer();
    for gw in [0, 1] {
        let mut ps = state_of(NODE, 500_000, 0);
        ps.audio_endpoint = Some(v4(9));
        link.eng.process_peer_state(&mut link.st, gw, OTHER, 5, ps, 0);
    }
    for (gw, name, id) in [(1, "C", 1), (0, "B", 2), (0, "A", 1)] {
        let message = announcement(name, Id([id; 8]), None);
        let bytes = wire_audio::encode(&wire_audio::Frame::new(OTHER, message));
        dispatch(&link.eng, &mut link.st, gw, v4(9), &bytes, Role::Audio, 1).unwrap();
    }
    assert_eq!(link.st.audio.as_ref().unwrap().known.len(), 3);
    let list = link.visible_channels();
    let names: Vec<(&str, u8)> = list.iter().map(|c| (c.name.as_str(), c.id[0])).collect();
    assert_eq!(names, [("A", 1), ("B", 2)]);
}

#[test]
fn material_without_a_rate_is_written_where_no_length_is_asked() {
    let mut link = audio_peer();
    hear_of(&mut link, OTHER, v4(9));
    let ch = link.publish_channel("mine").unwrap().unwrap();
    let can = |link: &Link, n: usize, rate| {
        link.can_write_channel(ch, &vec![1; n], rate, 1, 0, 0, 2)
    };
    // Nobody asks.
    assert!(can(&link, 1_000, 0));
    receive(&mut link, v4(9), OTHER, wire_audio::Message::ChannelRequest { channel: Id(ch) }, 1);
    assert!(can(&link, 1_000, 48_000));
    assert!(!can(&link, 251, 0), "a datagram is full");
    assert!(can(&link, 250, 0));
    link.write_channel(ch, &[1; 250], 0, 1, 0, 0, 2);
    assert_eq!(link.st.audio.as_ref().unwrap().sinks[0].segments.len(), 1);
    assert!(!can(&link, 0, 0), "it may go on");
    link.st.timeline.tempo = 400_000;
    assert!(can(&link, 0, 0), "another tempo");
    assert!(!can(&link, 1, 0), "the datagram is full");
    // No such channel, no audio.
    assert!(link.can_write_channel([0; 8], &[1; 1_000], 0, 1, 0, 0, 2));
    link.disable_audio(3);
    assert!(can(&link, 1_000, 0));
}
