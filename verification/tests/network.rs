//! Peers on a simulated network: datagrams arrive a fixed delay after they were
//! sent, clocks run at one rate and start when their peer is created.

use tactus::engine::state::{Datagram, Gateway, Outlet};
use tactus::engine::Config;
use tactus::link::Link;
use tactus::runtime::{dispatch, housekeeping, wait_micros, Role};
use tactus::wire::types::{SocketAddr, SocketAddrV4};

const DELAY: i64 = 150;
const STEP: i64 = 50;

/// 120 bpm.
const TEMPO: i64 = 500_000;
const QUANTUM: i64 = 4_000_000;

fn addr(peer: usize, port: u16) -> SocketAddr {
    SocketAddr::V4(SocketAddrV4 { ip: 0x0a00_0000 + peer as u32, port })
}

struct Peer {
    link: Link,
    born: i64,
    next_pass: i64,
}

struct Net {
    now: i64,
    peers: Vec<Peer>,
    /// Arrival time, receiver, socket, source, bytes.
    wire: Vec<(i64, usize, Role, SocketAddr, Vec<u8>)>,
}

impl Net {
    fn new() -> Net {
        Net { now: 1_000_000, peers: Vec::new(), wire: Vec::new() }
    }

    fn add(&mut self) -> usize {
        let link = Link::with_config(TEMPO, Config::default()).unwrap();
        self.peers.push(Peer { link, born: self.now, next_pass: 0 });
        self.peers.len() - 1
    }

    fn clock(&self, i: usize) -> i64 {
        self.now - self.peers[i].born
    }

    fn enable(&mut self, i: usize) {
        let clock = self.clock(i);
        let gateway = Gateway { index: 0, measurement: addr(i, 2), audio: addr(i, 3) };
        self.peers[i].link.enable(vec![gateway], clock).unwrap();
        self.flush(i);
    }

    /// Put what a peer has to send on the wire.
    fn flush(&mut self, i: usize) {
        for Datagram { gateway, outlet, bytes } in self.peers[i].link.take_outbox() {
            assert_eq!(gateway, 0);
            assert!(bytes.len() <= 1200);
            let at = self.now + DELAY;
            let to = |ep: SocketAddr| match ep {
                SocketAddr::V4(v4) => (v4.ip - 0x0a00_0000) as usize,
                SocketAddr::V6(_) => panic!("IPv4 only"),
            };
            match outlet {
                Outlet::Multicast => {
                    for j in 0..self.peers.len() {
                        let src = addr(i, 1);
                        self.wire.push((at, j, Role::McastDiscovery, src, bytes.clone()));
                    }
                }
                Outlet::Unicast(ep) => {
                    self.wire.push((at, to(ep), Role::UnicastDiscovery, addr(i, 1), bytes))
                }
                Outlet::Measurement(ep) => {
                    self.wire.push((at, to(ep), Role::Measurement, addr(i, 2), bytes))
                }
                Outlet::Audio(ep) => self.wire.push((at, to(ep), Role::Audio, addr(i, 3), bytes)),
            }
        }
    }

    fn step(&mut self) {
        self.now += STEP;
        let (due, later): (Vec<_>, Vec<_>) =
            std::mem::take(&mut self.wire).into_iter().partition(|d| d.0 <= self.now);
        self.wire = later;
        for (_, j, role, src, bytes) in due {
            let clock = self.clock(j);
            let link = &mut self.peers[j].link;
            dispatch(&link.eng, &mut link.st, 0, src, &bytes, role, clock).unwrap();
            self.peers[j].next_pass = 0;
            self.flush(j);
        }
        for j in 0..self.peers.len() {
            let clock = self.clock(j);
            if clock >= self.peers[j].next_pass {
                let link = &mut self.peers[j].link;
                let next = housekeeping(&link.eng, &mut link.st, clock).unwrap();
                self.peers[j].next_pass = clock + wait_micros(next, clock) as i64;
                self.flush(j);
            }
        }
    }

    fn run(&mut self, micros: i64) {
        let end = self.now + micros;
        while self.now < end {
            self.step();
        }
    }

    fn wait_for(&mut self, what: &str, seconds: i64, pred: impl Fn(&Net) -> bool) {
        let end = self.now + seconds * 1_000_000;
        while self.now < end {
            if pred(self) {
                return;
            }
            self.step();
        }
        panic!("timed out waiting for {what}");
    }

    fn link(&self, i: usize) -> &Link {
        &self.peers[i].link
    }

    /// Let the application of a peer act.
    fn act<R>(&mut self, i: usize, f: impl FnOnce(&mut Link, i64) -> R) -> R {
        let clock = self.clock(i);
        let r = f(&mut self.peers[i].link, clock);
        self.flush(i);
        r
    }
}

fn bpm(tempo: i64) -> f64 {
    60e6 / tempo as f64
}

/// Circular distance between two phases at quantum `q`.
fn phase_distance(a: i64, b: i64, q: i64) -> i64 {
    let d = (a - b).rem_euclid(q);
    d.min(q - d)
}

/// Two peers of which the first is 700 ms older, in one session.
fn session_of_two() -> Net {
    let mut net = Net::new();
    let a = net.add();
    net.enable(a);
    net.run(700_000);
    let b = net.add();
    net.enable(b);
    net.wait_for("session election", 10, |n| {
        n.link(a).num_peers() == 1
            && n.link(b).num_peers() == 1
            && n.link(a).session_id() == n.link(b).session_id()
    });
    net
}

#[test]
fn two_peers_form_one_session_and_converge() {
    let mut net = session_of_two();
    let (a, b) = (0, 1);
    assert_eq!(
        net.link(a).session_id(),
        net.link(a).node_id(),
        "the older peer should keep its own session"
    );

    // Tempo set on the joiner is adopted by the founder...
    net.act(b, |l, now| l.set_tempo((60e6_f64 / 140.0).round() as i64, now));
    net.wait_for("tempo follows B to A", 5, |n| (bpm(n.link(a).tempo()) - 140.0).abs() < 0.01);
    // ...and vice versa.
    net.act(a, |l, now| l.set_tempo((60e6_f64 / 96.0).round() as i64, now));
    net.wait_for("tempo follows A to B", 5, |n| (bpm(n.link(b).tempo()) - 96.0).abs() < 0.01);

    // Beat phase at quantum 4 aligns across peers: with equal delays both ways
    // the measured offset is exact.
    let pa = net.link(a).phase_at_time(net.clock(a), QUANTUM);
    let pb = net.link(b).phase_at_time(net.clock(b), QUANTUM);
    assert!(phase_distance(pa, pb, QUANTUM) < 1_000, "{pa} {pb}");

    // Start/stop propagates with sync enabled.
    net.act(a, |l, _| l.enable_start_stop_sync(true));
    net.act(b, |l, _| l.enable_start_stop_sync(true));
    net.act(a, |l, now| l.set_is_playing(true, now));
    net.wait_for("transport start propagates", 5, |n| n.link(b).is_playing());
    net.act(b, |l, now| l.set_is_playing(false, now));
    net.wait_for("transport stop propagates", 5, |n| !n.link(a).is_playing());
}

#[test]
fn peer_departure_resets_survivor_session() {
    let mut net = session_of_two();
    let (a, b) = (0, 1);
    let a_node_before = net.link(a).node_id();
    let a_tempo_before = net.link(a).tempo();

    // B leaves; its farewell removes it immediately, and losing the last
    // session peer makes A found a fresh session under a new identifier.
    net.act(b, |l, _| l.disable());
    net.wait_for("survivor forgets departed peer", 8, |n| n.link(a).num_peers() == 0);
    net.wait_for("survivor founds fresh session", 8, |n| n.link(a).node_id() != a_node_before);
    assert_eq!(net.link(a).session_id(), net.link(a).node_id());
    // Tempo continues seamlessly across the reset.
    assert_eq!(net.link(a).tempo(), a_tempo_before);
}

#[test]
fn ttl_expiry_prunes_silent_peer() {
    let mut net = session_of_two();
    let (a, b) = (0, 1);
    // B goes silent without a farewell. A must prune it by ttl expiry: ttl 5 s
    // + 1 s prune padding.
    net.act(b, |l, _| l.simulate_crash());
    let t0 = net.now;
    net.wait_for("silent peer expires", 10, |n| n.link(a).num_peers() == 0);
    // It must not be pruned *before* its ttl either.
    assert!(net.now - t0 >= 4_000_000, "peer pruned long before its ttl expired");
    assert!(net.now - t0 <= 6_300_000);
}

#[test]
fn three_peers_share_one_session() {
    let mut net = session_of_two();
    let c = net.add();
    net.enable(c);
    net.wait_for("all in one session", 10, |n| (0..3).all(|i| n.link(i).num_peers() == 2));
    let session = net.link(0).session_id();
    assert!((0..3).all(|i| net.link(i).session_id() == session));
    // A tempo change reaches everyone.
    net.act(c, |l, now| l.set_tempo(400_000, now));
    net.wait_for("tempo everywhere", 5, |n| (0..3).all(|i| n.link(i).tempo() == 400_000));
    // The founder leaves; the others stay together.
    net.act(0, |l, _| l.disable());
    net.run(3_000_000);
    assert_eq!(net.link(1).num_peers(), 1);
    assert_eq!(net.link(1).session_id(), net.link(c).session_id());
}

#[test]
fn audio_channel_lifecycle() {
    let mut net = session_of_two();
    let (alice, bob) = (0, 1);
    net.act(alice, |l, now| l.enable_audio("Alice", now));
    net.act(bob, |l, now| l.enable_audio("Bob", now));
    let channel = net.act(alice, |l, _| l.publish_channel("A Sink")).unwrap().expect("audio enabled");

    // Bob sees Alice's channel through unicast announcements.
    net.wait_for("channel visible to Bob", 10, |n| {
        n.link(bob)
            .visible_channels()
            .iter()
            .any(|c| c.id == channel && c.name == "A Sink" && c.peer_name == "Alice")
    });

    // Bob subscribes; Alice gains a requester.
    net.act(bob, |l, now| l.subscribe_channel(channel, QUANTUM, now));
    net.wait_for("Alice sees the request", 5, |n| {
        n.link(alice).has_requesters(channel, n.clock(alice))
    });

    // Alice streams a beat-stamped ramp; Bob must receive it.
    let sample_rate = 48_000u32;
    let mut sent: Vec<i16> = Vec::new();
    let start_beat = net.link(alice).beat_at_time(net.clock(alice), QUANTUM);
    let mut value: i16 = 0;
    // 480 frames at 48 kHz and 120 bpm are 20,000 micro-beats.
    for k in 0..40 {
        let chunk: Vec<i16> = (0..480)
            .map(|_| {
                value = value.wrapping_add(7);
                value
            })
            .collect();
        let beat = start_beat + 20_000 * k;
        net.act(alice, |l, now| {
            l.write_channel(channel, &chunk, sample_rate, 1, beat, QUANTUM, now)
        });
        sent.extend(chunk);
        net.run(10_000);
    }
    net.wait_for("Bob is receiving", 5, |n| n.link(bob).is_receiving(channel, n.clock(bob)));

    let chunks = net.act(bob, |l, _| l.poll_channel(channel));
    assert!(!chunks.is_empty(), "no chunks delivered");
    // Sample integrity: nothing is lost on this network, so the received stream
    // is the beginning of what was sent.
    let received: Vec<i16> = chunks.iter().flat_map(|c| c.samples.clone()).collect();
    assert_eq!(received.len(), 40 * 480 / 251 * 251);
    assert_eq!(received, sent[..received.len()]);
    assert!(net.act(bob, |l, _| l.poll_channel(channel)).is_empty());

    // Beat alignment: the received chunk's beat equals the sent one's.
    assert_eq!(chunks[0].sample_rate, sample_rate);
    assert_eq!(chunks[0].channels, 1);
    assert_eq!(chunks[0].tempo_micros_per_beat, 500_000);
    assert_eq!(chunks[0].begin_app_beat, start_beat);
    // 251 frames are 10458.3 micro-beats.
    assert_eq!(chunks[1].begin_app_beat, start_beat + 10_458);

    // Sequence numbers start at 1 and increase.
    let seqs: Vec<u64> = chunks.iter().map(|c| c.seq).collect();
    assert_eq!(seqs[0], 1);
    assert!(seqs.windows(2).all(|w| w[1] == w[0] + 1), "seqs not increasing");

    // Unsubscribe stops the flow immediately.
    net.act(bob, |l, _| l.unsubscribe_channel(channel));
    net.wait_for("Alice loses the requester", 3, |n| {
        !n.link(alice).has_requesters(channel, n.clock(alice))
    });

    // Withdrawing the channel empties Bob's list.
    net.act(alice, |l, _| l.unpublish_channel(channel));
    net.wait_for("channel gone from Bob", 5, |n| n.link(bob).visible_channels().is_empty());

    // Disabling audio clears the endpoint advertisement.
    net.act(alice, |l, now| l.disable_audio(now));
    assert!(!net.link(alice).is_audio_enabled());
    net.run(1_000_000);
    assert!(net.link(bob).st.peers.items.iter().all(|(_, e)| e.state.audio_endpoint.is_none()));
}

#[test]
fn request_expiry_silences_sink() {
    let mut net = session_of_two();
    let (a, b) = (0, 1);
    net.act(a, |l, now| l.enable_audio("A", now));
    net.act(b, |l, now| l.enable_audio("B", now));
    let channel = net.act(a, |l, _| l.publish_channel("ch")).unwrap().unwrap();
    net.wait_for("visible", 10, |n| n.link(b).visible_channels().iter().any(|c| c.id == channel));
    net.act(b, |l, now| l.subscribe_channel(channel, QUANTUM, now));
    net.wait_for("requested", 5, |n| n.link(a).has_requesters(channel, n.clock(a)));

    // B stops refreshing: the request must expire, silencing A.
    net.act(b, |l, _| l.simulate_crash());
    net.wait_for("request expires", 10, |n| !n.link(a).has_requesters(channel, n.clock(a)));
    // ...and is pruned a second later.
    net.run(1_500_000);
    assert_eq!(net.link(a).st.audio.as_ref().unwrap().sinks[0].requesters.len(), 0);
}

#[test]
fn requests_are_refreshed() {
    let mut net = session_of_two();
    let (a, b) = (0, 1);
    net.act(a, |l, now| l.enable_audio("A", now));
    net.act(b, |l, now| l.enable_audio("B", now));
    let channel = net.act(a, |l, _| l.publish_channel("ch")).unwrap().unwrap();
    net.wait_for("visible", 10, |n| n.link(b).visible_channels().iter().any(|c| c.id == channel));
    net.act(b, |l, now| l.subscribe_channel(channel, QUANTUM, now));
    net.run(12_000_000);
    assert!(!net.link(a).st.audio.as_ref().unwrap().sinks[0].requesters.items.is_empty());
    // Keepalives measure the round trip: twice the delay, on the simulation's grid.
    let stats = &net.link(a).st.audio.as_ref().unwrap().paths.items[0].1;
    assert_eq!(stats.rtts.len(), 10);
    assert!(stats.rtts.iter().all(|&rtt| rtt == 2 * DELAY));
}
