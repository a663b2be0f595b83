//! Two consoles on a simulated network, driven by lines of text.

use tactus::channels::{arrange, VisibleChannel};
use tactus::console::{
    is_on, verb, AudioCtl, Pump, Status, Verb, MAX_FRAMES, QUANTUM, SAMPLE_RATE, STATUS_PERIOD,
};
use tactus::engine::state::{Gateway, Outlet};
use tactus::engine::Config;
use tactus::link::Link;
use tactus::runtime::{dispatch, housekeeping, wait_micros, Role};
use tactus::wire::types::{Id, SocketAddr, SocketAddrV4};

const DELAY: i64 = 200;
const STEP: i64 = 100;

fn addr(peer: usize, port: u16) -> SocketAddr {
    SocketAddr::V4(SocketAddrV4 { ip: 0x0a00_0000 + peer as u32, port })
}

fn bpm_to_tempo(bpm: f64) -> i64 {
    (60e6 / bpm).round() as i64
}

struct Peer {
    link: Link,
    ctl: AudioCtl,
    pump: Pump,
    cursor: Option<i64>,
    /// What its clock is ahead of the network's.
    ahead: i64,
    next_pass: i64,
    gone: bool,
}

struct Net {
    now: i64,
    peers: Vec<Peer>,
    wire: Vec<(i64, usize, Role, SocketAddr, Vec<u8>)>,
}

impl Net {
    fn new() -> Net {
        let peer = |ahead| Peer {
            link: Link::with_config(bpm_to_tempo(120.0), Config::default()).unwrap(),
            ctl: AudioCtl::default(),
            pump: Pump { generated: 0 },
            cursor: None,
            ahead,
            next_pass: 0,
            gone: false,
        };
        Net { now: 0, peers: vec![peer(5_000), peer(123_456)], wire: Vec::new() }
    }

    fn clock(&self, i: usize) -> i64 {
        self.now + self.peers[i].ahead
    }

    fn flush(&mut self, i: usize) {
        let at = self.now + DELAY;
        for d in self.peers[i].link.take_outbox() {
            let other = 1 - i;
            let (role, src) = match d.outlet {
                Outlet::Multicast => (Role::McastDiscovery, addr(i, 1)),
                Outlet::Unicast(_) => (Role::UnicastDiscovery, addr(i, 1)),
                Outlet::Measurement(_) => (Role::Measurement, addr(i, 2)),
                Outlet::Audio(_) => (Role::Audio, addr(i, 3)),
            };
            self.wire.push((at, other, role, src, d.bytes));
        }
    }

    fn send(&mut self, i: usize, line: &str) {
        let now = self.clock(i);
        let mut words = line.split_whitespace();
        let Peer { link, ctl, gone, .. } = &mut self.peers[i];
        match verb(words.next().unwrap_or("")) {
            Verb::Enable => {
                let gw = Gateway { index: 0, measurement: addr(i, 2), audio: addr(i, 3) };
                link.enable(vec![gw], now).unwrap();
            }
            Verb::Disable => link.disable(),
            Verb::Tempo => {
                let bpm: f64 = words.next().unwrap().parse().unwrap();
                link.set_tempo(bpm_to_tempo(bpm), now);
            }
            Verb::Start => link.set_is_playing(true, now),
            Verb::Stop => link.set_is_playing(false, now),
            Verb::StartStopSync => link.enable_start_stop_sync(is_on(words.next().unwrap())),
            Verb::AudioEnable => ctl.enable(link, now).unwrap(),
            Verb::AudioDisable => ctl.disable(link, now),
            Verb::AudioSubscribe => {
                let index = words.next().and_then(|w| w.parse().ok()).unwrap_or(0);
                ctl.subscribe(link, index, now);
            }
            Verb::AudioUnsubscribe => ctl.unsubscribe(link),
            Verb::Quit => {
                link.disable();
                *gone = true;
            }
            Verb::Unknown => {}
        }
        self.flush(i);
    }

    /// Keep the published channel fed, every 50 ms.
    fn feed(&mut self, i: usize) {
        let now = self.clock(i);
        let target = (self.now as u64) * SAMPLE_RATE as u64 / 1_000_000;
        let Peer { link, ctl, pump, cursor, .. } = &mut self.peers[i];
        let frames = pump.due(target, ctl.published.is_some());
        match ctl.published {
            Some(id) if frames > 0 => {
                let begin = cursor.unwrap_or_else(|| link.beat_at_time(now, QUANTUM));
                let samples = vec![1i16; frames as usize];
                link.write_channel(id, &samples, SAMPLE_RATE, 1, begin, QUANTUM, now);
                let micros = frames as i64 * 1_000_000 / SAMPLE_RATE as i64;
                *cursor = Some(begin + micros * 1_000_000 / link.tempo());
            }
            Some(_) => {}
            None => *cursor = None,
        }
        if let Some(id) = ctl.subscribed {
            for chunk in link.poll_channel(id) {
                assert!(chunk.samples.iter().all(|s| *s == 1));
            }
        }
        self.flush(i);
    }

    fn step(&mut self) {
        self.now += STEP;
        let (due, later): (Vec<_>, Vec<_>) =
            std::mem::take(&mut self.wire).into_iter().partition(|d| d.0 <= self.now);
        self.wire = later;
        for (_, j, role, src, bytes) in due {
            let clock = self.clock(j);
            let link = &mut self.peers[j].link;
            dispatch(&link.eng, &mut link.st, 0, src, &bytes, role, clock).unwrap();
            self.peers[j].next_pass = 0;
            self.flush(j);
        }
        for j in 0..2 {
            if self.peers[j].gone {
                continue;
            }
            let clock = self.clock(j);
            if clock >= self.peers[j].next_pass {
                let link = &mut self.peers[j].link;
                let next = housekeeping(&link.eng, &mut link.st, clock).unwrap();
                self.peers[j].next_pass = clock + wait_micros(next, clock) as i64;
                self.flush(j);
            }
            if self.now % 50_000 == 0 {
                self.feed(j);
            }
        }
    }

    fn run(&mut self, millis: i64) {
        let end = self.now + millis * 1_000;
        while self.now < end {
            self.step();
        }
    }

    fn status(&self, i: usize) -> Status {
        Status::of(&self.peers[i].link, &self.peers[i].ctl, self.clock(i))
    }

    fn wait(&mut self, i: usize, what: &str, seconds: i64, pred: impl Fn(&Status) -> bool) {
        let end = self.now + seconds * 1_000_000;
        while self.now < end {
            if pred(&self.status(i)) {
                return;
            }
            self.step();
        }
        panic!("timed out waiting for {what}; latest = {:?}", self.status(i));
    }
}

fn bpm(status: &Status) -> f64 {
    60e6 / status.tempo as f64
}

#[test]
fn contract_scenarios_candidate_vs_candidate() {
    let mut net = Net::new();
    let (a, b) = (0, 1);

    // Starts disabled with tempo 120, quantum 4.
    net.wait(a, "initial status", 2, |st| {
        st.peers == 0 && (bpm(st) - 120.0).abs() < 0.01 && !st.playing
    });
    assert_eq!(QUANTUM, 4_000_000);

    // Joining.
    net.send(a, "enable");
    net.run(700);
    net.send(b, "enable");
    net.wait(a, "a sees b", 8, |st| st.peers >= 1);
    net.wait(b, "b sees a", 8, |st| st.peers >= 1);

    // Tempo is followed.
    net.send(b, "tempo 100");
    net.wait(a, "a adopts 100 bpm", 5, |st| (bpm(st) - 100.0).abs() < 0.01);
    net.send(a, "tempo 124");
    net.wait(b, "b adopts 124 bpm", 5, |st| (bpm(st) - 124.0).abs() < 0.01);

    // Start and stop.
    net.send(a, "startstop-sync 1");
    net.send(b, "startstop-sync 1");
    net.run(300);
    net.send(b, "start");
    net.wait(a, "a starts", 5, |st| st.playing);
    net.send(b, "stop");
    net.wait(a, "a stops", 5, |st| !st.playing);

    // Beats are aligned: the clocks here run exactly, so the phases agree.
    let diff = (net.status(a).beat - net.status(b).beat).rem_euclid(QUANTUM);
    assert!(diff.min(QUANTUM - diff) < 2_000, "{diff}");

    // Audio.
    net.send(a, "audio-enable");
    net.send(b, "audio-enable");
    net.wait(a, "a sees b's channel", 8, |st| st.channels >= 1);
    net.wait(b, "b sees a's channel", 8, |st| st.channels >= 1);
    net.send(b, "audio-subscribe 0");
    net.wait(b, "b receives audio", 12, |st| st.receiving);
    net.wait(a, "a is publishing", 5, |st| st.publishing);
    net.send(b, "audio-unsubscribe");
    net.send(a, "audio-subscribe 0");
    net.wait(a, "a receives audio", 12, |st| st.receiving);
    net.send(a, "audio-unsubscribe");
    net.send(b, "audio-disable");
    net.wait(a, "a's channel list empties", 8, |st| st.channels == 0);

    // Departure.
    net.send(b, "quit");
    net.wait(a, "a alone again", 10, |st| st.peers == 0);
    net.send(a, "quit");
    assert!(!net.status(a).audio);
}

/// A burst of tempo steps without a pause between them arrives.
#[test]
fn tempo_burst_is_followed() {
    let mut net = Net::new();
    net.send(0, "enable");
    net.run(700);
    net.send(1, "enable");
    net.wait(0, "a sees b", 10, |st| st.peers == 1);
    net.wait(1, "b sees a", 10, |st| st.peers == 1);
    net.send(1, "tempo 100");
    net.wait(0, "a adopts 100 bpm", 5, |st| (bpm(st) - 100.0).abs() < 0.01);
    for step in 1..=24 {
        net.send(0, &format!("tempo {}", 100 + step));
    }
    net.wait(1, "b adopts 124 bpm", 5, |st| (bpm(st) - 124.0).abs() < 0.01);
}

#[test]
fn words_name_commands() {
    for (word, want) in [
        ("enable", Verb::Enable),
        ("disable", Verb::Disable),
        ("tempo", Verb::Tempo),
        ("start", Verb::Start),
        ("stop", Verb::Stop),
        ("startstop-sync", Verb::StartStopSync),
        ("audio-enable", Verb::AudioEnable),
        ("audio-disable", Verb::AudioDisable),
        ("audio-subscribe", Verb::AudioSubscribe),
        ("audio-unsubscribe", Verb::AudioUnsubscribe),
        ("quit", Verb::Quit),
        ("", Verb::Unknown),
        ("Enable", Verb::Unknown),
        ("enabled", Verb::Unknown),
        ("st\u{f6}p", Verb::Unknown),
    ] {
        assert_eq!(verb(word), want, "{word}");
    }
    assert!(is_on("1"));
    assert!(!is_on("0") && !is_on("11") && !is_on(""));
}

#[test]
fn the_channel_is_published_once() {
    let mut link = Link::with_node(Id([1; 8]), 500_000, Config::default());
    let mut ctl = AudioCtl::default();
    ctl.subscribe(&mut link, 0, 0);
    assert_eq!(ctl, AudioCtl::default(), "nothing to follow");
    ctl.enable(&mut link, 0).unwrap();
    let published = ctl.published;
    assert!(published.is_some());
    ctl.enable(&mut link, 1).unwrap();
    assert_eq!(ctl.published, published);
    assert_eq!(link.st.audio.as_ref().unwrap().sinks.len(), 1);
    ctl.disable(&mut link, 2);
    assert_eq!(ctl, AudioCtl::default());
    assert!(!link.is_audio_enabled());
}

#[test]
fn the_pump_keeps_real_time() {
    let mut pump = Pump { generated: 0 };
    assert_eq!(pump.due(2_400, true), 2_400);
    assert_eq!(pump.due(2_400, true), 0);
    assert_eq!(pump.due(102_400, true), MAX_FRAMES, "what is beyond is skipped");
    assert_eq!(pump.due(103_000, true), 600);
    assert_eq!(pump.due(200_000, false), 0);
    assert_eq!(pump.due(200_048, true), 48);
}

#[test]
fn status_is_due_on_change_or_after_a_while() {
    assert!(Status::is_due(true, 0));
    assert!(!Status::is_due(false, STATUS_PERIOD - 1));
    assert!(Status::is_due(false, STATUS_PERIOD));
}

#[test]
fn listings_are_arranged() {
    let ch = |peer: &str, name: &str, id: u8| VisibleChannel {
        peer_name: peer.to_string(),
        name: name.to_string(),
        id: [id; 8],
    };
    let list = vec![
        ch("b", "x", 1),
        ch("a", "y", 2),
        ch("a", "x", 9),
        ch("a", "x", 3),
        ch("a", "y", 2),
        ch("", "z", 4),
    ];
    let want = vec![ch("", "z", 4), ch("a", "x", 3), ch("a", "x", 9), ch("a", "y", 2), ch("b", "x", 1)];
    assert_eq!(arrange(list), want);
    // A channel is one entry, whatever names it has.
    assert_eq!(arrange(vec![ch("b", "x", 1), ch("a", "x", 1)]), vec![ch("a", "x", 1)]);
    let apart = vec![ch("c", "x", 1), ch("b", "x", 2), ch("a", "x", 1)];
    assert_eq!(arrange(apart), vec![ch("a", "x", 1), ch("b", "x", 2)]);
}
