//! SessionSnapshot: consistency and extrapolation exactness. Beats and quanta
//! are micro-beats, tempi microseconds per beat.

use tactus::engine::Config;
use tactus::link::Link;
use tactus::wire::types::Id;

fn link(bpm: f64) -> Link {
    Link::new((60e6 / bpm).round() as i64).unwrap()
}

fn bpm(tempo: i64) -> f64 {
    60e6 / tempo as f64
}

fn beats(micro: i64) -> f64 {
    micro as f64 / 1e6
}

const QUANTUM: i64 = 4_000_000;

#[test]
fn snapshot_agrees_with_getters() {
    let link = link(132.5);
    let snap = link.capture_session(QUANTUM, 777_777);

    assert!(!snap.enabled);
    assert_eq!(snap.num_peers, 0);
    assert_eq!(snap.quantum, QUANTUM);
    assert_eq!(snap.tempo, link.tempo());
    assert!((bpm(snap.tempo) - 132.5).abs() < 1e-3);
    assert_eq!(snap.is_playing, link.is_playing());
    assert_eq!(snap.session_id, link.session_id());

    // The snapshot's beat/phase must match what the getters report for the
    // capture instant.
    assert_eq!(snap.beat, link.beat_at_time(snap.at_micros, QUANTUM));
    assert_eq!(snap.phase, link.phase_at_time(snap.at_micros, QUANTUM));
}

#[test]
fn extrapolation_is_exact_while_timeline_unchanged() {
    let link = link(120.0);
    let snap = link.capture_session(QUANTUM, 5_000);

    // At 120 bpm the timeline advances 2 beats per second. Extrapolating one
    // second ahead must agree with beat_at_time at that instant.
    let t = snap.at_micros + 1_000_000;
    let expected = link.beat_at_time(t, QUANTUM);
    let got = snap.beat_at(t);
    assert!((beats(got) - beats(expected)).abs() < 1e-5);
    assert!((beats(got) - beats(snap.beat) - 2.0).abs() < 1e-5);

    // Phase stays within [0, quantum) and agrees with the getter.
    let p = snap.phase_at(t);
    assert!((0..QUANTUM).contains(&p));
    let expected_phase = link.phase_at_time(t, QUANTUM);
    assert!((beats(p) - beats(expected_phase)).abs() < 1e-5);
}

#[test]
fn extrapolation_superseded_by_tempo_change() {
    let mut link = link(120.0);
    let stale = link.capture_session(QUANTUM, 1_000);

    link.set_tempo((60e6_f64 / 240.0).round() as i64, 2_000);
    let fresh = link.capture_session(QUANTUM, 2_000);

    assert!((bpm(fresh.tempo) - 240.0).abs() < 1e-3);
    // A fresh snapshot tracks the new slope; the stale one keeps the old slope.
    let t = fresh.at_micros + 1_000_000;
    assert!((beats(fresh.beat_at(t)) - beats(fresh.beat) - 4.0).abs() < 1e-5);
    assert!((beats(stale.beat_at(t)) - beats(stale.beat_at(fresh.at_micros)) - 2.0).abs() < 1e-5);
}

#[test]
fn phase_at_zero_quantum_is_zero() {
    let link = link(120.0);
    let snap = link.capture_session(0, 42);
    assert_eq!(snap.phase, 0);
    assert_eq!(snap.phase_at(snap.at_micros + 123_456), 0);
}

#[test]
fn setting_the_tempo_keeps_the_beat() {
    let mut link = Link::with_node(Id(*b"NODEID01"), 500_000, Config::default());
    for (i, tempo) in [495_868, 60_060, 3_000_000, 123_457].into_iter().enumerate() {
        let now = 1_234_567 * (i as i64 + 1);
        let before = link.st.timeline;
        let beat = link.beat_at_time(now, 0);
        link.set_tempo(tempo, now);
        let after = link.beat_at_time(now, 0);
        assert_eq!(link.tempo(), tempo);
        assert!(link.st.timeline.beat_origin > before.beat_origin);
        // At most the roundings: half of (1 + old tempo / 1e6) microseconds and
        // half a micro-beat.
        let bound = (1_000_000 + before.tempo + tempo) / (2 * tempo) + 1;
        assert!((after - beat).abs() <= bound, "{beat} {after}");
    }
    // Out of range is clamped.
    link.set_tempo(1, 9_000_000);
    assert_eq!(link.tempo(), 60_060);
    link.set_tempo(i64::MAX, 9_100_000);
    assert_eq!(link.tempo(), 3_000_000);
    // Twice at one moment still gives a newer timeline.
    let origin = link.st.timeline.beat_origin;
    link.set_tempo(500_000, 9_100_000);
    assert_eq!(link.st.timeline.beat_origin, origin + 1);
}

#[test]
fn times_and_beats_are_inverse() {
    let link = Link::with_node(Id(*b"NODEID01"), 500_000, Config::default());
    for beat in [0, 1, 999_999, 4_000_000, 123_456_789] {
        let t = link.time_at_beat(beat, QUANTUM);
        assert!((link.beat_at_time(t, QUANTUM) - beat).abs() <= 1);
    }
    assert_eq!(link.time_at_beat(4_000_000, QUANTUM), 2_000_000);
}

#[test]
fn transport_follows_sync() {
    let mut link = Link::with_node(Id(*b"NODEID01"), 500_000, Config::default());
    link.set_is_playing(true, 5);
    assert!(link.is_playing());
    assert_eq!(link.st.held_stst.timestamp, 0, "local only");
    link.set_is_playing(false, 6);
    link.enable_start_stop_sync(true);
    assert!(link.is_start_stop_sync_enabled());
    assert!(!link.is_playing(), "nothing held");
    link.set_is_playing(true, 1_000_000);
    assert_eq!(link.st.held_stst.timestamp, 1_000_000);
    assert_eq!(link.st.held_stst.beats, 2_000_000);
    link.set_is_playing(false, 1_000_000);
    assert_eq!(link.st.held_stst.timestamp, 1_000_001, "timestamps never repeat");
    link.enable_start_stop_sync(false);
    link.set_is_playing(true, 7);
    link.enable_start_stop_sync(true);
    assert!(!link.is_playing(), "the held state is followed");
}
