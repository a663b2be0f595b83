use tactus::math::{
    align_near, align_up, app_beat_at_ghost, beats_at_ghost, ghost_at_app_beat, ghost_at_beats,
    phase, round_div, session_offset, TEMPO_MIN_MICROS_PER_BEAT,
};
use tactus::wire::types::Timeline;

const Q: i64 = 4_000_000; // quantum 4 in µbeats

fn tl(tempo: i64, beat_origin: i64, time_origin: i64) -> Timeline {
    Timeline {
        tempo,
        beat_origin,
        time_origin,
    }
}

#[test]
fn phase_handles_negatives() {
    assert_eq!(phase(7, 4), 3);
    assert_eq!(phase(-1, 4), 3);
    assert_eq!(phase(-9, 4), 3);
    assert_eq!(phase(123, 0), 0);
}

#[test]
fn align_up_is_least_value_with_target_phase() {
    for x in -20..20 {
        for t in -20..20 {
            let a = align_up(x, t, 4);
            assert!(a >= x && a < x + 4);
            assert_eq!(phase(a, 4), phase(t, 4));
        }
    }
}

#[test]
fn align_near_deviates_at_most_half_quantum() {
    for x in -20i64..20 {
        for t in -20..20 {
            let a = align_near(x, t, 4);
            assert!((a - x).abs() <= 2);
            assert_eq!(phase(a, 4), phase(t, 4));
            // Tie at exactly q/2 resolves downward.
            if (a - x).abs() == 2 {
                assert_eq!(a, x - 2);
            }
        }
    }
}

#[test]
fn timeline_bijection_examples() {
    // 120 bpm, beat origin 0 at ghost 0: one beat each 500 ms.
    let t = tl(500_000, 0, 0);
    assert_eq!(beats_at_ghost(&t, 1_000_000), 2_000_000);
    assert_eq!(ghost_at_beats(&t, 2_000_000), 1_000_000);
    // Rounding to nearest.
    assert_eq!(beats_at_ghost(&t, 1), 2);
    // Offset origins.
    let t = tl(500_000, 3_000_000, 10_000_000);
    assert_eq!(beats_at_ghost(&t, 10_500_000), 4_000_000);
    assert_eq!(ghost_at_beats(&t, 4_000_000), 10_500_000);
}

#[test]
fn timeline_bijection_no_overflow_at_large_values() {
    // Hours of ghost time at extreme tempo must not overflow.
    let t = tl(TEMPO_MIN_MICROS_PER_BEAT, 0, 0);
    let g = 100i64 * 3600 * 1_000_000; // 100 hours
    let b = beats_at_ghost(&t, g);
    assert!((ghost_at_beats(&t, b) - g).abs() <= 1);
}

#[test]
fn app_beat_phase_encodes_against_quantum() {
    let t = tl(500_000, 0, 0);
    // At ghost 0 (beat 0) the app beat is 0 for any quantum.
    assert_eq!(app_beat_at_ghost(&t, 0, Q), 0);
    // The app beat always carries the phase of the session beat grid.
    for g in (0..20_000_000).step_by(333_333) {
        let b_app = app_beat_at_ghost(&t, g, Q);
        let b_raw = beats_at_ghost(&t, g);
        assert_eq!(phase(b_app, Q), phase(b_raw - t.beat_origin, Q));
        assert!((b_app - b_raw).abs() <= Q / 2);
    }
}

#[test]
fn beat_time_directions_compose() {
    let t = tl(495_868, 7_345_678, 12_345_678);
    for i in -50..50 {
        let b = i * 567_891;
        let g = ghost_at_app_beat(&t, b, Q);
        let b2 = app_beat_at_ghost(&t, g, Q);
        // Identity up to the µbeat rounding of the two conversions.
        assert!((b2 - b).abs() <= 1, "b={b} g={g} b2={b2}");
    }
}

#[test]
fn session_beat_time_is_quantum_independent() {
    let t = tl(495_868, 7_345_678, 12_345_678);
    for g in (0..30_000_000).step_by(1_234_567) {
        let raw = beats_at_ghost(&t, g) - t.beat_origin;
        for q in [1_000_000, Q, 3_000_000, 8_000_000] {
            let s = app_beat_at_ghost(&t, g, q) - session_offset(&t, q);
            assert_eq!(s, raw, "g={g} q={q}");
        }
    }
}

#[test]
fn rounding_goes_to_nearest_with_ties_away_from_zero() {
    assert_eq!(round_div(7, 2), 4);
    assert_eq!(round_div(-7, 2), -4);
    assert_eq!(round_div(10, 3), 3);
    assert_eq!(round_div(11, 3), 4);
    assert_eq!(round_div(-11, 3), -4);
    assert_eq!(round_div(i128::MIN, 1), 0);
    assert_eq!(round_div(1 << 64, 1), 0);
}
