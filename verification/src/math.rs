//! Timeline and beat-grid arithmetic.
//!
//! All beat values are micro-beats (`i64`), all times microseconds (`i64`),
//! exactly as on the wire; intermediate products use `i128`, so they do not
//! overflow. Sums and differences of 64-bit values wrap in two's complement:
//! timelines come from the network, and no timeline may stop a peer. Each
//! function is stated twice: over the unbounded integers (`beats_of` and its
//! companions), which is what it computes wherever every step fits in 64
//! bits, and with the wrapping written out (`beats_wrapped` and its
//! companions), which is what it computes in any case.

use vstd::prelude::*;

use crate::wire::types::Timeline;

verus! {

/// Tempo clamp bounds, as wire periods. 999 bpm is the *fastest* tempo and
/// therefore the smallest period.
pub const TEMPO_MIN_MICROS_PER_BEAT: i64 = 60_060;

/// 20 bpm, the slowest tempo.
pub const TEMPO_MAX_MICROS_PER_BEAT: i64 = 3_000_000;

// ---------------------------------------------------- wrapping and rounding

pub open spec fn fits64(x: int) -> bool {
    i64::MIN <= x <= i64::MAX
}

/// The 64-bit number congruent to `x` modulo 2^64.
#[verifier::opaque]
pub open spec fn wrap64(x: int) -> i64 {
    let m = x % 0x1_0000_0000_0000_0000;
    (if m >= 0x8000_0000_0000_0000 {
        m - 0x1_0000_0000_0000_0000
    } else {
        m
    }) as i64
}

pub proof fn lemma_wrap64_fits(x: int)
    requires
        fits64(x),
    ensures
        wrap64(x) == x,
{
    reveal(wrap64);
}

/// Whole multiples of 2^64 make no difference.
proof fn lemma_wrap64_shift(x: int, k: int)
    ensures
        wrap64(x + k * 0x1_0000_0000_0000_0000) == wrap64(x),
{
    reveal(wrap64);
    vstd::arithmetic::div_mod::lemma_mod_multiples_vanish(k, x, 0x1_0000_0000_0000_0000);
}

proof fn lemma_wrap64_congruent(x: int) -> (k: int)
    ensures
        wrap64(x) == x + k * 0x1_0000_0000_0000_0000,
{
    reveal(wrap64);
    vstd::arithmetic::div_mod::lemma_fundamental_div_mod(x, 0x1_0000_0000_0000_0000);
    let q = x / 0x1_0000_0000_0000_0000;
    if x % 0x1_0000_0000_0000_0000 >= 0x8000_0000_0000_0000 {
        -q - 1
    } else {
        -q
    }
}

proof fn lemma_wrap64_sum(a: int, b: int)
    ensures
        wrap64(a + wrap64(b)) == wrap64(a + b),
        wrap64(wrap64(b) + a) == wrap64(a + b),
        wrap64(wrap64(b) - a) == wrap64(b - a),
{
    let k = lemma_wrap64_congruent(b);
    lemma_wrap64_shift(a + b, k);
    lemma_wrap64_shift(b - a, k);
}

/// Wrapping sum.
pub fn wrapping_sum(a: i64, b: i64) -> (r: i64)
    ensures
        r == wrap64(a + b),
        fits64(a + b) ==> r == a + b,
{
    reveal(wrap64);
    a.wrapping_add(b)
}

/// Wrapping difference.
pub fn wrapping_difference(a: i64, b: i64) -> (r: i64)
    ensures
        r == wrap64(a - b),
        fits64(a - b) ==> r == a - b,
{
    reveal(wrap64);
    a.wrapping_sub(b)
}

/// `num / den` rounded to nearest, ties away from zero.
pub open spec fn rounded(num: int, den: int) -> int {
    if num >= 0 {
        (num + den / 2) / den
    } else {
        -((-num + den / 2) / den)
    }
}

/// No integer is nearer to `num / den` than the rounded quotient, and of two
/// that are equally near it is the one away from zero.
pub proof fn law_rounded_is_nearest(num: int, den: int)
    requires
        den > 0,
    ensures
        2 * (rounded(num, den) * den - num) <= den,
        2 * (num - rounded(num, den) * den) <= den,
        num >= 0 ==> 2 * (num - rounded(num, den) * den) < den,
        num < 0 ==> 2 * (rounded(num, den) * den - num) < den,
{
    let n = if num >= 0 {
        num
    } else {
        -num
    };
    let h = den / 2;
    let q = (n + h) / den;
    vstd::arithmetic::div_mod::lemma_fundamental_div_mod(n + h, den);
    vstd::arithmetic::div_mod::lemma_mod_bound(n + h, den);
    assert(den * q == q * den) by (nonlinear_arith);
    assert((-q) * den == -(q * den)) by (nonlinear_arith);
}

/// Rounding two numbers apart differs from rounding their sum by at most one.
pub proof fn lemma_rounding_adds(a: int, b: int, den: int)
    requires
        den > 0,
    ensures
        -1 <= rounded(a, den) + rounded(b, den) - rounded(a + b, den) <= 1,
{
    let ra = rounded(a, den);
    let rb = rounded(b, den);
    let rc = rounded(a + b, den);
    law_rounded_is_nearest(a, den);
    law_rounded_is_nearest(b, den);
    law_rounded_is_nearest(a + b, den);
    let x = ra + rb - rc;
    assert(x * den == ra * den + rb * den - rc * den) by (nonlinear_arith)
        requires
            x == ra + rb - rc,
    ;
    assert(-1 <= x <= 1) by (nonlinear_arith)
        requires
            2 * (x * den) <= 3 * den,
            2 * (x * den) >= -3 * den,
            den > 0,
    ;
}

/// Division rounding to nearest (ties away from zero); the low 64 bits of the
/// quotient are kept.
pub fn round_div(num: i128, den: i128) -> (r: i64)
    requires
        den > 0,
    ensures
        r == wrap64(rounded(num as int, den as int)),
        fits64(rounded(num as int, den as int)) ==> r == rounded(num as int, den as int),
{
    let d: u128 = den as u128;
    let n: u128 = if num >= 0 {
        num as u128
    } else {
        (-(num + 1)) as u128 + 1
    };
    let half: u128 = d / 2;
    let floor: u128 = n / d;
    let left: u128 = n % d;
    let up: bool = left >= d - half;
    proof {
        lemma_nearest_of_floor(n as int, d as int);
        assert(n <= 0x8000_0000_0000_0000_0000_0000_0000_0000);
        assert(floor <= n) by {
            vstd::arithmetic::div_mod::lemma_div_is_ordered_by_denominator(n as int, 1, d as int);
        }
    }
    let size: u128 = if up {
        floor + 1
    } else {
        floor
    };
    let low: i64 = size as i64;
    proof {
        lemma_low_bits(size);
        let exact = rounded(num as int, den as int);
        if fits64(exact) {
            lemma_wrap64_fits(exact);
        }
        reveal(wrap64);
    }
    if num >= 0 {
        low
    } else {
        0i64.wrapping_sub(low)
    }
}

proof fn lemma_low_bits(size: u128)
    ensures
        size as i64 == wrap64(size as int),
{
    reveal(wrap64);
    let low = size as i64;
    assert(low as int == {
        let m = size as int % 0x1_0000_0000_0000_0000;
        if m >= 0x8000_0000_0000_0000 {
            m - 0x1_0000_0000_0000_0000
        } else {
            m
        }
    }) by (bit_vector)
        requires
            low == size as i64,
    ;
}

/// Rounding up exactly when the remainder reaches half of the divisor.
proof fn lemma_nearest_of_floor(n: int, d: int)
    requires
        n >= 0,
        d > 0,
    ensures
        (n + d / 2) / d == n / d + if n % d >= d - d / 2 {
            1int
        } else {
            0
        },
{
    let h = d / 2;
    let q = n / d;
    let r = n % d;
    vstd::arithmetic::div_mod::lemma_fundamental_div_mod(n, d);
    vstd::arithmetic::div_mod::lemma_mod_bound(n, d);
    assert(d * q == q * d) by (nonlinear_arith);
    if r >= d - h {
        assert((q + 1) * d == q * d + d) by (nonlinear_arith);
        vstd::arithmetic::div_mod::lemma_fundamental_div_mod_converse(n + h, d, q + 1, r + h - d);
    } else {
        vstd::arithmetic::div_mod::lemma_fundamental_div_mod_converse(n + h, d, q, r + h);
    }
}

// --------------------------------------------------------------- beat grid

/// `b mod q`, in `[0, q)`; 0 without a quantum.
pub open spec fn phase_of(b: int, q: int) -> int {
    if q <= 0 {
        0
    } else {
        b % q
    }
}

/// The least value at or above `x` that has the phase of `t`.
pub open spec fn aligned_up(x: int, t: int, q: int) -> int {
    if q <= 0 {
        x
    } else {
        x + (t - x) % q
    }
}

/// The value nearest to `x` that has the phase of `t`, a tie going down.
pub open spec fn aligned_near(x: int, t: int, q: int) -> int {
    if q <= 0 {
        x
    } else {
        aligned_up(x - q / 2, t, q)
    }
}

/// The aligned value has the wanted phase, is not below `x`, and no value
/// between `x` and it has that phase.
pub proof fn law_aligned_up_is_least(x: int, t: int, q: int)
    requires
        q > 0,
    ensures
        x <= aligned_up(x, t, q) < x + q,
        phase_of(aligned_up(x, t, q), q) == phase_of(t, q),
        forall|y: int|
            x <= y && #[trigger] phase_of(y, q) == phase_of(t, q) ==> aligned_up(x, t, q) <= y,
{
    let a = aligned_up(x, t, q);
    vstd::arithmetic::div_mod::lemma_mod_bound(t - x, q);
    vstd::arithmetic::div_mod::lemma_fundamental_div_mod(t - x, q);
    assert(a == t - q * ((t - x) / q));
    assert(a == q * (-((t - x) / q)) + t) by (nonlinear_arith)
        requires
            a == t - q * ((t - x) / q),
    ;
    vstd::arithmetic::div_mod::lemma_mod_multiples_vanish(-((t - x) / q), t, q);
    assert forall|y: int| x <= y && #[trigger] phase_of(y, q) == phase_of(t, q) implies a <= y by {
        if y < a {
            lemma_same_phase_apart(y, a, q);
        }
    }
}

/// Two different values with one phase are at least a quantum apart.
proof fn lemma_same_phase_apart(y: int, a: int, q: int)
    requires
        q > 0,
        y % q == a % q,
        y < a,
    ensures
        a - y >= q,
{
    vstd::arithmetic::div_mod::lemma_fundamental_div_mod(y, q);
    vstd::arithmetic::div_mod::lemma_fundamental_div_mod(a, q);
    let k = a / q - y / q;
    assert(a - y == q * k) by (nonlinear_arith)
        requires
            a == q * (a / q) + a % q,
            y == q * (y / q) + y % q,
            y % q == a % q,
            k == a / q - y / q,
    ;
    assert(k >= 1) by (nonlinear_arith)
        requires
            a - y == q * k,
            a - y > 0,
            q > 0,
    ;
    assert(q * k >= q) by (nonlinear_arith)
        requires
            k >= 1,
            q > 0,
    ;
}

/// The aligned value has the wanted phase and is at most half a quantum away;
/// at exactly half a quantum it is the lower of the two candidates, and no
/// value with that phase is nearer.
pub proof fn law_aligned_near_is_nearest(x: int, t: int, q: int)
    requires
        q > 0,
    ensures
        phase_of(aligned_near(x, t, q), q) == phase_of(t, q),
        2 * (x - aligned_near(x, t, q)) <= q,
        2 * (aligned_near(x, t, q) - x) < q,
        forall|y: int|
            #[trigger] phase_of(y, q) == phase_of(t, q) ==> {
                &&& (aligned_near(x, t, q) - x) <= (if y >= x {
                    y - x
                } else {
                    x - y
                })
                &&& (x - aligned_near(x, t, q)) <= (if y >= x {
                    y - x
                } else {
                    x - y
                })
            },
{
    let a = aligned_near(x, t, q);
    law_aligned_up_is_least(x - q / 2, t, q);
    assert forall|y: int| #[trigger] phase_of(y, q) == phase_of(t, q) implies {
        &&& (a - x) <= (if y >= x {
            y - x
        } else {
            x - y
        })
        &&& (x - a) <= (if y >= x {
            y - x
        } else {
            x - y
        })
    } by {
        if y < a {
            lemma_same_phase_apart(y, a, q);
        } else if a < y {
            lemma_same_phase_apart(a, y, q);
        }
    }
}

pub fn phase(b: i64, q: i64) -> (r: i64)
    ensures
        r == phase_of(b as int, q as int),
{
    if q <= 0 {
        return 0;
    }
    match b.checked_rem_euclid(q) {
        Some(r) => r,
        None => 0,
    }
}

/// The least value at or above `x` having the phase of `t`.
pub fn align_up(x: i64, t: i64, q: i64) -> (r: i64)
    ensures
        r == wrap64(aligned_up(x as int, t as int, q as int)),
        fits64(aligned_up(x as int, t as int, q as int)) ==> r == aligned_up(
            x as int,
            t as int,
            q as int,
        ),
{
    proof {
        lemma_wrap64_fits(x as int);
    }
    if q <= 0 {
        return x;
    }
    let d = phase(phase(t, q) - phase(x, q), q);
    proof {
        vstd::arithmetic::div_mod::lemma_sub_mod_noop(t as int, x as int, q as int);
    }
    wrapping_sum(x, d)
}

/// What [`align_near`] computes: the step down by half a quantum wraps.
pub open spec fn near_wrapped(x: i64, t: i64, q: i64) -> i64 {
    if q <= 0 {
        x
    } else {
        wrap64(aligned_up(wrap64(x - q as int / 2) as int, t as int, q as int))
    }
}

/// The value with `t`'s phase nearest to `x` (deviation at most `q/2`, ties at
/// exactly `q/2` resolving downward).
pub fn align_near(x: i64, t: i64, q: i64) -> (r: i64)
    ensures
        r == near_wrapped(x, t, q),
        fits64(x - q as int / 2) && fits64(aligned_near(x as int, t as int, q as int)) ==> r
            == aligned_near(x as int, t as int, q as int),
{
    if q <= 0 {
        return x;
    }
    proof {
        if fits64(x - q as int / 2) {
            lemma_wrap64_fits(x - q as int / 2);
        }
    }
    align_up(wrapping_difference(x, q / 2), t, q)
}

/// The nearest tempo in the 20–999 bpm range.
pub open spec fn clamped_tempo(micros_per_beat: i64) -> i64 {
    if micros_per_beat < TEMPO_MIN_MICROS_PER_BEAT {
        TEMPO_MIN_MICROS_PER_BEAT
    } else if micros_per_beat > TEMPO_MAX_MICROS_PER_BEAT {
        TEMPO_MAX_MICROS_PER_BEAT
    } else {
        micros_per_beat
    }
}

/// Clamp a received or requested tempo into the 20–999 bpm range.
pub fn clamp_tempo(micros_per_beat: i64) -> (r: i64)
    ensures
        r == clamped_tempo(micros_per_beat),
        TEMPO_MIN_MICROS_PER_BEAT <= r <= TEMPO_MAX_MICROS_PER_BEAT,
{
    if micros_per_beat < TEMPO_MIN_MICROS_PER_BEAT {
        TEMPO_MIN_MICROS_PER_BEAT
    } else if micros_per_beat > TEMPO_MAX_MICROS_PER_BEAT {
        TEMPO_MAX_MICROS_PER_BEAT
    } else {
        micros_per_beat
    }
}


// ------------------------------------------------------ timeline bijection

/// Micro-beats at ghost time `g`.
pub open spec fn beats_of(tl: Timeline, g: int) -> int {
    tl.beat_origin + rounded((g - tl.time_origin) * 1_000_000, tl.tempo as int)
}

/// Ghost time at `b` micro-beats.
pub open spec fn ghost_of(tl: Timeline, b: int) -> int {
    tl.time_origin + rounded((b - tl.beat_origin) * tl.tempo, 1_000_000)
}

/// What [`beats_at_ghost`] computes: both the distance from the time origin
/// and the sum wrap.
pub open spec fn beats_wrapped(tl: Timeline, ghost: i64) -> i64 {
    wrap64(
        tl.beat_origin + rounded(
            wrap64(ghost - tl.time_origin) as int * 1_000_000,
            tl.tempo as int,
        ),
    )
}

/// What [`ghost_at_beats`] computes: both the distance from the beat origin
/// and the sum wrap.
pub open spec fn ghost_wrapped(tl: Timeline, beats: i64) -> i64 {
    wrap64(
        tl.time_origin + rounded(
            wrap64(beats - tl.beat_origin) as int * tl.tempo as int,
            1_000_000,
        ),
    )
}

proof fn lemma_wrap64_fits_all()
    ensures
        forall|x: int| fits64(x) ==> #[trigger] wrap64(x) == x,
{
    assert forall|x: int| fits64(x) implies #[trigger] wrap64(x) == x by {
        lemma_wrap64_fits(x);
    }
}

/// Ghost µs → µbeats.
pub fn beats_at_ghost(tl: &Timeline, ghost: i64) -> (r: i64)
    requires
        tl.tempo > 0,
    ensures
        r == beats_wrapped(*tl, ghost),
        fits64(ghost - tl.time_origin) && fits64(beats_of(*tl, ghost as int)) ==> r == beats_of(
            *tl,
            ghost as int,
        ),
{
    proof {
        lemma_wrap64_fits_all();
    }
    let since: i128 = wrapping_difference(ghost, tl.time_origin) as i128;
    let beats: i64 = round_div(since * 1_000_000, tl.tempo as i128);
    proof {
        lemma_wrap64_sum(tl.beat_origin as int, rounded(since * 1_000_000, tl.tempo as int));
    }
    wrapping_sum(tl.beat_origin, beats)
}

/// µbeats → ghost µs.
pub fn ghost_at_beats(tl: &Timeline, beats: i64) -> (r: i64)
    ensures
        r == ghost_wrapped(*tl, beats),
        fits64(beats - tl.beat_origin) && fits64(ghost_of(*tl, beats as int)) ==> r == ghost_of(
            *tl,
            beats as int,
        ),
{
    proof {
        lemma_wrap64_fits_all();
    }
    let since: i128 = wrapping_difference(beats, tl.beat_origin) as i128;
    let tempo: i128 = tl.tempo as i128;
    proof {
        assert(-0x4000_0000_0000_0000_0000_0000_0000_0000 <= since * tempo
            <= 0x4000_0000_0000_0000_0000_0000_0000_0000) by (nonlinear_arith)
            requires
                -0x8000_0000_0000_0000 <= since <= 0x7fff_ffff_ffff_ffff,
                -0x8000_0000_0000_0000 <= tempo <= 0x7fff_ffff_ffff_ffff,
        ;
    }
    let micros: i64 = round_div(since * tempo, 1_000_000);
    proof {
        lemma_wrap64_sum(tl.time_origin as int, rounded(since * tempo, 1_000_000));
    }
    wrapping_sum(tl.time_origin, micros)
}

/// Going from a ghost time to its beat and back misses the time by less than
/// the two roundings: at most half a microsecond for the second and half a
/// micro-beat, in microseconds, for the first.
pub proof fn law_time_beat_time(tl: Timeline, g: int)
    requires
        tl.tempo > 0,
    ensures
        2_000_000 * (ghost_of(tl, beats_of(tl, g)) - g) <= 1_000_000 + tl.tempo,
        2_000_000 * (g - ghost_of(tl, beats_of(tl, g))) <= 1_000_000 + tl.tempo,
{
    let tempo = tl.tempo as int;
    let d = g - tl.time_origin;
    let u = rounded(d * 1_000_000, tempo);
    law_rounded_is_nearest(d * 1_000_000, tempo);
    law_rounded_is_nearest(u * tempo, 1_000_000);
}

/// Going from a beat to its ghost time and back misses the beat by less than
/// the two roundings.
pub proof fn law_beat_time_beat(tl: Timeline, b: int)
    requires
        tl.tempo > 0,
    ensures
        2 * tl.tempo * (beats_of(tl, ghost_of(tl, b)) - b) <= 1_000_000 + tl.tempo,
        2 * tl.tempo * (b - beats_of(tl, ghost_of(tl, b))) <= 1_000_000 + tl.tempo,
{
    let tempo = tl.tempo as int;
    let d = b - tl.beat_origin;
    let t = rounded(d * tempo, 1_000_000);
    let u = rounded(t * 1_000_000, tempo);
    law_rounded_is_nearest(d * tempo, 1_000_000);
    law_rounded_is_nearest(t * 1_000_000, tempo);
    assert(beats_of(tl, ghost_of(tl, b)) - b == u - d);
    assert(2 * tempo * (u - d) == 2 * (u * tempo - d * tempo)) by (nonlinear_arith);
    assert(2 * tempo * (d - u) == 2 * (d * tempo - u * tempo)) by (nonlinear_arith);
}

// -------------------------------------------------------- application beats

/// The beat value reported to the application for ghost time `g` at quantum
/// `q`: the value nearest to the timeline's beat that has the phase of the
/// beats since the origin.
pub open spec fn app_beat_of(tl: Timeline, g: int, q: int) -> int {
    aligned_near(beats_of(tl, g), beats_of(tl, g) - tl.beat_origin, q)
}

/// A peer's session offset for quantum `q`: application beat minus offset is
/// the origin-independent session beat time.
pub open spec fn offset_of(tl: Timeline, q: int) -> int {
    aligned_near(tl.beat_origin as int, 0, q)
}

/// The timeline beat whose application beat is `b`.
pub open spec fn beat_under_app_beat(tl: Timeline, b: int, q: int) -> int {
    if q <= 0 {
        b
    } else {
        let r = b - tl.beat_origin;
        let cycle = r - phase_of(r, q);
        let delta = aligned_near(q - phase_of(r, q), q - phase_of(b, q), q);
        tl.beat_origin + cycle + q - delta
    }
}

/// Ghost time of the application beat `b`.
pub open spec fn ghost_of_app_beat(tl: Timeline, b: int, q: int) -> int {
    ghost_of(tl, beat_under_app_beat(tl, b, q))
}

/// What [`app_beat_at_ghost`] computes.
pub open spec fn app_beat_wrapped(tl: Timeline, ghost: i64, q: i64) -> i64 {
    let b = beats_wrapped(tl, ghost);
    near_wrapped(b, wrap64(b - tl.beat_origin), q)
}

/// What [`ghost_at_app_beat`] computes.
pub open spec fn ghost_of_app_beat_wrapped(tl: Timeline, b: i64, q: i64) -> i64 {
    if q <= 0 {
        ghost_wrapped(tl, b)
    } else {
        let r = wrap64(b - tl.beat_origin);
        let in_cycle = phase_of(r as int, q as int);
        let delta = near_wrapped(
            (q - in_cycle) as i64,
            (q - phase_of(b as int, q as int)) as i64,
            q,
        );
        ghost_wrapped(tl, wrap64(tl.beat_origin + (r - in_cycle) + q - delta))
    }
}

/// What [`session_offset`] computes.
pub open spec fn offset_wrapped(tl: Timeline, q: i64) -> i64 {
    near_wrapped(tl.beat_origin, 0, q)
}

/// The beat value reported to the application for ghost time `ghost` at
/// quantum `q` (µbeats).
pub fn app_beat_at_ghost(tl: &Timeline, ghost: i64, q: i64) -> (r: i64)
    requires
        tl.tempo > 0,
    ensures
        r == app_beat_wrapped(*tl, ghost, q),
{
    let b = beats_at_ghost(tl, ghost);
    align_near(b, wrapping_difference(b, tl.beat_origin), q)
}

/// Inverse of [`app_beat_at_ghost`]: application beat → ghost time, with the
/// opposite tie-break so the two directions compose.
pub fn ghost_at_app_beat(tl: &Timeline, b: i64, q: i64) -> (r: i64)
    ensures
        r == ghost_of_app_beat_wrapped(*tl, b, q),
{
    if q <= 0 {
        return ghost_at_beats(tl, b);
    }
    let r = wrapping_difference(b, tl.beat_origin);
    let in_cycle = phase(r, q);
    let cycle = wrapping_difference(r, in_cycle);
    let delta = align_near(q - in_cycle, q - phase(b, q), q);
    let base = wrapping_sum(tl.beat_origin, cycle);
    let end = wrapping_sum(base, q);
    let under = wrapping_difference(end, delta);
    proof {
        lemma_wrap64_sum(tl.beat_origin as int, r - in_cycle);
        lemma_wrap64_sum(q as int, tl.beat_origin + (r - in_cycle));
        lemma_wrap64_sum(delta as int, tl.beat_origin + (r - in_cycle) + q);
        assert(q + (tl.beat_origin + (r - in_cycle)) == tl.beat_origin + (r - in_cycle) + q);
    }
    ghost_at_beats(tl, under)
}

/// A peer's session offset for quantum `q`: `local beats − offset` is the
/// origin-independent session beat time.
pub fn session_offset(tl: &Timeline, q: i64) -> (r: i64)
    requires
        tl.tempo > 0,
    ensures
        r == offset_wrapped(*tl, q),
{
    let b0 = beats_at_ghost(tl, tl.time_origin);
    proof {
        vstd::arithmetic::div_mod::lemma_basic_div(tl.tempo as int / 2, tl.tempo as int);
        lemma_wrap64_fits(0);
        lemma_wrap64_fits(tl.beat_origin as int);
    }
    align_near(b0, wrapping_difference(b0, tl.beat_origin), q)
}

/// Application beats are timeline beats moved by a constant: aligning a beat
/// near its own distance from the origin moves every beat alike.
pub proof fn lemma_alignment_is_a_shift(b: int, origin: int, q: int)
    requires
        q > 0,
    ensures
        aligned_near(b, b - origin, q) == b + (aligned_near(origin, 0, q) - origin),
{
    assert((b - origin) - (b - q / 2) == 0 - (origin - q / 2));
}

/// Application beat minus session offset is the beats since the origin,
/// whatever the quantum.
pub proof fn law_session_beat_time_is_quantum_independent(tl: Timeline, g: int, q: int)
    ensures
        app_beat_of(tl, g, q) - offset_of(tl, q) == beats_of(tl, g) - tl.beat_origin,
{
    if q > 0 {
        lemma_alignment_is_a_shift(beats_of(tl, g), tl.beat_origin as int, q);
    }
}

/// The application beat is at most half a quantum from the timeline's beat and
/// has the phase of the beats since the origin.
pub proof fn law_app_beat_carries_the_session_phase(tl: Timeline, g: int, q: int)
    requires
        q > 0,
    ensures
        phase_of(app_beat_of(tl, g, q), q) == phase_of(beats_of(tl, g) - tl.beat_origin, q),
        2 * (app_beat_of(tl, g, q) - beats_of(tl, g)) <= q,
        2 * (beats_of(tl, g) - app_beat_of(tl, g, q)) <= q,
{
    law_aligned_near_is_nearest(beats_of(tl, g), beats_of(tl, g) - tl.beat_origin, q);
}

/// The beat under an application beat has exactly that application beat.
pub proof fn law_beat_under_app_beat(tl: Timeline, b: int, q: int)
    ensures
        aligned_near(
            beat_under_app_beat(tl, b, q),
            beat_under_app_beat(tl, b, q) - tl.beat_origin,
            q,
        ) == b,
{
    if q > 0 {
        let origin = tl.beat_origin as int;
        let r = b - origin;
        let x = q - phase_of(r, q);
        let under = beat_under_app_beat(tl, b, q);
        lemma_alignment_is_a_shift(under, origin, q);
        let shift = aligned_near(origin, 0, q) - origin;
        assert(shift == (q / 2 - origin) % q - q / 2);
        let want = (q - phase_of(b, q)) - (x - q / 2);
        assert(want == r % q - b % q + q / 2);
        assert(want % q == (q / 2 - origin) % q) by {
            vstd::arithmetic::div_mod::lemma_sub_mod_noop(r, b, q);
            vstd::arithmetic::div_mod::lemma_add_mod_noop(r % q - b % q, q / 2, q);
            vstd::arithmetic::div_mod::lemma_add_mod_noop(r - b, q / 2, q);
        }
        assert(under == b - shift);
    }
}

/// An application beat taken to its ghost time and back is the same beat, up
/// to the rounding of the two conversions.
pub proof fn law_beat_time_directions_compose(tl: Timeline, b: int, q: int)
    requires
        tl.tempo > 0,
    ensures
        2 * tl.tempo * (app_beat_of(tl, ghost_of_app_beat(tl, b, q), q) - b) <= 1_000_000
            + tl.tempo,
        2 * tl.tempo * (b - app_beat_of(tl, ghost_of_app_beat(tl, b, q), q)) <= 1_000_000
            + tl.tempo,
{
    let under = beat_under_app_beat(tl, b, q);
    let back = beats_of(tl, ghost_of(tl, under));
    law_beat_time_beat(tl, under);
    law_beat_under_app_beat(tl, b, q);
    if q > 0 {
        lemma_alignment_is_a_shift(under, tl.beat_origin as int, q);
        lemma_alignment_is_a_shift(back, tl.beat_origin as int, q);
    }
    assert(app_beat_of(tl, ghost_of_app_beat(tl, b, q), q) - b == back - under);
}

/// Where every step fits in 64 bits, the application beat is the exact one.
pub proof fn law_app_beat_is_exact(tl: Timeline, ghost: i64, q: i64)
    requires
        fits64(ghost - tl.time_origin),
        fits64(beats_of(tl, ghost as int)),
        fits64(beats_of(tl, ghost as int) - tl.beat_origin),
        fits64(beats_of(tl, ghost as int) - q as int / 2),
        fits64(app_beat_of(tl, ghost as int, q as int)),
    ensures
        app_beat_wrapped(tl, ghost, q) == app_beat_of(tl, ghost as int, q as int),
{
    let b = beats_of(tl, ghost as int);
    lemma_wrap64_fits(ghost - tl.time_origin);
    lemma_wrap64_fits(b);
    lemma_wrap64_fits(b - tl.beat_origin);
    lemma_wrap64_fits(b - q as int / 2);
    lemma_wrap64_fits(app_beat_of(tl, ghost as int, q as int));
}

/// Where every step fits in 64 bits, the ghost time of an application beat is
/// the exact one.
pub proof fn law_app_time_is_exact(tl: Timeline, b: i64, q: i64)
    requires
        fits64(b - tl.beat_origin),
        fits64(beat_under_app_beat(tl, b as int, q as int)),
        fits64(beat_under_app_beat(tl, b as int, q as int) - tl.beat_origin),
        fits64(ghost_of_app_beat(tl, b as int, q as int)),
    ensures
        ghost_of_app_beat_wrapped(tl, b, q) == ghost_of_app_beat(tl, b as int, q as int),
{
    let under = beat_under_app_beat(tl, b as int, q as int);
    lemma_wrap64_fits(b - tl.beat_origin);
    lemma_wrap64_fits(under);
    lemma_wrap64_fits(under - tl.beat_origin);
    lemma_wrap64_fits(ghost_of_app_beat(tl, b as int, q as int));
    if q > 0 {
        let r = b - tl.beat_origin;
        let x = q - phase_of(r, q as int);
        let y = q - phase_of(b as int, q as int);
        let delta = aligned_near(x, y, q as int);
        lemma_wrap64_fits(x - q as int / 2);
        assert(near_wrapped(x as i64, y as i64, q) == wrap64(delta));
        let before = tl.beat_origin + (r - phase_of(r, q as int)) + q;
        let k = lemma_wrap64_congruent(delta);
        assert(before - wrap64(delta) == under + (-k) * 0x1_0000_0000_0000_0000);
        lemma_wrap64_shift(under, -k);
    }
}

/// Where every step fits in 64 bits, the session offset is the exact one.
pub proof fn law_session_offset_is_exact(tl: Timeline, q: i64)
    requires
        fits64(tl.beat_origin - q as int / 2),
        fits64(offset_of(tl, q as int)),
    ensures
        offset_wrapped(tl, q) == offset_of(tl, q as int),
{
    lemma_wrap64_fits(tl.beat_origin - q as int / 2);
    lemma_wrap64_fits(offset_of(tl, q as int));
}

/// Sender and receiver agree on the beat whatever their quanta: a beat of the
/// one, less its session offset, plus that of the other, is the other's beat at
/// that moment.
pub proof fn law_beats_align_across_quanta(tl: Timeline, g: int, sent_at: int, heard_at: int)
    ensures
        app_beat_of(tl, g, sent_at) - offset_of(tl, sent_at) + offset_of(tl, heard_at)
            == app_beat_of(tl, g, heard_at),
{
    law_session_beat_time_is_quantum_independent(tl, g, sent_at);
    law_session_beat_time_is_quantum_independent(tl, g, heard_at);
}

/// Sender and receiver agree on the beat: the session offset that one takes off
/// an application beat and the other puts on it again cancel, if the two have
/// the same timeline and quantum.
pub proof fn law_session_offsets_cancel(beat: i64, tl: Timeline, q: i64)
    ensures
        wrap64(wrap64(beat - offset_wrapped(tl, q)) + offset_wrapped(tl, q)) == beat,
{
    let d = offset_wrapped(tl, q) as int;
    lemma_wrap64_sum(d, beat - d);
    lemma_wrap64_fits(beat as int);
}

/// A tempo of 20 to 999 bpm is taken as it is; any other becomes the nearest
/// of these.
pub proof fn law_tempo_is_clamped_to_the_nearest(tempo: i64)
    ensures
        60_060 <= clamped_tempo(tempo) <= 3_000_000,
        60_060 <= tempo <= 3_000_000 ==> clamped_tempo(tempo) == tempo,
        tempo < 60_060 ==> clamped_tempo(tempo) == 60_060,
        tempo > 3_000_000 ==> clamped_tempo(tempo) == 3_000_000,
{
}

/// A timeline is at its beat origin at its time origin, and advances by one
/// beat, a million micro-beats, in as many microseconds as its tempo says.
pub proof fn law_timeline_advances_with_its_tempo(tl: Timeline, g: int, k: nat)
    requires
        tl.tempo > 0,
    ensures
        beats_of(tl, tl.time_origin as int) == tl.beat_origin,
        ghost_of(tl, tl.beat_origin as int) == tl.time_origin,
        g >= tl.time_origin ==> beats_of(tl, g + k * tl.tempo) == beats_of(tl, g) + k * 1_000_000,
        g >= tl.beat_origin ==> ghost_of(tl, g + k * 1_000_000) == ghost_of(tl, g) + k * tl.tempo,
{
    let tempo = tl.tempo as int;
    vstd::arithmetic::div_mod::lemma_basic_div(tempo / 2, tempo);
    assert(0 * 1_000_000 == 0 && 0 * tempo == 0) by (nonlinear_arith);
    if g >= tl.time_origin {
        let a = (g - tl.time_origin) * 1_000_000;
        let b = (g + k * tl.tempo - tl.time_origin) * 1_000_000;
        assert(b == a + tempo * (k * 1_000_000)) by (nonlinear_arith)
            requires
                a == (g - tl.time_origin) * 1_000_000,
                b == (g + k * tl.tempo - tl.time_origin) * 1_000_000,
                tempo == tl.tempo,
        ;
        assert(tempo * (k * 1_000_000) >= 0) by (nonlinear_arith)
            requires
                tempo > 0,
        ;
        vstd::arithmetic::div_mod::lemma_hoist_over_denominator(
            a + tempo / 2,
            (k * 1_000_000) as int,
            tempo as nat,
        );
        assert((k * 1_000_000) * tempo == tempo * (k * 1_000_000)) by (nonlinear_arith);
    }
    if g >= tl.beat_origin {
        let a = (g - tl.beat_origin) * tl.tempo;
        let b = (g + k * 1_000_000 - tl.beat_origin) * tl.tempo;
        assert(b == a + 1_000_000 * (k * tempo)) by (nonlinear_arith)
            requires
                a == (g - tl.beat_origin) * tl.tempo,
                b == (g + k * 1_000_000 - tl.beat_origin) * tl.tempo,
                tempo == tl.tempo,
        ;
        assert(a >= 0) by (nonlinear_arith)
            requires
                a == (g - tl.beat_origin) * tl.tempo,
                g >= tl.beat_origin,
                tl.tempo > 0,
        ;
        assert(k * tempo >= 0) by (nonlinear_arith)
            requires
                tempo > 0,
        ;
        vstd::arithmetic::div_mod::lemma_hoist_over_denominator(a + 500_000, k * tempo, 1_000_000);
    }
}

/// The phase is what the beat is beyond a whole number of quanta.
pub proof fn law_phase_repeats_with_the_quantum(b: int, q: int, k: int)
    requires
        q > 0,
    ensures
        0 <= phase_of(b, q) < q,
        phase_of(b + k * q, q) == phase_of(b, q),
        0 <= b < q ==> phase_of(b, q) == b,
{
    vstd::arithmetic::div_mod::lemma_mod_bound(b, q);
    vstd::arithmetic::div_mod::lemma_mod_multiples_vanish(k, b, q);
    assert(q * k + b == b + k * q) by (nonlinear_arith);
    if 0 <= b < q {
        vstd::arithmetic::div_mod::lemma_small_mod(b as nat, q as nat);
    }
}

/// Without a quantum the application beat is the timeline's, and the time of a
/// beat is the timeline's too.
pub proof fn law_no_quantum_leaves_the_beat(tl: Timeline, x: int, q: int)
    requires
        q <= 0,
    ensures
        app_beat_of(tl, x, q) == beats_of(tl, x),
        ghost_of_app_beat(tl, x, q) == ghost_of(tl, x),
{
}

} // verus!
