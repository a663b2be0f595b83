//! Clock measurement: ping/pong conversations and the offset they yield.

use vstd::prelude::*;

use crate::engine::Engine;
use crate::engine::elect::join_evaluated;
use crate::engine::send::{post, posted};
use crate::engine::state::{
    is_clock, is_sample, state_ok, MeasureTask, Measurement, MeasurementView, Outlet, PeerEntry,
    Purpose, State, StateView, MEASUREMENT_RETRY, REMEASURE_PERIOD,
};
use crate::math::{rounded, wrap64, wrapping_sum};
use crate::order::{lemma_insert_multiset, lemma_insert_sorted};
use crate::table::{with, Route, Table};
use crate::wire::sync;
use crate::wire::codec::Error;
use crate::wire::discovery::PeerState;
use crate::wire::sync::{echo_times, ping_bytes, pong_bytes, MAX_PING_PAYLOAD, SAMPLES_REQUIRED};
use crate::wire::types::{SessionId, SocketAddr};

verus! {

// ------------------------------------------------------------------ median

/// The order of samples.
pub open spec fn at_most() -> spec_fn(i128, i128) -> bool {
    |a: i128, b: i128| a <= b
}

/// The median of samples given in half microseconds, rounded to microseconds.
pub open spec fn median_of(samples: Seq<i128>) -> int {
    let v = samples.sort_by(at_most());
    let n = samples.len() as int;
    if n % 2 == 1 {
        rounded(v[n / 2] as int, 2)
    } else {
        rounded(v[n / 2 - 1] + v[n / 2], 4)
    }
}

/// The 64-bit number nearest to `x`.
pub open spec fn saturated(x: int) -> i64 {
    if x > i64::MAX {
        i64::MAX
    } else if x < i64::MIN {
        i64::MIN
    } else {
        x as i64
    }
}

/// The samples in ascending order.
fn sorted(samples: &Vec<i128>) -> (v: Vec<i128>)
    ensures
        v@ == samples@.sort_by(at_most()),
        v@.len() == samples@.len(),
        v@.to_multiset() == samples@.to_multiset(),
{
    let ghost leq = at_most();
    let mut v: Vec<i128> = Vec::new();
    let mut i: usize = 0;
    proof {
        assert(samples@.take(0) =~= v@);
    }
    while i < samples.len()
        invariant
            i <= samples@.len(),
            leq == at_most(),
            v@.len() == i,
            vstd::relations::sorted_by(v@, leq),
            v@.to_multiset() == samples@.take(i as int).to_multiset(),
        decreases samples@.len() - i,
    {
        let x = samples[i];
        let mut k: usize = v.len();
        while k > 0 && v[k - 1] > x
            invariant
                k <= v@.len(),
                forall|j: int| k <= j < v@.len() ==> v@[j] > x,
            decreases k,
        {
            k = k - 1;
        }
        let ghost before = v@;
        v.insert(k, x);
        proof {
            lemma_insert_multiset(before, k as int, x);
            vstd::seq_lib::to_multiset_build(samples@.take(i as int), x);
            assert(samples@.take(i + 1) =~= samples@.take(i as int).push(x));
            lemma_insert_sorted(before, k as int, x, leq);
        }
        i = i + 1;
    }
    proof {
        assert(samples@.take(i as int) =~= samples@);
        samples@.lemma_sort_by_ensures(leq);
        vstd::seq_lib::lemma_sorted_unique(v@, samples@.sort_by(leq), leq);
    }
    v
}

/// Median of the collected samples, which are in half microseconds, rounded to
/// microseconds.
pub fn median_round(samples: &Vec<i128>) -> (r: i64)
    requires
        samples@.len() > 0,
        forall|i: int| 0 <= i < samples@.len() ==> is_sample(#[trigger] samples@[i]),
    ensures
        r == saturated(median_of(samples@)),
{
    let v = sorted(samples);
    let n = v.len();
    proof {
        assert forall|i: int| 0 <= i < v@.len() implies is_sample(#[trigger] v@[i]) by {
            broadcast use vstd::seq_lib::group_to_multiset_ensures;

            assert(v@.contains(v@[i]));
            assert(samples@.to_multiset().count(v@[i]) > 0);
            assert(samples@.contains(v@[i]));
        }
    }
    if n % 2 == 1 {
        saturating_round(v[n / 2], 2)
    } else {
        saturating_round(v[n / 2 - 1] + v[n / 2], 4)
    }
}

/// A quotient rounded to nearest, ties away from zero, and to 64 bits.
fn saturating_round(num: i128, den: i128) -> (r: i64)
    requires
        -0x8_0000_0000_0000_0000 <= num <= 0x8_0000_0000_0000_0000,
        0 < den <= 4,
    ensures
        r == saturated(rounded(num as int, den as int)),
{
    let q: i128 = if num >= 0 {
        (num + den / 2) / den
    } else {
        -((-num + den / 2) / den)
    };
    if q > i64::MAX as i128 {
        i64::MAX
    } else if q < i64::MIN as i128 {
        i64::MIN
    } else {
        q as i64
    }
}

// ----------------------------------------------------------------- samples

/// The offset samples of one pong, in half microseconds: the midpoint of the
/// ping's round trip against the pong's ghost time, and the midpoint of two
/// ghost times against the ping's host time. A time of 0 is no time.
pub open spec fn pong_samples(
    ghost_time: i64,
    host_time: Option<i64>,
    prev_ghost_time: Option<i64>,
    now: i64,
) -> Seq<i128> {
    match host_time {
        Some(ht) => if ghost_time == 0 || ht == 0 {
            Seq::empty()
        } else {
            let first = seq![(2 * ghost_time - now - ht) as i128];
            match prev_ghost_time {
                Some(pgt) => if pgt == 0 {
                    first
                } else {
                    first.push((ghost_time + pgt - 2 * ht) as i128)
                },
                None => first,
            }
        },
        None => Seq::empty(),
    }
}

fn add_samples(
    samples: &mut Vec<i128>,
    ghost_time: i64,
    host_time: Option<i64>,
    prev_ghost_time: Option<i64>,
    now: i64,
)
    requires
        forall|i: int| 0 <= i < old(samples)@.len() ==> is_sample(#[trigger] old(samples)@[i]),
    ensures
        final(samples)@ == old(samples)@ + pong_samples(
            ghost_time,
            host_time,
            prev_ghost_time,
            now,
        ),
        forall|i: int| 0 <= i < final(samples)@.len() ==> is_sample(#[trigger] final(samples)@[i]),
{
    if ghost_time != 0 {
        if let Some(ht) = host_time {
            if ht != 0 {
                samples.push(2 * ghost_time as i128 - now as i128 - ht as i128);
                if let Some(pgt) = prev_ghost_time {
                    if pgt != 0 {
                        samples.push(ghost_time as i128 + pgt as i128 - 2 * ht as i128);
                    }
                }
            }
        }
    }
    proof {
        assert(samples@ =~= old(samples)@ + pong_samples(
            ghost_time,
            host_time,
            prev_ghost_time,
            now,
        ));
    }
}

// ----------------------------------------------------------------- targets

/// Whether a peer entry is the session's founder, or (`founder` false) one of
/// its members.
pub open spec fn is_candidate(e: (Route, PeerEntry), sess: SessionId, founder: bool) -> bool {
    if founder {
        e.0.id == sess
    } else {
        e.1.state.session == Some(sess)
    }
}

/// The first candidate that can be measured: its endpoint and its gateway.
pub open spec fn first_target(
    peers: Seq<(Route, PeerEntry)>,
    sess: SessionId,
    founder: bool,
) -> Option<(SocketAddr, usize)>
    decreases peers.len(),
{
    if peers.len() == 0 {
        None
    } else if is_candidate(peers[0], sess, founder)
        && peers[0].1.state.measurement_endpoint is Some {
        Some((peers[0].1.state.measurement_endpoint->0, peers[0].0.gateway))
    } else {
        first_target(peers.skip(1), sess, founder)
    }
}

fn find_target(peers: &Table<Route, PeerEntry>, sess: SessionId, founder: bool) -> (r: Option<
    (SocketAddr, usize),
>)
    ensures
        r == first_target(peers@, sess, founder),
{
    let mut i: usize = 0;
    proof {
        assert(peers@.skip(0) =~= peers@);
    }
    while i < peers.items.len()
        invariant
            i <= peers.items@.len(),
            first_target(peers@, sess, founder) == first_target(
                peers@.skip(i as int),
                sess,
                founder,
            ),
        decreases peers.items@.len() - i,
    {
        let key = peers.items[i].0;
        let entry = peers.items[i].1;
        proof {
            assert(peers@.skip(i as int)[0] == (key, entry));
            assert(peers@.skip(i as int).skip(1) =~= peers@.skip(i + 1));
        }
        let candidate = if founder {
            key.id == sess
        } else {
            match entry.state.session {
                Some(session) => session == sess,
                None => false,
            }
        };
        if candidate {
            if let Some(ep) = entry.state.measurement_endpoint {
                return Some((ep, key.gateway));
            }
        }
        i = i + 1;
    }
    None
}

/// Whether a measurement of the session is under way or to come.
pub open spec fn is_measuring(s: StateView, sess: SessionId) -> bool {
    ||| s.measurement is Some && s.measurement->0.task.session == sess
    ||| exists|i: int| 0 <= i < s.pending.len() && (#[trigger] s.pending[i]).session == sess
}

fn measuring(st: &State, sess: SessionId) -> (r: bool)
    ensures
        r == is_measuring(st@, sess),
{
    if let Some(m) = &st.measurement {
        if m.task.session == sess {
            return true;
        }
    }
    let mut i: usize = 0;
    while i < st.pending.len()
        invariant
            i <= st.pending@.len(),
            forall|j: int| 0 <= j < i ==> (#[trigger] st.pending@[j]).session != sess,
        decreases st.pending@.len() - i,
    {
        if st.pending[i].session == sess {
            return true;
        }
        i = i + 1;
    }
    false
}

// -------------------------------------------------------------- transitions

/// The state after the next pending measurement was started, if none is under
/// way. A task whose gateway is not open is dropped.
pub open spec fn next_started(s: StateView, now: i64) -> StateView {
    if s.measurement is Some || s.pending.len() == 0 {
        s
    } else {
        let task = s.pending[0];
        let popped = StateView { pending: s.pending.skip(1), ..s };
        if task.gateway < s.gateways.len() {
            StateView {
                measurement: Some(
                    MeasurementView {
                        task,
                        samples: Seq::empty(),
                        timeouts: 0,
                        retry_deadline: (now + MEASUREMENT_RETRY) as i64,
                    },
                ),
                ..posted(
                    popped,
                    task.gateway,
                    Outlet::Measurement(task.target),
                    ping_bytes(now, None),
                )
            }
        } else {
            popped
        }
    }
}

/// The state after a measurement of a session was asked for. Its target is the
/// session's founder if visible, else the gossiping peer.
pub open spec fn measurement_queued(
    s: StateView,
    gw_idx: usize,
    sess: SessionId,
    ps: PeerState,
    purpose: Purpose,
    now: i64,
) -> StateView {
    let target = match first_target(s.peers, sess, true) {
        Some(t) => Some(t),
        None => match ps.measurement_endpoint {
            Some(ep) => Some((ep, gw_idx)),
            None => None,
        },
    };
    if is_measuring(s, sess) {
        s
    } else {
        match target {
            Some((target, gateway)) => next_started(
                StateView {
                    pending: s.pending.push(
                        MeasureTask { session: sess, target, gateway, purpose },
                    ),
                    ..s
                },
                now,
            ),
            None => s,
        }
    }
}

/// The state after re-measurement of the joined session came due. Founders do
/// not re-measure their own session; the target is the founder if visible, else
/// any member.
pub open spec fn remeasure_queued(s: StateView) -> StateView {
    let target = match first_target(s.peers, s.session, true) {
        Some(t) => Some(t),
        None => first_target(s.peers, s.session, false),
    };
    if s.session == s.node || is_measuring(s, s.session) {
        s
    } else {
        match target {
            Some((target, gateway)) => StateView {
                pending: s.pending.push(
                    MeasureTask {
                        session: s.session,
                        target,
                        gateway,
                        purpose: Purpose::Remeasure,
                    },
                ),
                ..s
            },
            None => s,
        }
    }
}

/// The state after a measurement succeeded.
pub open spec fn after_success(s: StateView, task: MeasureTask, offset: i64, now: i64) -> StateView {
    let noted = StateView { measured: with(s.measured, task.session, offset), ..s };
    next_started(
        match task.purpose {
            Purpose::Join => join_evaluated(noted, task.session, offset, now),
            Purpose::Remeasure => StateView {
                ghost_offset: if s.session == task.session {
                    offset
                } else {
                    s.ghost_offset
                },
                next_remeasure_at: Some((now + REMEASURE_PERIOD) as i64),
                ..noted
            },
        },
        now,
    )
}

/// The state after a measurement failed: a joined session is tried again later,
/// a foreign one is forgotten until it is seen again.
pub open spec fn after_failure(s: StateView, task: MeasureTask, now: i64) -> StateView {
    next_started(
        match task.purpose {
            Purpose::Join => s,
            Purpose::Remeasure => StateView {
                next_remeasure_at: Some((now + REMEASURE_PERIOD) as i64),
                ..s
            },
        },
        now,
    )
}

/// The times that an echo holds; none where it does not parse.
pub open spec fn echoed(echo: Seq<u8>) -> (Option<i64>, Option<i64>) {
    match echo_times(echo) {
        Ok(times) => times,
        Err(_) => (None, None),
    }
}

/// The samples of a measurement after a pong.
pub open spec fn samples_after(
    m: MeasurementView,
    ghost_time: i64,
    echo: Seq<u8>,
    now: i64,
) -> Seq<i128> {
    m.samples + pong_samples(ghost_time, echoed(echo).0, echoed(echo).1, now)
}

/// The state after a pong. Only a pong from the measured endpoint counts; one
/// that names another session fails the measurement; else it adds its samples,
/// and the conversation goes on until there are enough.
pub open spec fn after_pong(
    s: StateView,
    gw_idx: usize,
    src: SocketAddr,
    session: SessionId,
    ghost_time: i64,
    echo: Seq<u8>,
    now: i64,
) -> StateView {
    match s.measurement {
        None => s,
        Some(m) => {
            let samples = samples_after(m, ghost_time, echo, now);
            let over = StateView { measurement: None, ..s };
            if m.task.gateway != gw_idx || m.task.target != src {
                s
            } else if session != m.task.session {
                after_failure(over, m.task, now)
            } else if samples.len() > SAMPLES_REQUIRED {
                after_success(over, m.task, saturated(median_of(samples)), now)
            } else {
                posted(
                    StateView {
                        measurement: Some(
                            MeasurementView {
                                samples,
                                retry_deadline: (now + MEASUREMENT_RETRY) as i64,
                                ..m
                            },
                        ),
                        ..s
                    },
                    m.task.gateway,
                    Outlet::Measurement(m.task.target),
                    ping_bytes(now, Some(ghost_time)),
                )
            }
        },
    }
}

/// The state after a datagram on a measurement socket. The responder keeps no
/// state: it answers any ping with a payload of at most 32 bytes, echoing it
/// verbatim.
pub open spec fn measurement_received(
    s: StateView,
    gw_idx: usize,
    src: SocketAddr,
    buf: Seq<u8>,
    now: i64,
) -> StateView {
    if !s.enabled {
        s
    } else {
        match sync::decoded(buf) {
            Err(_) => s,
            Ok(sync::MessageView::Ping { payload, .. }) => if payload.len() > MAX_PING_PAYLOAD {
                s
            } else {
                posted(
                    s,
                    gw_idx,
                    Outlet::Measurement(src),
                    pong_bytes(s.session, wrap64(now + s.ghost_offset), payload),
                )
            },
            Ok(sync::MessageView::Pong { session, ghost_time, echo }) => after_pong(
                s,
                gw_idx,
                src,
                session,
                ghost_time,
                echo,
                now,
            ),
        }
    }
}

impl Engine {
    /// Queue a measurement of a session, unless there is one, and start the
    /// next.
    pub fn queue_measurement(
        &self,
        st: &mut State,
        gw_idx: usize,
        sess: SessionId,
        ps: &PeerState,
        purpose: Purpose,
        now: i64,
    )
        requires
            is_clock(now),
            state_ok(old(st)@),
        ensures
            final(st)@ == measurement_queued(old(st)@, gw_idx, sess, *ps, purpose, now),
            state_ok(final(st)@),
    {
        if measuring(st, sess) {
            return;
        }
        let founder = find_target(&st.peers, sess, true);
        let target = match founder {
            Some(t) => Some(t),
            None => match ps.measurement_endpoint {
                Some(ep) => Some((ep, gw_idx)),
                None => None,
            },
        };
        if let Some((target, gateway)) = target {
            st.pending.push(MeasureTask { session: sess, target, gateway, purpose });
            self.start_next_measurement(st, now);
        }
    }

    /// Queue a re-measurement of the joined session, unless there is one.
    pub fn queue_remeasure(&self, st: &mut State)
        ensures
            final(st)@ == remeasure_queued(old(st)@),
            state_ok(old(st)@) ==> state_ok(final(st)@),
    {
        if st.session == st.node {
            return;
        }
        let sess = st.session;
        if measuring(st, sess) {
            return;
        }
        let founder = find_target(&st.peers, sess, true);
        let target = match founder {
            Some(t) => Some(t),
            None => find_target(&st.peers, sess, false),
        };
        if let Some((target, gateway)) = target {
            st.pending.push(
                MeasureTask { session: sess, target, gateway, purpose: Purpose::Remeasure },
            );
        }
    }

    /// Start the next pending measurement, if none is under way.
    pub fn start_next_measurement(&self, st: &mut State, now: i64)
        requires
            is_clock(now),
            state_ok(old(st)@),
        ensures
            final(st)@ == next_started(old(st)@, now),
            state_ok(final(st)@),
    {
        if st.measurement.is_some() || st.pending.len() == 0 {
            return;
        }
        let task = st.pending.remove(0);
        proof {
            assert(st@.pending =~= old(st)@.pending.skip(1));
        }
        if task.gateway >= st.gateways.len() {
            return;
        }
        post(st, task.gateway, Outlet::Measurement(task.target), sync::encode_ping(now, None));
        st.measurement = Some(
            Measurement {
                task,
                samples: Vec::new(),
                timeouts: 0,
                retry_deadline: now + MEASUREMENT_RETRY,
            },
        );
    }

    /// Process a datagram that arrived on a measurement socket.
    pub fn handle_measurement_datagram(
        &self,
        st: &mut State,
        gw_idx: usize,
        src: SocketAddr,
        buf: &[u8],
        now: i64,
    )
        requires
            is_clock(now),
            state_ok(old(st)@),
        ensures
            final(st)@ == measurement_received(old(st)@, gw_idx, src, buf@, now),
            state_ok(final(st)@),
    {
        if !st.enabled {
            return;
        }
        let msg = match sync::decode(buf) {
            Ok(msg) => msg,
            Err(_) => {
                return;
            },
        };
        match msg {
            sync::Message::Ping(ping) => {
                if ping.payload.len() > MAX_PING_PAYLOAD {
                    return;
                }
                let ghost_now = wrapping_sum(now, st.ghost_offset);
                let pong = sync::encode_pong(st.session, ghost_now, ping.payload.as_slice());
                post(st, gw_idx, Outlet::Measurement(src), pong);
            },
            sync::Message::Pong(pong) => {
                self.handle_pong(st, gw_idx, src, &pong, now);
            },
        }
    }

    /// Process a pong.
    pub fn handle_pong(
        &self,
        st: &mut State,
        gw_idx: usize,
        src: SocketAddr,
        pong: &sync::Pong,
        now: i64,
    )
        requires
            is_clock(now),
            state_ok(old(st)@),
        ensures
            final(st)@ == after_pong(
                old(st)@,
                gw_idx,
                src,
                pong.session,
                pong.ghost_time,
                pong.echo@,
                now,
            ),
            state_ok(final(st)@),
    {
        let mut m = match st.measurement.take() {
            Some(m) => m,
            None => {
                return;
            },
        };
        if m.task.gateway != gw_idx || m.task.target != src {
            st.measurement = Some(m);
            return;
        }
        // A pong naming a different session fails the measurement immediately.
        if pong.session != m.task.session {
            self.measurement_failed(st, m.task, now);
            return;
        }
        let (ht, pgt) = match sync::parse_echo(pong.echo.as_slice()) {
            Ok(times) => times,
            Err(_) => (None, None),
        };
        let gt = pong.ghost_time;
        add_samples(&mut m.samples, gt, ht, pgt, now);
        if m.samples.len() > SAMPLES_REQUIRED {
            let offset = median_round(&m.samples);
            self.measurement_succeeded(st, m.task, offset, now);
        } else {
            // Chain immediately: the next ping echoes this pong's ghost time.
            let task = m.task;
            m.retry_deadline = now + MEASUREMENT_RETRY;
            st.measurement = Some(m);
            let ping = sync::encode_ping(now, Some(gt));
            post(st, task.gateway, Outlet::Measurement(task.target), ping);
        }
    }

    /// Use the offset that a measurement gave.
    pub fn measurement_succeeded(&self, st: &mut State, task: MeasureTask, offset: i64, now: i64)
        requires
            is_clock(now),
            state_ok(old(st)@),
        ensures
            final(st)@ == after_success(old(st)@, task, offset, now),
            state_ok(final(st)@),
    {
        st.measured.insert(task.session, offset);
        match task.purpose {
            Purpose::Join => {
                self.evaluate_join(st, task.session, offset, now);
            },
            Purpose::Remeasure => {
                if st.session == task.session {
                    st.ghost_offset = offset;
                }
                st.next_remeasure_at = Some(now + REMEASURE_PERIOD);
            },
        }
        self.start_next_measurement(st, now);
    }

    /// Give up a measurement.
    pub fn measurement_failed(&self, st: &mut State, failed: MeasureTask, now: i64)
        requires
            is_clock(now),
            state_ok(old(st)@),
        ensures
            final(st)@ == after_failure(old(st)@, failed, now),
            state_ok(final(st)@),
    {
        match failed.purpose {
            // Forgotten; re-measured if seen in gossip again.
            Purpose::Join => {},
            // Scheduled again rather than abandoning the session.
            Purpose::Remeasure => {
                st.next_remeasure_at = Some(now + REMEASURE_PERIOD);
            },
        }
        self.start_next_measurement(st, now);
    }
}

// -------------------------------------------------------------------- laws

/// How many samples lie between two bounds.
pub open spec fn count_within(samples: Seq<i128>, lo: i128, hi: i128) -> nat
    decreases samples.len(),
{
    if samples.len() == 0 {
        0
    } else {
        count_within(samples.drop_last(), lo, hi) + if lo <= samples.last() <= hi {
            1nat
        } else {
            0
        }
    }
}

proof fn lemma_count_bounds(samples: Seq<i128>, lo: i128, hi: i128, n: int)
    requires
        0 <= n <= samples.len(),
    ensures
        count_within(samples, lo, hi) <= samples.len(),
        count_within(samples, lo, hi) == count_within(samples.take(n), lo, hi) + count_within(
            samples.skip(n),
            lo,
            hi,
        ),
    decreases samples.len(),
{
    if n == samples.len() {
        assert(samples.take(n) =~= samples);
        if samples.len() > 0 {
            lemma_count_bounds(samples.drop_last(), lo, hi, n - 1);
        }
    } else {
        let front = samples.drop_last();
        lemma_count_bounds(front, lo, hi, n);
        assert(front.take(n) =~= samples.take(n));
        assert(front.skip(n) =~= samples.skip(n).drop_last());
        assert(samples.skip(n).last() == samples.last());
    }
}

proof fn lemma_count_outside(samples: Seq<i128>, lo: i128, hi: i128)
    requires
        forall|i: int| 0 <= i < samples.len() ==> !(lo <= #[trigger] samples[i] <= hi),
    ensures
        count_within(samples, lo, hi) == 0,
    decreases samples.len(),
{
    if samples.len() > 0 {
        let front = samples.drop_last();
        assert forall|i: int| 0 <= i < front.len() implies !(lo <= #[trigger] front[i] <= hi) by {
            assert(front[i] == samples[i]);
        }
        lemma_count_outside(front, lo, hi);
        assert(!(lo <= samples[samples.len() - 1] <= hi));
    }
}

proof fn lemma_count_remove(samples: Seq<i128>, lo: i128, hi: i128, i: int)
    requires
        0 <= i < samples.len(),
    ensures
        count_within(samples, lo, hi) == count_within(samples.remove(i), lo, hi) + if lo
            <= samples[i] <= hi {
            1nat
        } else {
            0
        },
{
    let rest = samples.remove(i);
    lemma_count_bounds(samples, lo, hi, i);
    lemma_count_bounds(rest, lo, hi, i);
    assert(rest.take(i) =~= samples.take(i));
    assert(rest.skip(i) =~= samples.skip(i + 1));
    lemma_count_bounds(samples.skip(i), lo, hi, 1);
    assert(samples.skip(i).skip(1) =~= samples.skip(i + 1));
    let one = samples.skip(i).take(1);
    assert(one.last() == samples[i]);
    assert(one.drop_last() =~= Seq::empty());
    assert(count_within(one.drop_last(), lo, hi) == 0);
}

/// The count does not depend on the order of the samples.
proof fn lemma_count_permuted(s: Seq<i128>, t: Seq<i128>, lo: i128, hi: i128)
    requires
        s.to_multiset() == t.to_multiset(),
    ensures
        count_within(s, lo, hi) == count_within(t, lo, hi),
    decreases s.len(),
{
    broadcast use vstd::seq_lib::group_to_multiset_ensures;

    assert(s.len() == s.to_multiset().len());
    assert(t.len() == t.to_multiset().len());
    if s.len() > 0 {
        let x = s.last();
        assert(s.contains(x));
        assert(t.to_multiset().count(x) > 0);
        assert(t.contains(x));
        let i = choose|i: int| 0 <= i < t.len() && t[i] == x;
        let front = s.drop_last();
        assert(front =~= s.remove(s.len() - 1));
        vstd::seq_lib::to_multiset_remove(s, s.len() - 1);
        vstd::seq_lib::to_multiset_remove(t, i);
        lemma_count_permuted(front, t.remove(i), lo, hi);
        lemma_count_remove(t, lo, hi, i);
    }
}

/// The offset is robust to outliers: if more than half of the samples lie
/// between two bounds, so does the median, before it is rounded.
pub proof fn law_median_is_robust_to_outliers(samples: Seq<i128>, lo: i128, hi: i128)
    requires
        2 * count_within(samples, lo, hi) > samples.len(),
    ensures
        rounded(lo as int, 2) <= median_of(samples) <= rounded(hi as int, 2),
{
    let leq = at_most();
    let v = samples.sort_by(leq);
    let n = samples.len() as int;
    samples.lemma_sort_by_ensures(leq);
    vstd::seq_lib::to_multiset_len(samples);
    vstd::seq_lib::to_multiset_len(v);
    lemma_count_permuted(samples, v, lo, hi);
    let mid = n / 2;
    // The upper of the middle samples is not beyond the bounds, ...
    lemma_count_bounds(v, lo, hi, mid);
    lemma_count_bounds(v.take(mid), lo, hi, 0);
    lemma_count_bounds(v.skip(mid), lo, hi, 0);
    if v[mid] > hi {
        let upper = v.skip(mid);
        assert forall|i: int| 0 <= i < upper.len() implies !(lo <= #[trigger] upper[i] <= hi) by {
            if i > 0 {
                assert(leq(v[mid], v[mid + i]));
            }
        }
        lemma_count_outside(upper, lo, hi);
    }
    // ... nor the lower one.
    let below = if n % 2 == 1 {
        mid
    } else {
        mid - 1
    };
    lemma_count_bounds(v, lo, hi, below + 1);
    lemma_count_bounds(v.take(below + 1), lo, hi, 0);
    lemma_count_bounds(v.skip(below + 1), lo, hi, 0);
    if v[below] < lo {
        let lower = v.take(below + 1);
        assert forall|i: int| 0 <= i < lower.len() implies !(lo <= #[trigger] lower[i] <= hi) by {
            if i < below {
                assert(leq(v[i], v[below]));
            }
        }
        lemma_count_outside(lower, lo, hi);
    }
    if below < mid {
        assert(leq(v[below], v[mid]));
    }
}

/// With equal delay both ways, every sample of a pong is the true offset, in
/// half microseconds: the ping left at `ht` by the initiator's clock and came
/// back after twice the delay, the responder's ghost clock is `offset` ahead,
/// and the previous pong's ghost time was taken one delay before the ping.
pub proof fn law_symmetric_delay_gives_the_offset(
    ht: i64,
    pgt: i64,
    gt: i64,
    now: i64,
    delay: int,
    offset: int,
)
    requires
        gt == ht + delay + offset,
        pgt == ht - delay + offset,
        now == ht + 2 * delay,
        ht != 0,
        gt != 0,
        pgt != 0,
    ensures
        pong_samples(gt, Some(ht), Some(pgt), now) == seq![
            (2 * offset) as i128,
            (2 * offset) as i128,
        ],
        pong_samples(gt, Some(ht), None, now) == seq![(2 * offset) as i128],
{
    assert(pong_samples(gt, Some(ht), Some(pgt), now) =~= seq![
        (2 * offset) as i128,
        (2 * offset) as i128,
    ]);
}

/// A measurement most of whose samples are the true offset gives that offset.
pub proof fn law_true_samples_give_the_offset(samples: Seq<i128>, offset: i64)
    requires
        2 * count_within(samples, (2 * offset) as i128, (2 * offset) as i128) > samples.len(),
    ensures
        saturated(median_of(samples)) == offset,
{
    law_median_is_robust_to_outliers(samples, (2 * offset) as i128, (2 * offset) as i128);
}

/// A pong re-arms the retry timer but never restores the retry budget.
pub proof fn law_pong_keeps_retry_budget(
    s: StateView,
    gw_idx: usize,
    src: SocketAddr,
    ghost_time: i64,
    echo: Seq<u8>,
    now: i64,
)
    requires
        is_clock(now),
        s.measurement is Some,
        s.measurement->0.task.gateway == gw_idx,
        s.measurement->0.task.target == src,
        samples_after(s.measurement->0, ghost_time, echo, now).len() <= SAMPLES_REQUIRED,
    ensures
        ({
            let m = s.measurement->0;
            let t = after_pong(s, gw_idx, src, m.task.session, ghost_time, echo, now);
            &&& t.measurement is Some
            &&& t.measurement->0.task == m.task
            &&& t.measurement->0.timeouts == m.timeouts
            &&& t.measurement->0.retry_deadline == now + MEASUREMENT_RETRY
        }),
{
}

/// Pongs from elsewhere, and bytes that are no measurement message, change
/// nothing.
pub proof fn law_foreign_pongs_are_ignored(
    s: StateView,
    gw_idx: usize,
    src: SocketAddr,
    buf: Seq<u8>,
    now: i64,
)
    requires
        sync::decoded(buf) matches Ok(message) ==> message is Pong && (s.measurement matches Some(m)
            ==> m.task.gateway != gw_idx || m.task.target != src),
    ensures
        measurement_received(s, gw_idx, src, buf, now) == s,
{
}

/// What a responder answers a ping of this library is decoded by the initiator
/// to the responder's session and ghost time, with the ping's own times.
pub proof fn law_ping_is_answered(
    s: StateView,
    gw_idx: usize,
    src: SocketAddr,
    host_time: i64,
    prev_ghost_time: Option<i64>,
    now: i64,
)
    requires
        s.enabled,
        gw_idx < s.gateways.len(),
    ensures
        ({
            let t = measurement_received(
                s,
                gw_idx,
                src,
                ping_bytes(host_time, prev_ghost_time),
                now,
            );
            let pong = t.outbox.last();
            &&& t == (StateView { outbox: s.outbox.push(pong), ..s })
            &&& pong.gateway == gw_idx
            &&& pong.outlet == Outlet::Measurement(src)
            &&& sync::decoded(pong.bytes) == Ok::<_, Error>(
                sync::MessageView::Pong {
                    session: s.session,
                    ghost_time: wrap64(now + s.ghost_offset),
                    echo: sync::ping_payload(host_time, prev_ghost_time),
                },
            )
            &&& echoed(sync::ping_payload(host_time, prev_ghost_time)) == (
                Some(host_time),
                prev_ghost_time,
            )
        }),
{
    let payload = sync::ping_payload(host_time, prev_ghost_time);
    sync::law_ping_roundtrip(host_time, prev_ghost_time);
    sync::law_echo_of_ping_payload(host_time, prev_ghost_time);
    sync::law_message_sizes(host_time, prev_ghost_time, s.session, payload);
    sync::law_pong_roundtrip(s.session, wrap64(now + s.ghost_offset), payload);
    let pong = pong_bytes(s.session, wrap64(now + s.ghost_offset), payload);
    let sent = posted(s, gw_idx, Outlet::Measurement(src), pong);
    assert(sent.outbox =~= s.outbox.push(sent.outbox.last()));
}

} // verus!
