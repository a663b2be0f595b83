//! Timers of the audio runtime.

use vstd::prelude::*;

use crate::audio::announce::{build_announcement_round, published, round_of, Announcer};
use crate::audio::inbound::lemma_known_filter;
use crate::audio::outbound::{drop_expired, request_sent, send_request, unexpired};
use crate::audio::paths::{
    endpoints_of, lemma_all_whatever_audio, lemma_sent_to_all, send_round, sent_to_all,
    session_endpoints,
};
use crate::audio::sink::{Sink, SinkView};
use crate::audio::source::SourceView;
use crate::audio::state::{
    audio_ok, lemma_with_known, requesters_ok, sink_ok, source_ok, AudioState, AudioView,
    KnownChannel, KnownChannelView, PathStats, PathStatsView, RTT_WINDOW,
};
use crate::engine::state::{
    is_clock, is_deadline, state_ok, State, StateView, MAX_TTL, PRUNE_PADDING,
};
use crate::table::{distinct, lemma_distinct_filter, Route, Table};
use crate::wire::types::{ChannelId, NodeId};

verus! {

/// Announcement nominal period.
pub const ANNOUNCE_PERIOD: i64 = 250_000;

/// Source re-request period.
pub const REQUEST_PERIOD: i64 = 5_000_000;

/// The lesser of two times.
pub open spec fn sooner(a: i64, b: i64) -> i64 {
    if a <= b {
        a
    } else {
        b
    }
}

pub fn min_time(a: i64, b: i64) -> (r: i64)
    ensures
        r == sooner(a, b),
{
    if a <= b {
        a
    } else {
        b
    }
}

// ---------------------------------------------------------------- departure

/// The audio state after a peer left: its channels and paths are gone.
pub open spec fn peer_forgotten(a: AudioView, node: NodeId) -> AudioView {
    AudioView {
        known: a.known.filter(|e: (Route, KnownChannelView)| e.1.peer != node),
        paths: a.paths.filter(|e: (Route, PathStatsView)| e.0.id != node),
        ..a
    }
}

/// The state after a peer left.
pub open spec fn peer_gone(s: StateView, node: NodeId) -> StateView {
    match s.audio {
        Some(a) => StateView { audio: Some(peer_forgotten(a, node)), ..s },
        None => s,
    }
}

/// Channels of a departed publisher disappear.
pub fn peer_left(st: &mut State, node: NodeId)
    requires
        state_ok(old(st)@),
    ensures
        final(st)@ == peer_gone(old(st)@, node),
        state_ok(final(st)@),
{
    if let Some(mut audio) = st.audio.take() {
        let ghost a = audio@;
        let ghost keep = |e: (Route, KnownChannelView)| e.1.peer != node;
        let ghost keep_path = |e: (Route, PathStatsView)| e.0.id != node;
        let stays = |_k: &Route, kc: &KnownChannel| -> (b: bool)
            ensures
                b == (kc.peer != node),
        {
            kc.peer != node
        };
        let path_stays = |k: &Route, _s: &PathStats| -> (b: bool)
            ensures
                b == (k.id != node),
        {
            k.id != node
        };
        audio.known.retain(stays);
        audio.paths.retain(path_stays);
        proof {
            assert(audio@.known == a.known.filter(keep));
            assert(audio@.paths == a.paths.filter(keep_path));
            lemma_known_filter(a.known, keep);
            lemma_distinct_filter(a.paths, keep_path);
            let kept = a.paths.filter(keep_path);
            assert forall|i: int| 0 <= i < kept.len() implies (#[trigger] kept[i]).1.rtts.len()
                <= RTT_WINDOW by {
                assert(kept.contains(kept[i]));
                a.paths.lemma_filter_contains_rev(keep_path, kept[i]);
            }
        }
        st.audio = Some(audio);
    }
}

// ------------------------------------------------------------------ sources

/// A source after its request timer was looked at.
pub open spec fn refreshed(source: SourceView, now: i64) -> SourceView {
    if now >= source.last_request_at + REQUEST_PERIOD {
        SourceView { last_request_at: now, ..source }
    } else {
        source
    }
}

/// All sources after their request timers were looked at.
pub open spec fn all_refreshed(sources: Seq<(ChannelId, SourceView)>, now: i64) -> Seq<
    (ChannelId, SourceView),
> {
    Seq::new(sources.len(), |i: int| (sources[i].0, refreshed(sources[i].1, now)))
}

/// The channels whose request is due.
pub open spec fn due_requests(sources: Seq<(ChannelId, SourceView)>, now: i64) -> Seq<ChannelId>
    decreases sources.len(),
{
    if sources.len() == 0 {
        Seq::empty()
    } else {
        let front = due_requests(sources.drop_last(), now);
        if now >= sources.last().1.last_request_at + REQUEST_PERIOD {
            front.push(sources.last().0)
        } else {
            front
        }
    }
}

/// The soonest of `next` and the times at which sources request again.
pub open spec fn next_request(sources: Seq<(ChannelId, SourceView)>, next: i64) -> i64
    decreases sources.len(),
{
    if sources.len() == 0 {
        next
    } else {
        sooner(
            next_request(sources.drop_last(), next),
            (sources.last().1.last_request_at + REQUEST_PERIOD) as i64,
        )
    }
}

/// The state after several channels were requested anew.
pub open spec fn requests_sent(s: StateView, a: AudioView, due: Seq<ChannelId>) -> StateView
    decreases due.len(),
{
    if due.len() == 0 {
        s
    } else {
        request_sent(requests_sent(s, a, due.drop_last()), a, due.last(), false)
    }
}

pub proof fn lemma_requests_sent(s: StateView, a: AudioView, due: Seq<ChannelId>)
    ensures
        requests_sent(s, a, due) == (StateView { outbox: requests_sent(s, a, due).outbox, ..s }),
    decreases due.len(),
{
    if due.len() > 0 {
        lemma_requests_sent(s, a, due.drop_last());
    }
}

/// Look at the request timers: returns what is due and when to look again.
fn refresh_sources(audio: &mut AudioState, now: i64, next: i64) -> (r: (Vec<ChannelId>, i64))
    requires
        audio_ok(old(audio)@),
        is_clock(now),
    ensures
        final(audio)@ == (AudioView {
            sources: all_refreshed(old(audio)@.sources, now),
            ..old(audio)@
        }),
        audio_ok(final(audio)@),
        r.0@ == due_requests(old(audio)@.sources, now),
        r.1 == next_request(all_refreshed(old(audio)@.sources, now), next),
{
    let ghost a = audio@;
    let ghost all = a.sources;
    let ghost goal = all_refreshed(all, now);
    let mut due: Vec<ChannelId> = Vec::new();
    let mut soonest = next;
    let mut i: usize = 0;
    proof {
        assert(all.take(0) =~= Seq::empty());
        assert(goal.take(0) =~= Seq::empty());
    }
    while i < audio.sources.items.len()
        invariant
            i <= audio@.sources.len() == all.len(),
            is_clock(now),
            all == a.sources,
            goal == all_refreshed(all, now),
            audio_ok(a),
            audio@ == (AudioView { sources: audio@.sources, ..a }),
            audio@.sources == goal.take(i as int) + all.skip(i as int),
            due@ == due_requests(all.take(i as int), now),
            soonest == next_request(goal.take(i as int), next),
        decreases all.len() - i,
    {
        let ghost before = audio@.sources;
        let id = audio.sources.items[i].0;
        proof {
            assert(before[i as int] == all[i as int]);
            assert(source_ok(all[i as int].1));
            assert(all.take(i + 1).drop_last() =~= all.take(i as int));
            assert(all.take(i + 1).last() == all[i as int]);
            assert(goal.take(i + 1).drop_last() =~= goal.take(i as int));
            assert(goal.take(i + 1).last() == goal[i as int]);
        }
        if now >= audio.sources.items[i].1.last_request_at + REQUEST_PERIOD {
            audio.sources.items[i].1.last_request_at = now;
            due.push(id);
        }
        proof {
            assert(audio@.sources =~= before.update(i as int, goal[i as int]));
            assert(audio@.sources =~= goal.take(i + 1) + all.skip(i + 1));
        }
        soonest = min_time(soonest, audio.sources.items[i].1.last_request_at + REQUEST_PERIOD);
        i = i + 1;
    }
    proof {
        assert(all.take(i as int) =~= all);
        assert(goal.take(i as int) =~= goal);
        assert(audio@.sources =~= goal);
        assert(distinct(goal)) by {
            assert forall|x: int, y: int| 0 <= x < y < goal.len() implies (#[trigger] goal[x]).0
                != (#[trigger] goal[y]).0 by {
                assert(all[x].0 != all[y].0);
            }
        }
        assert forall|j: int| 0 <= j < goal.len() implies source_ok((#[trigger] goal[j]).1) by {
            assert(source_ok(all[j].1));
        }
    }
    (due, soonest)
}

fn send_requests(st: &mut State, audio: &AudioState, due: &Vec<ChannelId>)
    ensures
        final(st)@ == requests_sent(old(st)@, audio@, due@),
{
    let ghost s = st@;
    let mut i: usize = 0;
    proof {
        assert(due@.take(0) =~= Seq::empty());
    }
    while i < due.len()
        invariant
            i <= due@.len(),
            st@ == requests_sent(s, audio@, due@.take(i as int)),
        decreases due@.len() - i,
    {
        proof {
            assert(due@.take(i + 1).drop_last() =~= due@.take(i as int));
            assert(due@.take(i + 1).last() == due@[i as int]);
        }
        send_request(st, audio, due[i], false);
        i = i + 1;
    }
    proof {
        assert(due@.take(i as int) =~= due@);
    }
}

// --------------------------------------------------------------- requesters

/// The earliest expiry.
pub open spec fn earliest_expiry(requesters: Seq<(NodeId, i64)>) -> Option<i64>
    decreases requesters.len(),
{
    if requesters.len() == 0 {
        None
    } else {
        Some(
            match earliest_expiry(requesters.drop_last()) {
                Some(e) => sooner(e, requesters.last().1),
                None => requesters.last().1,
            },
        )
    }
}

fn find_earliest_expiry(requesters: &Table<NodeId, i64>) -> (r: Option<i64>)
    requires
        requesters_ok(requesters@),
    ensures
        r == earliest_expiry(requesters@),
        r matches Some(e) ==> is_deadline(e, MAX_TTL),
{
    let ghost all = requesters@;
    let mut r: Option<i64> = None;
    let mut i: usize = 0;
    proof {
        assert(all.take(0) =~= Seq::empty());
    }
    while i < requesters.items.len()
        invariant
            i <= requesters.items@.len(),
            all == requesters@,
            requesters_ok(all),
            r == earliest_expiry(all.take(i as int)),
            r matches Some(e) ==> is_deadline(e, MAX_TTL),
        decreases requesters.items@.len() - i,
    {
        let expiry = requesters.items[i].1;
        proof {
            assert(all.take(i + 1).drop_last() =~= all.take(i as int));
            assert(all.take(i + 1).last() == all[i as int]);
            assert(is_deadline(all[i as int].1, MAX_TTL));
        }
        r = match r {
            Some(e) => Some(min_time(e, expiry)),
            None => Some(expiry),
        };
        i = i + 1;
    }
    proof {
        assert(all.take(i as int) =~= all);
    }
    r
}

/// A sink after its requesters were pruned, a while after the earliest expiry.
pub open spec fn sink_pruned(sink: SinkView, now: i64) -> SinkView {
    match earliest_expiry(sink.requesters) {
        Some(e) => if now >= e + PRUNE_PADDING {
            SinkView { requesters: unexpired(sink.requesters, now), ..sink }
        } else {
            sink
        },
        None => sink,
    }
}

/// All sinks pruned.
pub open spec fn all_pruned(sinks: Seq<SinkView>, now: i64) -> Seq<SinkView> {
    Seq::new(sinks.len(), |i: int| sink_pruned(sinks[i], now))
}

/// The soonest of `next` and the times at which requesters are pruned.
pub open spec fn next_prune(sinks: Seq<SinkView>, next: i64) -> i64
    decreases sinks.len(),
{
    if sinks.len() == 0 {
        next
    } else {
        let front = next_prune(sinks.drop_last(), next);
        match earliest_expiry(sinks.last().requesters) {
            Some(e) => sooner(front, (e + PRUNE_PADDING) as i64),
            None => front,
        }
    }
}

fn prune_sink(sink: &mut Sink, now: i64)
    requires
        sink_ok(old(sink)@),
    ensures
        final(sink)@ == sink_pruned(old(sink)@, now),
        sink_ok(final(sink)@),
{
    if let Some(earliest) = find_earliest_expiry(&sink.requesters) {
        if now >= earliest + PRUNE_PADDING {
            drop_expired(sink, now);
        }
    }
}

/// Prune the requesters of all sinks: returns when to look again.
fn prune_sinks(audio: &mut AudioState, now: i64, next: i64) -> (r: i64)
    requires
        audio_ok(old(audio)@),
    ensures
        final(audio)@ == (AudioView { sinks: all_pruned(old(audio)@.sinks, now), ..old(audio)@ }),
        audio_ok(final(audio)@),
        r == next_prune(all_pruned(old(audio)@.sinks, now), next),
{
    let ghost a = audio@;
    let ghost all = a.sinks;
    let ghost goal = all_pruned(all, now);
    let mut soonest = next;
    let mut i: usize = 0;
    proof {
        assert(goal.take(0) =~= Seq::empty());
        assert(audio@.sinks =~= goal.take(0) + all.skip(0));
    }
    while i < audio.sinks.len()
        invariant
            i <= audio@.sinks.len() == all.len(),
            all == a.sinks,
            goal == all_pruned(all, now),
            audio_ok(a),
            audio@ == (AudioView { sinks: audio@.sinks, ..a }),
            audio@.sinks == goal.take(i as int) + all.skip(i as int),
            forall|j: int| 0 <= j < i ==> sink_ok(#[trigger] goal[j]),
            soonest == next_prune(goal.take(i as int), next),
        decreases all.len() - i,
    {
        let ghost before = audio@.sinks;
        proof {
            assert(before[i as int] == all[i as int]);
            assert(sink_ok(all[i as int]));
            assert(goal.take(i + 1).drop_last() =~= goal.take(i as int));
            assert(goal.take(i + 1).last() == goal[i as int]);
        }
        prune_sink(&mut audio.sinks[i], now);
        proof {
            assert(audio@.sinks =~= before.update(i as int, goal[i as int]));
            assert(audio@.sinks =~= goal.take(i + 1) + all.skip(i + 1));
            assert(sink_ok(goal[i as int]));
        }
        if let Some(e) = find_earliest_expiry(&audio.sinks[i].requesters) {
            soonest = min_time(soonest, e + PRUNE_PADDING);
        }
        i = i + 1;
    }
    proof {
        assert(goal.take(i as int) =~= goal);
        assert(audio@.sinks =~= goal);
    }
    soonest
}

// ----------------------------------------------------------- known channels

/// The earliest deadline of known channels.
pub open spec fn earliest_known(known: Seq<(Route, KnownChannelView)>) -> Option<i64>
    decreases known.len(),
{
    if known.len() == 0 {
        None
    } else {
        Some(
            match earliest_known(known.drop_last()) {
                Some(e) => sooner(e, known.last().1.deadline),
                None => known.last().1.deadline,
            },
        )
    }
}

fn find_earliest_known(known: &Table<Route, KnownChannel>) -> (r: Option<i64>)
    requires
        forall|i: int|
            0 <= i < known@.len() ==> is_deadline((#[trigger] known@[i]).1.deadline, MAX_TTL),
    ensures
        r == earliest_known(known@),
        r matches Some(e) ==> is_deadline(e, MAX_TTL),
{
    let ghost all = known@;
    let mut r: Option<i64> = None;
    let mut i: usize = 0;
    proof {
        assert(all.take(0) =~= Seq::empty());
    }
    while i < known.items.len()
        invariant
            i <= known.items@.len(),
            all == known@,
            forall|i: int|
                0 <= i < all.len() ==> is_deadline((#[trigger] all[i]).1.deadline, MAX_TTL),
            r == earliest_known(all.take(i as int)),
            r matches Some(e) ==> is_deadline(e, MAX_TTL),
        decreases known.items@.len() - i,
    {
        let deadline = known.items[i].1.deadline;
        proof {
            assert(all.take(i + 1).drop_last() =~= all.take(i as int));
            assert(all.take(i + 1).last() == all[i as int]);
            assert(is_deadline(all[i as int].1.deadline, MAX_TTL));
        }
        r = match r {
            Some(e) => Some(min_time(e, deadline)),
            None => Some(deadline),
        };
        i = i + 1;
    }
    proof {
        assert(all.take(i as int) =~= all);
    }
    r
}

/// The known channels after they were pruned, a while after the earliest
/// deadline.
pub open spec fn known_pruned(known: Seq<(Route, KnownChannelView)>, now: i64) -> Seq<
    (Route, KnownChannelView),
> {
    match earliest_known(known) {
        Some(e) => if now >= e + PRUNE_PADDING {
            known.filter(|k: (Route, KnownChannelView)| k.1.deadline > now)
        } else {
            known
        },
        None => known,
    }
}

/// Prune the known channels: returns when to look again.
fn prune_known(audio: &mut AudioState, now: i64, next: i64) -> (r: i64)
    requires
        audio_ok(old(audio)@),
    ensures
        final(audio)@ == (AudioView { known: known_pruned(old(audio)@.known, now), ..old(audio)@ }),
        audio_ok(final(audio)@),
        r == match earliest_known(known_pruned(old(audio)@.known, now)) {
            Some(e) => sooner(next, (e + PRUNE_PADDING) as i64),
            None => next,
        },
{
    let ghost a = audio@;
    if let Some(earliest) = find_earliest_known(&audio.known) {
        if now >= earliest + PRUNE_PADDING {
            let ghost keep = |k: (Route, KnownChannelView)| k.1.deadline > now;
            let live = |_k: &Route, kc: &KnownChannel| -> (b: bool)
                ensures
                    b == (kc.deadline > now),
            {
                kc.deadline > now
            };
            audio.known.retain(live);
            proof {
                assert(audio@.known == a.known.filter(keep));
                lemma_known_filter(a.known, keep);
                lemma_with_known(a, audio@.known);
            }
        }
    }
    match find_earliest_known(&audio.known) {
        Some(e) => min_time(next, e + PRUNE_PADDING),
        None => next,
    }
}

// -------------------------------------------------------------- housekeeping

/// The announcer that a state makes.
pub open spec fn announcer(s: StateView, a: AudioView) -> Announcer {
    Announcer { node: s.node, session: s.session, peer_name: a.peer_name }
}

/// The state after the announcement timer was looked at. A round goes to the
/// audio endpoint of every known session peer.
pub open spec fn announced(s: StateView, a: AudioView, now: i64) -> StateView {
    if now >= a.last_announce_at + ANNOUNCE_PERIOD {
        sent_to_all(
            s,
            endpoints_of(s.peers, s.session),
            round_of(announcer(s, a), published(a.sinks), now),
        )
    } else {
        s
    }
}

/// When the last announcement round was, after the timer was looked at.
pub open spec fn announce_time(a: AudioView, now: i64) -> i64 {
    if now >= a.last_announce_at + ANNOUNCE_PERIOD {
        now
    } else {
        a.last_announce_at
    }
}

/// The audio state after one pass.
pub open spec fn audio_kept(a: AudioView, now: i64) -> AudioView {
    AudioView {
        last_announce_at: announce_time(a, now),
        sources: all_refreshed(a.sources, now),
        sinks: all_pruned(a.sinks, now),
        known: known_pruned(a.known, now),
        ..a
    }
}

/// The state after one audio pass.
pub open spec fn audio_pass(s: StateView, now: i64) -> StateView {
    match s.audio {
        None => s,
        Some(a) => {
            let asked = AudioView {
                last_announce_at: announce_time(a, now),
                sources: all_refreshed(a.sources, now),
                ..a
            };
            StateView {
                audio: Some(audio_kept(a, now)),
                ..requests_sent(announced(s, a, now), asked, due_requests(a.sources, now))
            }
        },
    }
}

/// When the next audio pass is wanted.
pub open spec fn audio_deadline(s: StateView, now: i64) -> i64 {
    match s.audio {
        None => i64::MAX,
        Some(a) => {
            let k = audio_kept(a, now);
            let t1 = next_request(k.sources, (k.last_announce_at + ANNOUNCE_PERIOD) as i64);
            let t2 = next_prune(k.sinks, t1);
            match earliest_known(k.known) {
                Some(e) => sooner(t2, (e + PRUNE_PADDING) as i64),
                None => t2,
            }
        },
    }
}

/// One audio pass: announcement round, source keepalive, expiry of requests and
/// channels. Returns the next deadline.
pub fn housekeeping(st: &mut State, now: i64) -> (next: i64)
    requires
        is_clock(now),
        state_ok(old(st)@),
    ensures
        final(st)@ == audio_pass(old(st)@, now),
        next == audio_deadline(old(st)@, now),
        state_ok(final(st)@),
{
    let ghost s = st@;
    let mut audio = match st.audio.take() {
        Some(audio) => audio,
        None => {
            return i64::MAX;
        },
    };
    let ghost a = audio@;
    let ghost bare = st@;
    let mut next: i64 = audio.last_announce_at + ANNOUNCE_PERIOD;
    if now >= next {
        let round = build_announcement_round(st.node, st.session, &audio, now);
        let endpoints = session_endpoints(&st.peers, st.session);
        send_round(st, &endpoints, &round);
        audio.last_announce_at = now;
        next = now + ANNOUNCE_PERIOD;
    }
    proof {
        assert(audio_ok(audio@));
        let messages = round_of(announcer(s, a), published(a.sinks), now);
        lemma_sent_to_all(bare, endpoints_of(s.peers, s.session), messages);
        lemma_all_whatever_audio(bare, s, endpoints_of(s.peers, s.session), messages);
    }
    let ghost told = st@;
    let (due, next) = refresh_sources(&mut audio, now, next);
    let ghost asked = audio@;
    send_requests(st, &audio, &due);
    proof {
        lemma_requests_sent(told, asked, due@);
        lemma_requests_whatever_audio(told, announced(s, a, now), asked, due@);
    }
    let next = prune_sinks(&mut audio, now, next);
    let next = prune_known(&mut audio, now, next);
    st.audio = Some(audio);
    proof {
        assert(state_ok(st@));
    }
    next
}

proof fn lemma_requests_whatever_audio(
    s: StateView,
    t: StateView,
    a: AudioView,
    due: Seq<ChannelId>,
)
    requires
        s == (StateView { audio: s.audio, ..t }),
    ensures
        requests_sent(s, a, due) == (StateView { audio: s.audio, ..requests_sent(t, a, due) }),
    decreases due.len(),
{
    if due.len() > 0 {
        lemma_requests_whatever_audio(s, t, a, due.drop_last());
    }
}

/// An audio pass touches the audio state and the outbox alone.
pub proof fn lemma_audio_pass(s: StateView, now: i64)
    ensures
        audio_pass(s, now) == (StateView {
            audio: audio_pass(s, now).audio,
            outbox: audio_pass(s, now).outbox,
            ..s
        }),
{
    if let Some(a) = s.audio {
        let asked = AudioView {
            last_announce_at: announce_time(a, now),
            sources: all_refreshed(a.sources, now),
            ..a
        };
        lemma_sent_to_all(
            s,
            endpoints_of(s.peers, s.session),
            round_of(announcer(s, a), published(a.sinks), now),
        );
        lemma_requests_sent(announced(s, a, now), asked, due_requests(a.sources, now));
    }
}

} // verus!
