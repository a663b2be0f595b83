//! Requests, withdrawals and audio that a peer sends.

use vstd::prelude::*;

use crate::audio::announce::byte_views;
use crate::audio::paths::{
    best_of, best_path, endpoints_of, lemma_sent_to, lemma_sent_to_all, lemma_to_whatever_audio,
    send_messages, send_round, send_via, sent_to, sent_to_all, session_endpoints,
};
use crate::audio::sink::{
    drain_datagrams, drained, frame_samples, has_datagram, have_tempo, micro_beats, packed_buffer,
    packs_datagram, segment_views, Segment,
    SegmentView, Sink, SinkView,
};
use crate::audio::state::{
    audio_ok, requesters_ok, sink_ok, sink_views, AudioState, AudioView, KnownChannelView,
    PathStatsView,
};
use crate::engine::Engine;
use crate::engine::send::posted;
use crate::engine::state::{is_clock, is_deadline, state_ok, Outlet, State, StateView, MAX_TTL};
use crate::math::{offset_wrapped, round_div, session_offset, wrap64, wrapping_difference};
use crate::table::{lemma_distinct_filter, Route, Table};
use crate::wire::audio::{
    encode, frame_bytes, nominal_frame, AudioBuffer, Chunk, Frame, Message, MessageView,
};
use crate::wire::types::{ChannelId, NodeId, SessionId};

verus! {

// ---------------------------------------------------------------- requests

/// The peer that publishes a channel, as first announced.
pub open spec fn publisher_of(known: Seq<(Route, KnownChannelView)>, channel: ChannelId) -> Option<
    NodeId,
>
    decreases known.len(),
{
    if known.len() == 0 {
        None
    } else if known[0].0.id == channel {
        Some(known[0].1.peer)
    } else {
        publisher_of(known.skip(1), channel)
    }
}

fn find_publisher(audio: &AudioState, channel: ChannelId) -> (r: Option<NodeId>)
    ensures
        r == publisher_of(audio@.known, channel),
{
    let mut i: usize = 0;
    proof {
        assert(audio@.known.skip(0) =~= audio@.known);
    }
    while i < audio.known.items.len()
        invariant
            i <= audio.known.items@.len(),
            publisher_of(audio@.known, channel) == publisher_of(
                audio@.known.skip(i as int),
                channel,
            ),
        decreases audio.known.items@.len() - i,
    {
        proof {
            assert(audio@.known.skip(i as int)[0] == audio@.known[i as int]);
            assert(audio@.known.skip(i as int).skip(1) =~= audio@.known.skip(i + 1));
        }
        if audio.known.items[i].0.id == channel {
            return Some(audio.known.items[i].1.peer);
        }
        i = i + 1;
    }
    None
}

/// The datagram of a request, or of its withdrawal.
pub open spec fn request_bytes(node: NodeId, channel: ChannelId, stop: bool) -> Seq<u8> {
    frame_bytes(
        nominal_frame(
            node,
            if stop {
                MessageView::StopChannelRequest { channel }
            } else {
                MessageView::ChannelRequest { channel }
            },
        ),
    )
}

/// The state after a channel was requested of its publisher, or the request
/// withdrawn, over the best path. Without a known publisher, or a path to it,
/// nothing is sent.
pub open spec fn request_sent(
    s: StateView,
    a: AudioView,
    channel: ChannelId,
    stop: bool,
) -> StateView {
    match publisher_of(a.known, channel) {
        Some(publisher) => match best_of(s.peers, a.paths, publisher) {
            Some((gw, ep)) => posted(
                s,
                gw,
                Outlet::Audio(ep),
                request_bytes(s.node, channel, stop),
            ),
            None => s,
        },
        None => s,
    }
}

/// Send a request, or its withdrawal, to a channel's publisher over the best
/// path.
pub fn send_request(st: &mut State, audio: &AudioState, channel: ChannelId, stop: bool)
    ensures
        final(st)@ == request_sent(old(st)@, audio@, channel, stop),
{
    if let Some(publisher) = find_publisher(audio, channel) {
        if let Some((gw, ep)) = best_path(&st.peers, &audio.paths, publisher) {
            let message = if stop {
                Message::StopChannelRequest { channel }
            } else {
                Message::ChannelRequest { channel }
            };
            let bytes = encode(&Frame::new(st.node, message));
            send_via(st, gw, bytes, ep);
        }
    }
}

// -------------------------------------------------------------------- byes

/// Channels that one message withdraws at most: what fits the payload budget
/// beside entry header and count.
pub const BYES_PER_MESSAGE: usize = 145;

/// The datagram that withdraws the given channels.
pub open spec fn byes_bytes(node: NodeId, channels: Seq<ChannelId>) -> Seq<u8> {
    frame_bytes(nominal_frame(node, MessageView::ChannelByes { channels }))
}

/// The state after channels were withdrawn from every session peer, split
/// across messages within the payload budget.
pub open spec fn byes_sent(s: StateView, channels: Seq<ChannelId>) -> StateView
    decreases channels.len(),
{
    if channels.len() == 0 {
        s
    } else {
        let n = if channels.len() <= BYES_PER_MESSAGE {
            channels.len() as int
        } else {
            BYES_PER_MESSAGE as int
        };
        byes_sent(
            sent_to_all(
                s,
                endpoints_of(s.peers, s.session),
                seq![byes_bytes(s.node, channels.take(n))],
            ),
            channels.skip(n),
        )
    }
}

pub proof fn lemma_byes_sent(s: StateView, channels: Seq<ChannelId>)
    ensures
        byes_sent(s, channels) == (StateView { outbox: byes_sent(s, channels).outbox, ..s }),
    decreases channels.len(),
{
    if channels.len() > 0 {
        let n = if channels.len() <= BYES_PER_MESSAGE {
            channels.len() as int
        } else {
            BYES_PER_MESSAGE as int
        };
        let endpoints = endpoints_of(s.peers, s.session);
        let messages = seq![byes_bytes(s.node, channels.take(n))];
        lemma_sent_to_all(s, endpoints, messages);
        lemma_byes_sent(sent_to_all(s, endpoints, messages), channels.skip(n));
    }
}

/// Withdraw the given channels from every session-peer audio endpoint, split
/// within the payload budget.
pub fn send_byes(st: &mut State, channels: &[ChannelId])
    ensures
        final(st)@ == byes_sent(old(st)@, channels@),
{
    let ghost s = st@;
    let mut start: usize = 0;
    proof {
        assert(channels@.skip(0) =~= channels@);
    }
    while start < channels.len()
        invariant
            start <= channels@.len(),
            byes_sent(s, channels@) == byes_sent(st@, channels@.skip(start as int)),
        decreases channels@.len() - start,
    {
        let left = channels.len() - start;
        let n: usize = if left <= BYES_PER_MESSAGE {
            left
        } else {
            BYES_PER_MESSAGE
        };
        let ids = vstd::slice::slice_to_vec(
            vstd::slice::slice_subrange(channels, start, start + n),
        );
        proof {
            let rest = channels@.skip(start as int);
            assert(ids@ =~= rest.take(n as int));
            assert(rest.skip(n as int) =~= channels@.skip(start + n));
        }
        let bytes = encode(&Frame::new(st.node, Message::ChannelByes { channels: ids }));
        let mut messages: Vec<Vec<u8>> = Vec::new();
        messages.push(bytes);
        proof {
            assert(byte_views(messages@) =~= seq![bytes@]);
        }
        let endpoints = session_endpoints(&st.peers, st.session);
        send_round(st, &endpoints, &messages);
        start = start + n;
    }
    proof {
        assert(channels@.skip(start as int) =~= Seq::empty());
    }
}

// ------------------------------------------------------------------- audio

/// The first sink of a channel; the number of sinks if there is none.
pub open spec fn sink_place(sinks: Seq<SinkView>, channel: ChannelId) -> int
    decreases sinks.len(),
{
    if sinks.len() == 0 || sinks[0].id == channel {
        0
    } else {
        1 + sink_place(sinks.skip(1), channel)
    }
}

pub proof fn lemma_sink_place(sinks: Seq<SinkView>, channel: ChannelId)
    ensures
        0 <= sink_place(sinks, channel) <= sinks.len(),
        sink_place(sinks, channel) < sinks.len() ==> sinks[sink_place(sinks, channel)].id
            == channel,
    decreases sinks.len(),
{
    if sinks.len() != 0 && sinks[0].id != channel {
        lemma_sink_place(sinks.skip(1), channel);
    }
}

pub fn find_sink(sinks: &Vec<Sink>, channel: ChannelId) -> (n: usize)
    ensures
        n == sink_place(sink_views(sinks@), channel),
        n <= sinks@.len(),
{
    let ghost all = sink_views(sinks@);
    let mut i: usize = 0;
    proof {
        assert(all.skip(0) =~= all);
    }
    while i < sinks.len()
        invariant
            i <= sinks@.len(),
            all == sink_views(sinks@),
            sink_place(all, channel) == i + sink_place(all.skip(i as int), channel),
        decreases sinks@.len() - i,
    {
        proof {
            assert(all.skip(i as int)[0] == sinks@[i as int]@);
            assert(all.skip(i as int).skip(1) =~= all.skip(i + 1));
        }
        if sinks[i].id == channel {
            return i;
        }
        i = i + 1;
    }
    i
}

/// Whether the last pending run has the tempo of new material, so that the two
/// may be one.
pub open spec fn follows_on(segments: Seq<SegmentView>, tempo: i64) -> bool {
    segments.len() > 0 && segments.last().tempo == tempo
}

/// Whether the new material starts where the last pending run ends, at the
/// same tempo; a micro-beat either way is rounding.
pub open spec fn is_contiguous(
    segments: Seq<SegmentView>,
    begin: i64,
    tempo: i64,
    rate: u32,
    num_channels: u8,
) -> bool {
    segments.len() > 0 && {
        let last = segments.last();
        let frames = last.samples.len() / frame_samples(num_channels);
        let end = last.begin + wrap64(micro_beats(frames as int, rate, tempo));
        last.tempo == tempo && -1 <= end - begin <= 1
    }
}

/// The pending runs that a write leaves: a change of format drops them.
pub open spec fn kept_segments(sink: SinkView, rate: u32, num_channels: u8) -> Seq<SegmentView> {
    if sink.format == Some((rate, num_channels)) {
        sink.segments
    } else {
        Seq::empty()
    }
}

/// The sink with new material appended. A change of format drops what is
/// pending.
pub open spec fn appended(
    sink: SinkView,
    samples: Seq<i16>,
    begin: i64,
    tempo: i64,
    rate: u32,
    num_channels: u8,
) -> SinkView {
    let kept = kept_segments(sink, rate, num_channels);
    SinkView {
        format: Some((rate, num_channels)),
        segments: if is_contiguous(kept, begin, tempo, rate, num_channels) {
            kept.update(
                kept.len() - 1,
                SegmentView { samples: kept.last().samples + samples, ..kept.last() },
            )
        } else {
            kept.push(SegmentView { begin, tempo, samples })
        },
        ..sink
    }
}

/// The datagrams of drained audio.
pub open spec fn audio_messages(
    packed: Seq<(Seq<Chunk>, Seq<i16>)>,
    node: NodeId,
    channel: ChannelId,
    session: SessionId,
    rate: u32,
    num_channels: u8,
) -> Seq<Seq<u8>> {
    Seq::new(
        packed.len(),
        |i: int|
            frame_bytes(
                nominal_frame(
                    node,
                    MessageView::AudioBuffer(
                        packed_buffer(packed[i], channel, session, rate, num_channels),
                    ),
                ),
            ),
    )
}

/// The state after each requester was sent a copy over its best path.
pub open spec fn sent_to_requesters(
    s: StateView,
    paths: Seq<(Route, PathStatsView)>,
    requesters: Seq<(NodeId, i64)>,
    messages: Seq<Seq<u8>>,
) -> StateView
    decreases requesters.len(),
{
    if requesters.len() == 0 {
        s
    } else {
        let front = sent_to_requesters(s, paths, requesters.drop_last(), messages);
        match best_of(s.peers, paths, requesters.last().0) {
            Some(to) => sent_to(front, to, messages),
            None => front,
        }
    }
}

pub proof fn lemma_sent_to_requesters(
    s: StateView,
    paths: Seq<(Route, PathStatsView)>,
    requesters: Seq<(NodeId, i64)>,
    messages: Seq<Seq<u8>>,
)
    ensures
        sent_to_requesters(s, paths, requesters, messages) == (StateView {
            outbox: sent_to_requesters(s, paths, requesters, messages).outbox,
            ..s
        }),
    decreases requesters.len(),
{
    if requesters.len() > 0 {
        lemma_sent_to_requesters(s, paths, requesters.drop_last(), messages);
        let front = sent_to_requesters(s, paths, requesters.drop_last(), messages);
        if let Some(to) = best_of(s.peers, paths, requesters.last().0) {
            lemma_sent_to(front, to, messages);
        }
    }
}

/// The requests that have not expired.
pub open spec fn unexpired(requesters: Seq<(NodeId, i64)>, now: i64) -> Seq<(NodeId, i64)> {
    requesters.filter(|e: (NodeId, i64)| e.1 > now)
}

/// Whether a request has not expired.
pub fn any_unexpired(requesters: &Table<NodeId, i64>, now: i64) -> (r: bool)
    ensures
        r == (unexpired(requesters@, now).len() > 0),
{
    let ghost all = requesters@;
    let ghost keep = |e: (NodeId, i64)| e.1 > now;
    let mut i: usize = 0;
    proof {
        all.filter_lemma(keep);
    }
    while i < requesters.items.len()
        invariant
            i <= requesters.items@.len(),
            all == requesters@,
            keep == (|e: (NodeId, i64)| e.1 > now),
            forall|j: int| 0 <= j < all.len() && keep(all[j]) ==> #[trigger] all.filter(keep).contains(
                all[j],
            ),
            forall|j: int| 0 <= j < i ==> !keep(#[trigger] all[j]),
        decreases requesters.items@.len() - i,
    {
        if requesters.items[i].1 > now {
            proof {
                assert(keep(all[i as int]));
                assert(all.filter(keep).contains(all[i as int]));
            }
            return true;
        }
        i = i + 1;
    }
    proof {
        let kept = all.filter(keep);
        if kept.len() > 0 {
            assert(kept.contains(kept[0]));
            all.lemma_filter_contains_rev(keep, kept[0]);
            all.lemma_filter_pred(keep, 0);
        }
    }
    false
}

/// Whether a peer holds an unexpired request for the channel.
pub open spec fn is_requested(s: StateView, channel: ChannelId, now: i64) -> bool {
    s.audio is Some && {
        let a = s.audio->0;
        let n = sink_place(a.sinks, channel);
        n < a.sinks.len() && unexpired(a.sinks[n].requesters, now).len() > 0
    }
}

/// Whether no length in beats is asked of material without a sample rate: it is
/// asked where pending material of the same tempo may go on, and where a
/// datagram is packed for a requester.
pub open spec fn has_length(
    s: StateView,
    channel: ChannelId,
    samples: Seq<i16>,
    rate: u32,
    num_channels: u8,
    begin_app_beat: i64,
    quantum: i64,
    fill: bool,
    now: i64,
) -> bool {
    rate > 0 || match s.audio {
        None => true,
        Some(a) => {
            let n = sink_place(a.sinks, channel);
            n < a.sinks.len() ==> {
                let begin = wrap64(begin_app_beat - offset_wrapped(s.timeline, quantum));
                let full = appended(
                    a.sinks[n],
                    samples,
                    begin,
                    s.timeline.tempo,
                    rate,
                    num_channels,
                );
                &&& !follows_on(
                    kept_segments(a.sinks[n], rate, num_channels),
                    s.timeline.tempo,
                )
                &&& is_requested(s, channel, now) ==> !has_datagram(
                    full.segments,
                    num_channels,
                    fill,
                )
            }
        },
    }
}

fn copy_segments(segments: &Vec<Segment>) -> (v: Vec<Segment>)
    ensures
        segment_views(v@) == segment_views(segments@),
{
    let mut v: Vec<Segment> = Vec::new();
    let mut i: usize = 0;
    while i < segments.len()
        invariant
            i <= segments@.len(),
            v@.len() == i,
            forall|j: int| 0 <= j < i ==> (#[trigger] v@[j])@ == segments@[j]@,
        decreases segments@.len() - i,
    {
        let seg = &segments[i];
        let samples = vstd::slice::slice_to_vec(seg.samples.as_slice());
        v.push(Segment { begin: seg.begin, tempo: seg.tempo, samples });
        i = i + 1;
    }
    proof {
        assert(segment_views(v@) =~= segment_views(segments@));
    }
    v
}

/// Whether no length in beats is asked of the material, or it has one: then it
/// can be written by [`write_sink`].
pub fn material_has_length(
    eng: &Engine,
    st: &State,
    channel: ChannelId,
    samples: &[i16],
    sample_rate: u32,
    num_channels: u8,
    begin_app_beat: i64,
    quantum: i64,
    now: i64,
) -> (r: bool)
    requires
        state_ok(st@),
    ensures
        r == has_length(
            st@,
            channel,
            samples@,
            sample_rate,
            num_channels,
            begin_app_beat,
            quantum,
            eng.config.fill_audio_datagrams,
            now,
        ),
{
    if sample_rate > 0 {
        return true;
    }
    let audio = match &st.audio {
        Some(audio) => audio,
        None => {
            return true;
        },
    };
    let n = find_sink(&audio.sinks, channel);
    if n >= audio.sinks.len() {
        return true;
    }
    let sink = &audio.sinks[n];
    let tempo = st.timeline.tempo;
    let same = match sink.format {
        Some((r, c)) => r == sample_rate && c == num_channels,
        None => false,
    };
    let mut segments: Vec<Segment> = if same {
        copy_segments(&sink.segments)
    } else {
        Vec::new()
    };
    let ghost kept = kept_segments(sink@, sample_rate, num_channels);
    proof {
        assert(audio@.sinks[n as int] == sink@);
        assert(segment_views(segments@) =~= kept);
    }
    let last = segments.len();
    if last > 0 {
        proof {
            assert(kept.last() == kept[last - 1]);
        }
        if segments[last - 1].tempo == tempo {
            return false;
        }
    }
    if !any_unexpired(&sink.requesters, now) {
        return true;
    }
    let delta = session_offset(&st.timeline, quantum);
    let begin = wrapping_difference(begin_app_beat, delta);
    segments.push(Segment { begin, tempo, samples: vstd::slice::slice_to_vec(samples) });
    proof {
        assert(segment_views(segments@) =~= kept.push(
            SegmentView { begin, tempo, samples: samples@ },
        ));
    }
    !packs_datagram(&segments, num_channels, eng.config.fill_audio_datagrams)
}

/// The state after beat-stamped material was written to a channel. Wire beats
/// are the application beat minus the session offset for the quantum. A sink
/// without an unexpired requester is silent: what it holds is discarded.
pub open spec fn sink_written(
    s: StateView,
    channel: ChannelId,
    samples: Seq<i16>,
    rate: u32,
    num_channels: u8,
    begin_app_beat: i64,
    quantum: i64,
    fill: bool,
    now: i64,
) -> StateView {
    match s.audio {
        None => s,
        Some(a) => {
            let n = sink_place(a.sinks, channel);
            if n >= a.sinks.len() {
                s
            } else {
                let begin = wrap64(begin_app_beat - offset_wrapped(s.timeline, quantum));
                let full = appended(
                    a.sinks[n],
                    samples,
                    begin,
                    s.timeline.tempo,
                    rate,
                    num_channels,
                );
                let requesters = unexpired(full.requesters, now);
                if requesters.len() == 0 {
                    let silent = SinkView { requesters, segments: Seq::empty(), ..full };
                    StateView {
                        audio: Some(AudioView { sinks: a.sinks.update(n, silent), ..a }),
                        ..s
                    }
                } else {
                    let d = drained(full.segments, full.next_seq, num_channels, rate, fill);
                    let kept = SinkView {
                        requesters,
                        segments: d.segments,
                        next_seq: d.next_seq,
                        ..full
                    };
                    sent_to_requesters(
                        StateView {
                            audio: Some(AudioView { sinks: a.sinks.update(n, kept), ..a }),
                            ..s
                        },
                        a.paths,
                        requesters,
                        audio_messages(d.out, s.node, channel, s.session, rate, num_channels),
                    )
                }
            }
        },
    }
}

fn append_material(
    sink: &mut Sink,
    samples: &[i16],
    begin: i64,
    tempo: i64,
    rate: u32,
    num_channels: u8,
)
    requires
        sink_ok(old(sink)@),
        tempo > 0,
        rate > 0 || !follows_on(kept_segments(old(sink)@, rate, num_channels), tempo),
    ensures
        final(sink)@ == appended(old(sink)@, samples@, begin, tempo, rate, num_channels),
        have_tempo(final(sink)@.segments),
{
    let ghost before = sink@;
    let same = match sink.format {
        Some((r, c)) => r == rate && c == num_channels,
        None => false,
    };
    if !same {
        sink.segments.clear();
        sink.format = Some((rate, num_channels));
        proof {
            assert(sink@.segments =~= Seq::empty());
        }
    }
    let ghost kept = sink@.segments;
    let ch: usize = if num_channels == 0 {
        1
    } else {
        num_channels as usize
    };
    let n = sink.segments.len();
    let mut contiguous: bool = false;
    if n > 0 {
        proof {
            assert(kept.last() == kept[n - 1]);
            assert(kept[n - 1].tempo > 0);
        }
        if sink.segments[n - 1].tempo == tempo {
            let frames: usize = sink.segments[n - 1].samples.len() / ch;
            let length = length_in_beats(frames, rate, tempo);
            let end: i128 = sink.segments[n - 1].begin as i128 + length as i128;
            let gap: i128 = end - begin as i128;
            contiguous = -1 <= gap && gap <= 1;
        }
    }
    if contiguous {
        let mut more = vstd::slice::slice_to_vec(samples);
        sink.segments[n - 1].samples.append(&mut more);
        proof {
            assert(sink@.segments =~~= kept.update(
                n - 1,
                SegmentView { samples: kept.last().samples + samples@, ..kept.last() },
            ));
        }
    } else {
        sink.segments.push(Segment { begin, tempo, samples: vstd::slice::slice_to_vec(samples) });
        proof {
            assert(sink@.segments =~~= kept.push(SegmentView { begin, tempo, samples: samples@ }));
        }
    }
}

/// The length of frames in µbeats; the low 64 bits are kept.
fn length_in_beats(frames: usize, rate: u32, tempo: i64) -> (r: i64)
    requires
        rate > 0,
        tempo > 0,
    ensures
        r == wrap64(micro_beats(frames as int, rate, tempo)),
{
    proof {
        assert(0 < rate * tempo <= 0xffff_ffff * 0x7fff_ffff_ffff_ffff) by (nonlinear_arith)
            requires
                0 < rate <= 0xffff_ffff,
                0 < tempo <= 0x7fff_ffff_ffff_ffff,
        ;
    }
    round_div(frames as i128 * 1_000_000_000_000, rate as i128 * tempo as i128)
}

/// Drop the requests that have expired.
pub fn drop_expired(sink: &mut Sink, now: i64)
    requires
        requesters_ok(old(sink)@.requesters),
    ensures
        final(sink)@ == (SinkView {
            requesters: unexpired(old(sink)@.requesters, now),
            ..old(sink)@
        }),
        requesters_ok(final(sink)@.requesters),
{
    let live = |_k: &NodeId, expiry: &i64| -> (b: bool)
        ensures
            b == (*expiry > now),
    {
        *expiry > now
    };
    let ghost keep = |e: (NodeId, i64)| e.1 > now;
    let ghost all = sink@.requesters;
    sink.requesters.retain(live);
    proof {
        assert(sink@.requesters == all.filter(keep));
        lemma_distinct_filter(all, keep);
        let kept = all.filter(keep);
        assert forall|i: int| 0 <= i < kept.len() implies is_deadline(
            (#[trigger] kept[i]).1,
            MAX_TTL,
        ) by {
            assert(kept.contains(kept[i]));
            all.lemma_filter_contains_rev(keep, kept[i]);
        }
    }
}

/// The encoded datagrams of audio buffers.
fn encode_buffers(node: NodeId, buffers: Vec<AudioBuffer>) -> (v: Vec<Vec<u8>>)
    ensures
        v@.len() == buffers@.len(),
        forall|i: int|
            0 <= i < v@.len() ==> (#[trigger] v@[i])@ == frame_bytes(
                nominal_frame(node, MessageView::AudioBuffer(buffers@[i]@)),
            ),
{
    let ghost all = buffers@;
    let mut rest = buffers;
    let mut v: Vec<Vec<u8>> = Vec::new();
    while rest.len() > 0
        invariant
            v@.len() + rest@.len() == all.len(),
            rest@ == all.skip(v@.len() as int),
            forall|i: int|
                0 <= i < v@.len() ==> (#[trigger] v@[i])@ == frame_bytes(
                    nominal_frame(node, MessageView::AudioBuffer(all[i]@)),
                ),
        decreases rest@.len(),
    {
        let ghost now = rest@;
        let buffer = rest.remove(0);
        proof {
            assert(rest@ =~= now.skip(1));
            assert(buffer == all[v@.len() as int]);
        }
        v.push(encode(&Frame::new(node, Message::AudioBuffer(buffer))));
        proof {
            assert(rest@ =~= all.skip(v@.len() as int));
        }
    }
    v
}

fn send_to_requesters(
    st: &mut State,
    audio: &AudioState,
    requesters: &Table<NodeId, i64>,
    messages: &Vec<Vec<u8>>,
)
    ensures
        final(st)@ == sent_to_requesters(
            old(st)@,
            audio@.paths,
            requesters@,
            byte_views(messages@),
        ),
{
    let ghost s = st@;
    let ghost all = requesters@;
    let ghost bytes = byte_views(messages@);
    let mut i: usize = 0;
    proof {
        assert(all.take(0) =~= Seq::empty());
    }
    while i < requesters.items.len()
        invariant
            i <= requesters.items@.len(),
            all == requesters@,
            bytes == byte_views(messages@),
            st@ == sent_to_requesters(s, audio@.paths, all.take(i as int), bytes),
        decreases requesters.items@.len() - i,
    {
        proof {
            assert(all.take(i + 1).drop_last() =~= all.take(i as int));
            assert(all.take(i + 1).last() == all[i as int]);
            lemma_sent_to_requesters(s, audio@.paths, all.take(i as int), bytes);
        }
        let peer = requesters.items[i].0;
        if let Some(to) = best_path(&st.peers, &audio.paths, peer) {
            send_messages(st, to, messages);
        }
        i = i + 1;
    }
    proof {
        assert(all.take(i as int) =~= all);
    }
}

/// Append beat-stamped material to a sink and transmit every full datagram to
/// every unexpired requester. `begin_app_beat` and `quantum` are in µbeats.
///
/// Material of sample rate 0 has no length in beats, so it can only be written
/// where none is asked for.
pub fn write_sink(
    eng: &Engine,
    st: &mut State,
    channel: ChannelId,
    samples: &[i16],
    sample_rate: u32,
    num_channels: u8,
    begin_app_beat: i64,
    quantum: i64,
    now: i64,
)
    requires
        is_clock(now),
        state_ok(old(st)@),
        has_length(
            old(st)@,
            channel,
            samples@,
            sample_rate,
            num_channels,
            begin_app_beat,
            quantum,
            eng.config.fill_audio_datagrams,
            now,
        ),
    ensures
        final(st)@ == sink_written(
            old(st)@,
            channel,
            samples@,
            sample_rate,
            num_channels,
            begin_app_beat,
            quantum,
            eng.config.fill_audio_datagrams,
            now,
        ),
        state_ok(final(st)@),
{
    let ghost s = st@;
    let mut audio = match st.audio.take() {
        Some(audio) => audio,
        None => {
            return;
        },
    };
    let ghost a = audio@;
    let n = find_sink(&audio.sinks, channel);
    if n >= audio.sinks.len() {
        st.audio = Some(audio);
        return;
    }
    let tempo = st.timeline.tempo;
    let delta = session_offset(&st.timeline, quantum);
    let begin_wire = wrapping_difference(begin_app_beat, delta);
    let mut sink = audio.sinks.remove(n);
    let ghost others = audio@.sinks;
    proof {
        assert(a.sinks[n as int] == sink@);
        assert(others =~= a.sinks.remove(n as int));
    }
    append_material(&mut sink, samples, begin_wire, tempo, sample_rate, num_channels);
    proof {
        assert(is_requested(s, channel, now) == (unexpired(sink@.requesters, now).len() > 0));
    }
    let ghost full = sink@;
    drop_expired(&mut sink, now);
    if sink.requesters.len() == 0 {
        sink.segments.clear();
        proof {
            assert(sink@.segments =~= Seq::empty());
        }
        let ghost silent = sink@;
        audio.sinks.insert(n, sink);
        proof {
            assert(audio@.sinks =~= a.sinks.update(n as int, silent));
            lemma_sinks_ok(a, audio@, n as int);
        }
        st.audio = Some(audio);
        return;
    }
    let buffers = drain_datagrams(
        &mut sink,
        channel,
        st.session,
        sample_rate,
        num_channels,
        eng.config.fill_audio_datagrams,
    );
    let messages = encode_buffers(st.node, buffers);
    let ghost d = drained(
        full.segments,
        full.next_seq,
        num_channels,
        sample_rate,
        eng.config.fill_audio_datagrams,
    );
    proof {
        assert(byte_views(messages@) =~= audio_messages(
            d.out,
            s.node,
            channel,
            s.session,
            sample_rate,
            num_channels,
        ));
    }
    let ghost bare = st@;
    send_to_requesters(st, &audio, &sink.requesters, &messages);
    let ghost kept = sink@;
    audio.sinks.insert(n, sink);
    proof {
        assert(audio@.sinks =~= a.sinks.update(n as int, kept));
        lemma_sinks_ok(a, audio@, n as int);
        let done = StateView { audio: Some(audio@), ..s };
        lemma_sent_to_requesters(bare, a.paths, kept.requesters, byte_views(messages@));
        lemma_sent_to_requesters(done, a.paths, kept.requesters, byte_views(messages@));
        lemma_requesters_whatever_audio(
            bare,
            done,
            a.paths,
            kept.requesters,
            byte_views(messages@),
        );
    }
    st.audio = Some(audio);
}

/// Changing one sink keeps the audio state in order if the new sink is.
proof fn lemma_sinks_ok(a: AudioView, b: AudioView, n: int)
    requires
        audio_ok(a),
        0 <= n < a.sinks.len(),
        b == (AudioView { sinks: a.sinks.update(n, b.sinks[n]), ..a }),
        sink_ok(b.sinks[n]),
    ensures
        audio_ok(b),
{
    assert forall|i: int| 0 <= i < b.sinks.len() implies sink_ok(#[trigger] b.sinks[i]) by {
        if i != n {
            assert(b.sinks[i] == a.sinks[i]);
        }
    }
}

/// What requesters are sent does not hang on the audio state.
proof fn lemma_requesters_whatever_audio(
    s: StateView,
    t: StateView,
    paths: Seq<(Route, PathStatsView)>,
    requesters: Seq<(NodeId, i64)>,
    messages: Seq<Seq<u8>>,
)
    requires
        s == (StateView { audio: s.audio, ..t }),
    ensures
        sent_to_requesters(s, paths, requesters, messages) == (StateView {
            audio: s.audio,
            ..sent_to_requesters(t, paths, requesters, messages)
        }),
    decreases requesters.len(),
{
    if requesters.len() > 0 {
        let front = requesters.drop_last();
        lemma_requesters_whatever_audio(s, t, paths, front, messages);
        if let Some(to) = best_of(s.peers, paths, requesters.last().0) {
            lemma_to_whatever_audio(
                sent_to_requesters(s, paths, front, messages),
                sent_to_requesters(t, paths, front, messages),
                to,
                messages,
            );
        }
    }
}

} // verus!
