//! Laws of the audio runtime.

use vstd::prelude::*;

use crate::audio::inbound::{
    audio_received, channels_noted, deadline_of, message_noted, message_received, with_requesters,
};
use crate::audio::outbound::{
    byes_bytes, is_requested, lemma_sink_place, sink_place, sink_written, BYES_PER_MESSAGE,
};
use crate::audio::ops::receiving;
use crate::audio::sink::SinkView;
use crate::audio::source::{
    deliver_on, delivered, delivered_samples, law_each_chunk_is_one_unit, SourceView, INBOX_LIMIT,
};
use crate::audio::state::{audio_ok, sink_ok, source_ok, AudioView, KnownChannelView};
use crate::audio::upkeep::{
    all_pruned, all_refreshed, audio_deadline, audio_kept, earliest_expiry, earliest_known,
    known_pruned, next_prune, next_request, peer_forgotten, sink_pruned, ANNOUNCE_PERIOD,
};
use crate::engine::state::{
    is_clock, is_deadline, state_ok, StateView, MAX_TTL, PRUNE_PADDING,
};
use crate::math::{law_session_offsets_cancel, offset_wrapped, wrap64};
use crate::table::{distinct, law_with, law_without, lemma_place, lookup, place, with, Route};
use crate::wire::audio::{
    all_bytes, decoded, frame_bytes, frame_prefix, id_list_bytes, is_sound_buffer, is_sound_message,
    law_frame_roundtrip, nominal_frame, nominal_ttl, payload_bytes, samples_of, AudioBufferView, ChannelInfoView,
    MessageView, KEY_AUCB, MAGIC, MAX_PAYLOAD,
};
use crate::wire::codec::{lemma_be_bytes_len, lemma_entry_len};
use crate::wire::prefix::lemma_prefix_roundtrip;
use crate::wire::types::{ChannelId, Id, NodeId, SocketAddr};

verus! {

/// A channel that nobody requests is silent: what is written to it is neither
/// sent nor kept.
pub proof fn law_unrequested_channel_is_silent(
    s: StateView,
    channel: ChannelId,
    samples: Seq<i16>,
    rate: u32,
    num_channels: u8,
    begin_app_beat: i64,
    quantum: i64,
    fill: bool,
    now: i64,
)
    requires
        !is_requested(s, channel, now),
    ensures
        ({
            let t = sink_written(
                s,
                channel,
                samples,
                rate,
                num_channels,
                begin_app_beat,
                quantum,
                fill,
                now,
            );
            &&& t.outbox == s.outbox
            &&& t.audio matches Some(a) ==> sink_place(s.audio->0.sinks, channel) < a.sinks.len()
                ==> a.sinks[sink_place(s.audio->0.sinks, channel)].segments.len() == 0
        }),
{
    if let Some(a) = s.audio {
        lemma_sink_place(a.sinks, channel);
    }
}

/// A request makes the channel requested for as long as its ttl says, from the
/// moment it arrives; its withdrawal ends that at once.
pub proof fn law_request_and_withdrawal(
    s: StateView,
    gateway: usize,
    node: NodeId,
    ttl: u8,
    stop_ttl: u8,
    channel: ChannelId,
    now: i64,
    later: i64,
)
    requires
        is_clock(now),
        state_ok(s),
        s.audio is Some,
        sink_place(s.audio->0.sinks, channel) < s.audio->0.sinks.len(),
    ensures
        ({
            let a = s.audio->0;
            let n = sink_place(a.sinks, channel);
            let asked = message_noted(
                a,
                s,
                gateway,
                node,
                ttl,
                MessageView::ChannelRequest { channel },
                now,
            );
            let stopped = message_noted(
                asked,
                s,
                gateway,
                node,
                stop_ttl,
                MessageView::StopChannelRequest { channel },
                later,
            );
            &&& lookup(asked.sinks[n].requesters, node) == Some(deadline_of(now, ttl))
            &&& later < now + ttl * 1_000_000 ==> is_requested(
                StateView { audio: Some(asked), ..s },
                channel,
                later,
            )
            &&& lookup(stopped.sinks[n].requesters, node) is None
        }),
{
    let a = s.audio->0;
    let n = sink_place(a.sinks, channel);
    let all = a.sinks[n].requesters;
    let deadline = deadline_of(now, ttl);
    lemma_sink_place(a.sinks, channel);
    assert(sink_ok(a.sinks[n]));
    law_with(all, node, deadline, node);
    let more = with(all, node, deadline);
    let asked = with_requesters(a, n, more);
    assert(asked.sinks[n].requesters == more);
    lemma_sink_place_update(a.sinks, n, SinkView { requesters: more, ..a.sinks[n] }, channel);
    law_without(more, node, node);
    if later < now + ttl * 1_000_000 {
        let keep = |e: (NodeId, i64)| e.1 > later;
        lemma_place(more, node);
        let p = place(more, node);
        more.filter_lemma(keep);
        assert(keep(more[p]));
        assert(more.filter(keep).contains(more[p]));
    }
}

/// Changing a sink but for its identifier leaves every sink in its place.
proof fn lemma_sink_place_update(sinks: Seq<SinkView>, n: int, sink: SinkView, channel: ChannelId)
    requires
        0 <= n < sinks.len(),
        sink.id == sinks[n].id,
    ensures
        sink_place(sinks.update(n, sink), channel) == sink_place(sinks, channel),
    decreases sinks.len(),
{
    let t = sinks.update(n, sink);
    if sinks[0].id != channel {
        if n > 0 {
            lemma_sink_place_update(sinks.skip(1), n - 1, sink, channel);
            assert(t.skip(1) =~= sinks.skip(1).update(n - 1, sink));
        } else {
            assert(t.skip(1) =~= sinks.skip(1));
        }
    }
}

pub proof fn lemma_earliest_expiry(requesters: Seq<(NodeId, i64)>, i: int)
    requires
        0 <= i < requesters.len(),
    ensures
        earliest_expiry(requesters) is Some,
        earliest_expiry(requesters)->0 <= requesters[i].1,
    decreases requesters.len(),
{
    let front = requesters.drop_last();
    if i < front.len() {
        lemma_earliest_expiry(front, i);
        assert(front[i] == requesters[i]);
    } else if front.len() > 0 {
        lemma_earliest_expiry(front, 0);
    }
}

pub proof fn lemma_earliest_known(known: Seq<(Route, KnownChannelView)>, i: int)
    requires
        0 <= i < known.len(),
    ensures
        earliest_known(known) is Some,
        earliest_known(known)->0 <= known[i].1.deadline,
    decreases known.len(),
{
    let front = known.drop_last();
    if i < front.len() {
        lemma_earliest_known(front, i);
        assert(front[i] == known[i]);
    } else if front.len() > 0 {
        lemma_earliest_known(front, 0);
    }
}

/// No request is dropped before it expires, and none stays longer than the
/// padding after that.
pub proof fn law_requests_expire(sink: SinkView, now: i64, i: int)
    ensures
        0 <= i < sink.requesters.len() && sink.requesters[i].1 > now ==> sink_pruned(
            sink,
            now,
        ).requesters.contains(sink.requesters[i]),
        0 <= i < sink_pruned(sink, now).requesters.len() ==> sink_pruned(
            sink,
            now,
        ).requesters[i].1 + PRUNE_PADDING > now,
{
    let keep = |e: (NodeId, i64)| e.1 > now;
    sink.requesters.filter_lemma(keep);
    let t = sink_pruned(sink, now);
    if 0 <= i < sink.requesters.len() {
        lemma_earliest_expiry(sink.requesters, i);
        assert(sink.requesters.contains(sink.requesters[i]));
    }
    if 0 <= i < t.requesters.len() && t.requesters == sink.requesters {
        lemma_earliest_expiry(sink.requesters, i);
    }
}

/// No known channel is dropped before its time is over, and none stays longer
/// than the padding after that.
pub proof fn law_known_channels_expire(
    known: Seq<(Route, KnownChannelView)>,
    now: i64,
    i: int,
)
    ensures
        0 <= i < known.len() && known[i].1.deadline > now ==> known_pruned(known, now).contains(
            known[i],
        ),
        0 <= i < known_pruned(known, now).len() ==> known_pruned(known, now)[i].1.deadline
            + PRUNE_PADDING > now,
{
    let keep = |k: (Route, KnownChannelView)| k.1.deadline > now;
    known.filter_lemma(keep);
    let t = known_pruned(known, now);
    if 0 <= i < known.len() {
        lemma_earliest_known(known, i);
        assert(known.contains(known[i]));
    }
    if 0 <= i < t.len() && t == known {
        lemma_earliest_known(known, i);
    }
}

pub proof fn lemma_expiry_is_some(requesters: Seq<(NodeId, i64)>)
    ensures
        earliest_expiry(requesters) matches Some(e) ==> exists|i: int|
            0 <= i < requesters.len() && (#[trigger] requesters[i]).1 == e,
    decreases requesters.len(),
{
    if requesters.len() > 0 {
        let front = requesters.drop_last();
        lemma_expiry_is_some(front);
        assert(requesters[requesters.len() - 1] == requesters.last());
        if let Some(e) = earliest_expiry(front) {
            let i = choose|i: int| 0 <= i < front.len() && (#[trigger] front[i]).1 == e;
            assert(requesters[i] == front[i]);
        }
    }
}

pub proof fn lemma_known_is_some(known: Seq<(Route, KnownChannelView)>)
    ensures
        earliest_known(known) matches Some(e) ==> exists|i: int|
            0 <= i < known.len() && (#[trigger] known[i]).1.deadline == e,
    decreases known.len(),
{
    if known.len() > 0 {
        let front = known.drop_last();
        lemma_known_is_some(front);
        assert(known[known.len() - 1] == known.last());
        if let Some(e) = earliest_known(front) {
            let i = choose|i: int| 0 <= i < front.len() && (#[trigger] front[i]).1.deadline == e;
            assert(known[i] == front[i]);
        }
    }
}

proof fn lemma_next_request_is_later(
    sources: Seq<(ChannelId, SourceView)>,
    now: i64,
    next: i64,
)
    requires
        is_clock(now),
        next > now,
        forall|i: int| 0 <= i < sources.len() ==> source_ok((#[trigger] sources[i]).1),
    ensures
        next_request(all_refreshed(sources, now), next) > now,
    decreases sources.len(),
{
    if sources.len() > 0 {
        let front = sources.drop_last();
        assert forall|i: int| 0 <= i < front.len() implies source_ok((#[trigger] front[i]).1) by {
            assert(front[i] == sources[i]);
        }
        lemma_next_request_is_later(front, now, next);
        assert(all_refreshed(sources, now).drop_last() =~= all_refreshed(front, now));
        assert(source_ok(sources[sources.len() - 1].1));
    }
}

proof fn lemma_next_prune_is_later(sinks: Seq<SinkView>, now: i64, next: i64)
    requires
        is_clock(now),
        next > now,
        forall|i: int| 0 <= i < sinks.len() ==> sink_ok(#[trigger] sinks[i]),
    ensures
        next_prune(all_pruned(sinks, now), next) > now,
    decreases sinks.len(),
{
    if sinks.len() > 0 {
        let front = sinks.drop_last();
        let last = sinks[sinks.len() - 1];
        assert forall|i: int| 0 <= i < front.len() implies sink_ok(#[trigger] front[i]) by {
            assert(front[i] == sinks[i]);
        }
        lemma_next_prune_is_later(front, now, next);
        assert(all_pruned(sinks, now).drop_last() =~= all_pruned(front, now));
        let left = sink_pruned(last, now).requesters;
        lemma_expiry_is_some(left);
        if let Some(e) = earliest_expiry(left) {
            let i = choose|i: int| 0 <= i < left.len() && (#[trigger] left[i]).1 == e;
            law_requests_expire(last, now, i);
            let keep = |r: (NodeId, i64)| r.1 > now;
            last.requesters.filter_lemma(keep);
            assert(last.requesters.contains(left[i])) by {
                if left != last.requesters {
                    assert(left.contains(left[i]));
                    last.requesters.lemma_filter_contains_rev(keep, left[i]);
                } else {
                    assert(last.requesters[i] == left[i]);
                }
            }
            let j = choose|j: int| 0 <= j < last.requesters.len() && last.requesters[j] == left[i];
            assert(is_deadline(last.requesters[j].1, MAX_TTL));
        }
    }
}

/// After an audio pass the next one is wanted later, never at once.
pub proof fn law_next_audio_pass_is_later(s: StateView, now: i64)
    requires
        is_clock(now),
        s.audio matches Some(a) ==> audio_ok(a),
    ensures
        audio_deadline(s, now) > now,
{
    if let Some(a) = s.audio {
        let k = audio_kept(a, now);
        let t0 = (k.last_announce_at + ANNOUNCE_PERIOD) as i64;
        lemma_next_request_is_later(a.sources, now, t0);
        let t1 = next_request(k.sources, t0);
        lemma_next_prune_is_later(a.sinks, now, t1);
        let left = k.known;
        lemma_known_is_some(left);
        if let Some(e) = earliest_known(left) {
            let i = choose|i: int| 0 <= i < left.len() && (#[trigger] left[i]).1.deadline == e;
            law_known_channels_expire(a.known, now, i);
            let keep = |c: (Route, KnownChannelView)| c.1.deadline > now;
            assert(a.known.contains(left[i])) by {
                if left != a.known {
                    assert(left.contains(left[i]));
                    a.known.lemma_filter_contains_rev(keep, left[i]);
                } else {
                    assert(a.known[i] == left[i]);
                }
            }
            let j = choose|j: int| 0 <= j < a.known.len() && a.known[j] == left[i];
            assert(is_deadline(a.known[j].1.deadline, MAX_TTL));
        }
    }
}

/// Every channel that an announcement lists is known through its gateway, under
/// its publisher, until the announcement's ttl is over.
pub proof fn law_announced_channels_are_known(
    known: Seq<(Route, KnownChannelView)>,
    channels: Seq<ChannelInfoView>,
    gateway: usize,
    peer: NodeId,
    peer_name: Seq<u8>,
    deadline: i64,
    i: int,
)
    requires
        distinct(known),
        0 <= i < channels.len(),
    ensures
        ({
            let route = Route { id: channels[i].id, gateway };
            let t = channels_noted(known, channels, gateway, peer, peer_name, deadline);
            &&& lookup(t, route) is Some
            &&& lookup(t, route)->0.peer == peer
            &&& lookup(t, route)->0.peer_name == peer_name
            &&& lookup(t, route)->0.deadline == deadline
        }),
    decreases channels.len(),
{
    let front = channels.drop_last();
    let before = channels_noted(known, front, gateway, peer, peer_name, deadline);
    let c = channels.last();
    let route = Route { id: c.id, gateway };
    let entry = KnownChannelView { peer, peer_name, name: c.name, deadline };
    lemma_noted_distinct(known, front, gateway, peer, peer_name, deadline);
    law_with(before, route, entry, Route { id: channels[i].id, gateway });
    if i < front.len() {
        law_announced_channels_are_known(
            known,
            front,
            gateway,
            peer,
            peer_name,
            deadline,
            i,
        );
        assert(front[i] == channels[i]);
    }
}

proof fn lemma_noted_distinct(
    known: Seq<(Route, KnownChannelView)>,
    channels: Seq<ChannelInfoView>,
    gateway: usize,
    peer: NodeId,
    peer_name: Seq<u8>,
    deadline: i64,
)
    requires
        distinct(known),
    ensures
        distinct(channels_noted(known, channels, gateway, peer, peer_name, deadline)),
    decreases channels.len(),
{
    if channels.len() > 0 {
        let c = channels.last();
        let route = Route { id: c.id, gateway };
        lemma_noted_distinct(known, channels.drop_last(), gateway, peer, peer_name, deadline);
        law_with(
            channels_noted(known, channels.drop_last(), gateway, peer, peer_name, deadline),
            route,
            KnownChannelView { peer, peer_name, name: c.name, deadline },
            route,
        );
    }
}

/// A channel that its publisher withdraws is not known through that gateway
/// any more; nobody else's withdrawal touches it.
pub proof fn law_publisher_withdraws(
    a: AudioView,
    s: StateView,
    gateway: usize,
    node: NodeId,
    ttl: u8,
    channels: Seq<ChannelId>,
    now: i64,
    i: int,
)
    ensures
        ({
            let t = message_noted(
                a,
                s,
                gateway,
                node,
                ttl,
                MessageView::ChannelByes { channels },
                now,
            );
            &&& 0 <= i < t.known.len() ==> !(t.known[i].0.gateway == gateway && t.known[i].1.peer
                == node && channels.contains(t.known[i].0.id))
            &&& 0 <= i < a.known.len() && a.known[i].1.peer != node ==> t.known.contains(a.known[i])
        }),
{
    let keep = |e: (Route, KnownChannelView)|
        !(e.0.gateway == gateway && e.1.peer == node && channels.contains(e.0.id));
    a.known.filter_lemma(keep);
}

/// The channels of a departed peer are gone, and those of others are not.
pub proof fn law_departed_publisher_is_forgotten(a: AudioView, node: NodeId, i: int)
    ensures
        0 <= i < peer_forgotten(a, node).known.len() ==> peer_forgotten(a, node).known[i].1.peer
            != node,
        0 <= i < a.known.len() && a.known[i].1.peer != node ==> peer_forgotten(
            a,
            node,
        ).known.contains(a.known[i]),
{
    let keep = |e: (Route, KnownChannelView)| e.1.peer != node;
    a.known.filter_lemma(keep);
}

/// Our own datagrams, those of another group, and bytes that do not parse are
/// ignored.
pub proof fn law_foreign_audio_is_ignored(
    s: StateView,
    gateway: usize,
    src: SocketAddr,
    buf: Seq<u8>,
    now: i64,
)
    requires
        decoded(buf) matches Ok(f) ==> f.node == s.node || f.group_id != 0,
    ensures
        audio_received(s, gateway, src, buf, now) == s,
{
}

/// A buffer of another session delivers nothing.
pub proof fn law_other_sessions_are_not_delivered(
    a: AudioView,
    s: StateView,
    gateway: usize,
    node: NodeId,
    ttl: u8,
    buf: AudioBufferView,
    now: i64,
)
    requires
        buf.session != s.session,
    ensures
        message_noted(a, s, gateway, node, ttl, MessageView::AudioBuffer(buf), now) == a,
{
}

/// Every message that a peer sends is what another one processes, with the ttl
/// nominally sent for it.
pub proof fn law_sent_messages_arrive(
    s: StateView,
    gateway: usize,
    src: SocketAddr,
    node: NodeId,
    m: MessageView,
    now: i64,
)
    requires
        s.enabled,
        s.audio is Some,
        node != s.node,
        is_sound_message(m),
    ensures
        audio_received(s, gateway, src, frame_bytes(nominal_frame(node, m)), now)
            == message_received(s, gateway, src, node, nominal_ttl(m), m, now),
{
    law_frame_roundtrip(nominal_frame(node, m));
}

/// What a publisher sends reaches a subscriber of the same session: each chunk
/// of the datagram becomes one unit, in order, with its number, its samples and
/// its format.
/// It lands on the beat it was written at: a chunk stamped by the sender with
/// an application beat is delivered at that beat, if both use one quantum. (The
/// inbox must have room, or its oldest units go.)
pub proof fn law_sent_audio_is_delivered(
    s: StateView,
    gateway: usize,
    src: SocketAddr,
    node: NodeId,
    buf: AudioBufferView,
    now: i64,
)
    requires
        state_ok(s),
        s.enabled,
        s.audio is Some,
        lookup(s.audio->0.sources, buf.channel) is Some,
        lookup(s.audio->0.sources, buf.channel)->0.inbox.len() + buf.chunks.len() <= INBOX_LIMIT,
        node != s.node,
        buf.session == s.session,
        is_sound_buffer(buf),
    ensures
        ({
            let datagram = frame_bytes(nominal_frame(node, MessageView::AudioBuffer(buf)));
            let t = audio_received(s, gateway, src, datagram, now);
            let before = lookup(s.audio->0.sources, buf.channel)->0;
            let after = lookup(t.audio->0.sources, buf.channel)->0;
            let n = before.inbox.len() as int;
            &&& t.audio is Some
            &&& lookup(t.audio->0.sources, buf.channel) is Some
            &&& after.inbox.len() == n + buf.chunks.len()
            &&& after.inbox.take(n) == before.inbox
            &&& delivered_samples(after.inbox.skip(n)) == samples_of(buf.sample_data)
            &&& forall|i: int|
                0 <= i < buf.chunks.len() ==> {
                    &&& (#[trigger] after.inbox[n + i]).seq == buf.chunks[i].seq
                    &&& after.inbox[n + i].samples.len() == buf.chunks[i].num_frames
                        * buf.num_channels
                    &&& after.inbox[n + i].tempo_micros_per_beat == buf.chunks[i].tempo
                    &&& after.inbox[n + i].sample_rate == buf.sample_rate
                    &&& after.inbox[n + i].channels == buf.num_channels
                }
            &&& forall|i: int, beat: i64|
                0 <= i < buf.chunks.len() && buf.chunks[i].begin_beats == #[trigger] wrap64(
                    beat - offset_wrapped(s.timeline, before.quantum),
                ) ==> (#[trigger] after.inbox[n + i]).begin_app_beat == beat
            &&& receiving(t, buf.channel, now)
        }),
{
    let f = nominal_frame(node, MessageView::AudioBuffer(buf));
    let a = s.audio->0;
    let before = lookup(a.sources, buf.channel)->0;
    let delta = offset_wrapped(s.timeline, before.quantum);
    let d = deliver_on(before, buf.chunks, 0, buf, delta);
    let n = before.inbox.len() as int;
    law_frame_roundtrip(f);
    law_with(a.sources, buf.channel, delivered(before, buf, s.timeline, now), buf.channel);
    law_each_chunk_is_one_unit(before, buf, delta);
    assert(delivered(before, buf, s.timeline, now).inbox == d.inbox);
    assert forall|i: int, beat: i64|
        0 <= i < buf.chunks.len() && buf.chunks[i].begin_beats == #[trigger] wrap64(
            beat - delta,
        ) implies (#[trigger] d.inbox[n + i]).begin_app_beat == beat by {
        law_session_offsets_cancel(beat, s.timeline, before.quantum);
    }
}

/// Every withdrawal keeps to the payload budget.
pub proof fn law_withdrawals_fit(node: NodeId, channels: Seq<ChannelId>)
    requires
        channels.len() <= BYES_PER_MESSAGE,
    ensures
        byes_bytes(node, channels).len() <= 20 + MAX_PAYLOAD,
{
    let m = MessageView::ChannelByes { channels };
    lemma_prefix_roundtrip(
        MAGIC@,
        frame_prefix(nominal_frame(node, m)),
        payload_bytes(m),
    );
    lemma_entry_len(KEY_AUCB, id_list_bytes(channels));
    lemma_be_bytes_len((channels.len() as u32) as nat, 4);
    lemma_ids_len(channels);
}

pub proof fn lemma_ids_len(ids: Seq<Id>)
    ensures
        all_bytes(ids, |id: Id| id.0@).len() == 8 * ids.len(),
    decreases ids.len(),
{
    if ids.len() > 0 {
        lemma_ids_len(ids.skip(1));
    }
}

} // verus!
