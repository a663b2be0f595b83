//! Audio datagrams that a peer receives.

use vstd::prelude::*;

use crate::audio::outbound::{find_sink, sink_place};
use crate::audio::paths::send_via;
use crate::audio::sink::SinkView;
use crate::audio::source::{deliver, delivered, law_inbox_is_bounded, lemma_deliver_keeps};
use crate::audio::state::{
    audio_ok, lemma_with_known, no_trips, requesters_ok, sink_ok, source_ok, with_trip, AudioState,
    AudioView, KnownChannel, KnownChannelView, PathStats, RTT_WINDOW,
};
use crate::engine::send::posted;
use crate::engine::state::{
    is_clock, is_deadline, state_ok, Outlet, PeerEntry, State, StateView, MAX_TTL,
};
use crate::math::{offset_wrapped, wrap64, wrapping_difference};
use crate::table::{
    distinct, law_with, lemma_distinct_filter, lemma_place, lookup, place, with, without, Route,
};
use crate::wire::audio::{
    channel_views, decode, decoded, encode, frame_bytes, nominal_frame, AudioBuffer, ChannelInfo,
    ChannelInfoView, Frame, Message, MessageView,
};
use crate::wire::codec::owned_bytes;
use crate::wire::types::{contains_id, ChannelId, NodeId, SocketAddr, Timeline};

verus! {

/// The deadline that a ttl of seconds grants from `now`.
pub open spec fn deadline_of(now: i64, ttl: u8) -> i64 {
    (now + ttl * 1_000_000) as i64
}

/// The known channels after an announcement listed some: listing refreshes a
/// channel.
pub open spec fn channels_noted(
    known: Seq<(Route, KnownChannelView)>,
    channels: Seq<ChannelInfoView>,
    gateway: usize,
    peer: NodeId,
    peer_name: Seq<u8>,
    deadline: i64,
) -> Seq<(Route, KnownChannelView)>
    decreases channels.len(),
{
    if channels.len() == 0 {
        known
    } else {
        let c = channels.last();
        with(
            channels_noted(known, channels.drop_last(), gateway, peer, peer_name, deadline),
            Route { id: c.id, gateway },
            KnownChannelView { peer, peer_name, name: c.name, deadline },
        )
    }
}

/// Whether channel content may come from there: the source endpoint is the one
/// that the peer gossiped through this gateway.
pub open spec fn endpoint_known(
    peers: Seq<(Route, PeerEntry)>,
    node: NodeId,
    gateway: usize,
    src: SocketAddr,
) -> bool {
    match lookup(peers, Route { id: node, gateway }) {
        Some(e) => e.state.audio_endpoint == Some(src),
        None => false,
    }
}

/// The round trip of a keepalive, on our own clock; never negative.
pub open spec fn round_trip(now: i64, host_time: i64) -> i64 {
    if wrap64(now - host_time) < 0 {
        0
    } else {
        wrap64(now - host_time)
    }
}

/// The audio state with one sink's requesters changed.
pub open spec fn with_requesters(a: AudioView, n: int, requesters: Seq<(NodeId, i64)>) -> AudioView {
    AudioView { sinks: a.sinks.update(n, SinkView { requesters, ..a.sinks[n] }), ..a }
}

/// The datagram that answers a keepalive ping.
pub open spec fn pong_reply(node: NodeId, host_time: i64) -> Seq<u8> {
    frame_bytes(nominal_frame(node, MessageView::Pong { host_time }))
}

/// The audio state after a message other than an announcement.
pub open spec fn message_noted(
    a: AudioView,
    s: StateView,
    gateway: usize,
    node: NodeId,
    ttl: u8,
    message: MessageView,
    now: i64,
) -> AudioView {
    match message {
        MessageView::PeerAnnouncement { .. } => a,
        MessageView::Pong { host_time } => {
            let route = Route { id: node, gateway };
            let stats = match lookup(a.paths, route) {
                Some(stats) => stats,
                None => no_trips(),
            };
            AudioView {
                paths: with(a.paths, route, with_trip(stats, round_trip(now, host_time))),
                ..a
            }
        },
        // Requests for unknown channels are dropped.
        MessageView::ChannelRequest { channel } => {
            let n = sink_place(a.sinks, channel);
            if n < a.sinks.len() {
                with_requesters(a, n, with(a.sinks[n].requesters, node, deadline_of(now, ttl)))
            } else {
                a
            }
        },
        MessageView::StopChannelRequest { channel } => {
            let n = sink_place(a.sinks, channel);
            if n < a.sinks.len() {
                with_requesters(a, n, without(a.sinks[n].requesters, node))
            } else {
                a
            }
        },
        // Only the publisher withdraws a channel.
        MessageView::ChannelByes { channels } => AudioView {
            known: a.known.filter(
                |e: (Route, KnownChannelView)|
                    !(e.0.gateway == gateway && e.1.peer == node && channels.contains(e.0.id)),
            ),
            ..a
        },
        // Buffers of another session have no defined beat; those of a channel
        // without a source are discarded.
        MessageView::AudioBuffer(buf) => if buf.session != s.session {
            a
        } else {
            match lookup(a.sources, buf.channel) {
                Some(source) => AudioView {
                    sources: with(
                        a.sources,
                        buf.channel,
                        delivered(source, buf, s.timeline, now),
                    ),
                    ..a
                },
                None => a,
            }
        },
    }
}

/// The state after an admitted audio message.
pub open spec fn message_received(
    s: StateView,
    gateway: usize,
    src: SocketAddr,
    node: NodeId,
    ttl: u8,
    message: MessageView,
    now: i64,
) -> StateView {
    let a = s.audio->0;
    match message {
        MessageView::PeerAnnouncement { session, peer_name, channels, ping } => {
            let noted = AudioView {
                known: channels_noted(
                    a.known,
                    channels,
                    gateway,
                    node,
                    peer_name,
                    deadline_of(now, ttl),
                ),
                ..a
            };
            // The ping is answered whoever sent it.
            let answered = match ping {
                Some(ht) => posted(s, gateway, Outlet::Audio(src), pong_reply(s.node, ht)),
                None => s,
            };
            if endpoint_known(s.peers, node, gateway, src) {
                StateView { audio: Some(noted), ..answered }
            } else {
                answered
            }
        },
        _ => StateView {
            audio: Some(message_noted(a, s, gateway, node, ttl, message, now)),
            ..s
        },
    }
}

/// The state after a datagram on an audio socket. What does not parse, comes
/// from ourselves or belongs to another group is ignored.
pub open spec fn audio_received(
    s: StateView,
    gateway: usize,
    src: SocketAddr,
    buf: Seq<u8>,
    now: i64,
) -> StateView {
    if !s.enabled || s.audio is None {
        s
    } else {
        match decoded(buf) {
            Err(_) => s,
            Ok(f) => if f.node == s.node || f.group_id != 0 {
                s
            } else {
                message_received(s, gateway, src, f.node, f.ttl, f.message, now)
            },
        }
    }
}

fn note_channels(
    audio: &mut AudioState,
    channels: &Vec<ChannelInfo>,
    gateway: usize,
    peer: NodeId,
    peer_name: &Vec<u8>,
    deadline: i64,
)
    requires
        audio_ok(old(audio)@),
        is_deadline(deadline, MAX_TTL),
    ensures
        final(audio)@ == (AudioView {
            known: channels_noted(
                old(audio)@.known,
                channel_views(channels@),
                gateway,
                peer,
                peer_name@,
                deadline,
            ),
            ..old(audio)@
        }),
        audio_ok(final(audio)@),
{
    let ghost a = audio@;
    let ghost all = channel_views(channels@);
    let mut i: usize = 0;
    proof {
        assert(all.take(0) =~= Seq::empty());
    }
    while i < channels.len()
        invariant
            i <= channels@.len(),
            all == channel_views(channels@),
            is_deadline(deadline, MAX_TTL),
            audio_ok(audio@),
            audio@ == (AudioView {
                known: channels_noted(
                    a.known,
                    all.take(i as int),
                    gateway,
                    peer,
                    peer_name@,
                    deadline,
                ),
                ..a
            }),
        decreases channels@.len() - i,
    {
        let ghost known = audio@.known;
        let route = Route { id: channels[i].id, gateway };
        let entry = KnownChannel {
            peer,
            peer_name: owned_bytes(peer_name.as_slice()),
            name: owned_bytes(channels[i].name.as_slice()),
            deadline,
        };
        let ghost view = entry@;
        audio.known.insert(route, entry);
        proof {
            assert(all.take(i + 1).drop_last() =~= all.take(i as int));
            assert(all.take(i + 1).last() == all[i as int]);
            lemma_place(known, route);
            assert forall|j: int| 0 <= j < audio@.known.len() implies is_deadline(
                (#[trigger] audio@.known[j]).1.deadline,
                MAX_TTL,
            ) by {
                if j < known.len() && j != place(known, route) {
                    assert(audio@.known[j] == known[j]);
                } else {
                    assert(audio@.known[j] == (route, view));
                }
            }
            lemma_with_known(AudioView { known, ..a }, audio@.known);
        }
        i = i + 1;
    }
    proof {
        assert(all.take(i as int) =~= all);
    }
}

fn note_trip(audio: &mut AudioState, route: Route, rtt: i64)
    requires
        audio_ok(old(audio)@),
    ensures
        ({
            let a = old(audio)@;
            let stats = match lookup(a.paths, route) {
                Some(stats) => stats,
                None => no_trips(),
            };
            final(audio)@ == (AudioView {
                paths: with(a.paths, route, with_trip(stats, rtt)),
                ..a
            })
        }),
        audio_ok(final(audio)@),
{
    let ghost a = audio@;
    let n = audio.paths.index_of(&route);
    proof {
        lemma_place(a.paths, route);
        law_with(a.paths, route, no_trips(), route);
    }
    if n >= audio.paths.items.len() {
        let mut stats = PathStats::default();
        stats.record(rtt);
        audio.paths.insert(route, stats);
    } else {
        let ghost before = a.paths[n as int].1;
        audio.paths.items[n].1.record(rtt);
        proof {
            law_with(a.paths, route, with_trip(before, rtt), route);
            assert(audio@.paths =~= with(a.paths, route, with_trip(before, rtt)));
        }
    }
    proof {
        assert forall|j: int| 0 <= j < audio@.paths.len() implies (
        #[trigger] audio@.paths[j]).1.rtts.len() <= RTT_WINDOW by {
            if j < a.paths.len() {
                assert(a.paths[j].1.rtts.len() <= RTT_WINDOW);
            }
        }
    }
}

/// Set or clear one peer's request for a channel.
fn note_request(audio: &mut AudioState, channel: ChannelId, node: NodeId, deadline: Option<i64>)
    requires
        audio_ok(old(audio)@),
        deadline matches Some(d) ==> is_deadline(d, MAX_TTL),
    ensures
        ({
            let a = old(audio)@;
            let n = sink_place(a.sinks, channel);
            final(audio)@ == if n < a.sinks.len() {
                with_requesters(
                    a,
                    n,
                    match deadline {
                        Some(d) => with(a.sinks[n].requesters, node, d),
                        None => without(a.sinks[n].requesters, node),
                    },
                )
            } else {
                a
            }
        }),
        audio_ok(final(audio)@),
{
    let ghost a = audio@;
    let n = find_sink(&audio.sinks, channel);
    if n >= audio.sinks.len() {
        return;
    }
    let ghost all = a.sinks[n as int].requesters;
    proof {
        assert(sink_ok(a.sinks[n as int]));
        lemma_place(all, node);
    }
    match deadline {
        Some(d) => {
            audio.sinks[n].requesters.insert(node, d);
        },
        None => {
            audio.sinks[n].requesters.remove(&node);
        },
    }
    proof {
        let now = audio@.sinks[n as int].requesters;
        assert(audio@.sinks =~= a.sinks.update(
            n as int,
            SinkView { requesters: now, ..a.sinks[n as int] },
        ));
        assert(requesters_ok(now)) by {
            assert forall|j: int| 0 <= j < now.len() implies is_deadline(
                (#[trigger] now[j]).1,
                MAX_TTL,
            ) by {
                let p = place(all, node);
                if deadline is Some {
                    if j < all.len() && j != p {
                        assert(now[j] == all[j]);
                    }
                } else if p < all.len() {
                    assert(now[j] == all[if j < p {
                        j
                    } else {
                        j + 1
                    }]);
                } else {
                    assert(now[j] == all[j]);
                }
            }
        }
        assert forall|j: int| 0 <= j < audio@.sinks.len() implies sink_ok(
            #[trigger] audio@.sinks[j],
        ) by {
            if j != n {
                assert(audio@.sinks[j] == a.sinks[j]);
            }
        }
    }
}

fn forget_channels(
    audio: &mut AudioState,
    channels: &Vec<ChannelId>,
    gateway: usize,
    node: NodeId,
)
    requires
        audio_ok(old(audio)@),
    ensures
        final(audio)@ == (AudioView {
            known: old(audio)@.known.filter(
                |e: (Route, KnownChannelView)|
                    !(e.0.gateway == gateway && e.1.peer == node && channels@.contains(e.0.id)),
            ),
            ..old(audio)@
        }),
        audio_ok(final(audio)@),
{
    let ghost known = audio@.known;
    let ghost keep = |e: (Route, KnownChannelView)|
        !(e.0.gateway == gateway && e.1.peer == node && channels@.contains(e.0.id));
    let stays = |k: &Route, kc: &KnownChannel| -> (b: bool)
        ensures
            b == !(k.gateway == gateway && kc.peer == node && channels@.contains(k.id)),
    {
        !(k.gateway == gateway && kc.peer == node && contains_id(channels, &k.id))
    };
    audio.known.retain(stays);
    proof {
        assert(audio@.known == known.filter(keep));
        lemma_known_filter(known, keep);
    }
}

/// Keeping some of the known channels keeps them in order.
pub proof fn lemma_known_filter(
    known: Seq<(Route, KnownChannelView)>,
    keep: spec_fn((Route, KnownChannelView)) -> bool,
)
    requires
        distinct(known),
        forall|i: int|
            0 <= i < known.len() ==> is_deadline((#[trigger] known[i]).1.deadline, MAX_TTL),
    ensures
        distinct(known.filter(keep)),
        forall|i: int|
            0 <= i < known.filter(keep).len() ==> is_deadline(
                (#[trigger] known.filter(keep)[i]).1.deadline,
                MAX_TTL,
            ),
{
    lemma_distinct_filter(known, keep);
    let kept = known.filter(keep);
    assert forall|i: int| 0 <= i < kept.len() implies is_deadline(
        (#[trigger] kept[i]).1.deadline,
        MAX_TTL,
    ) by {
        assert(kept.contains(kept[i]));
        known.lemma_filter_contains_rev(keep, kept[i]);
    }
}

fn receive_buffer(audio: &mut AudioState, buf: &AudioBuffer, timeline: &Timeline, now: i64)
    requires
        audio_ok(old(audio)@),
        timeline.tempo > 0,
        is_clock(now),
    ensures
        final(audio)@ == match lookup(old(audio)@.sources, buf.channel) {
            Some(source) => AudioView {
                sources: with(
                    old(audio)@.sources,
                    buf.channel,
                    delivered(source, buf@, *timeline, now),
                ),
                ..old(audio)@
            },
            None => old(audio)@,
        },
        audio_ok(final(audio)@),
{
    let ghost a = audio@;
    let n = audio.sources.index_of(&buf.channel);
    if n >= audio.sources.items.len() {
        return;
    }
    let ghost before = a.sources[n as int].1;
    proof {
        lemma_place(a.sources, buf.channel);
        assert(source_ok(before));
    }
    deliver(&mut audio.sources.items[n].1, buf, timeline, now);
    proof {
        let after = delivered(before, buf@, *timeline, now);
        law_inbox_is_bounded(before, buf@, *timeline, now);
        lemma_deliver_keeps(
            before,
            buf@.chunks,
            0,
            buf@,
            offset_wrapped(*timeline, before.quantum),
        );
        law_with(a.sources, buf.channel, after, buf.channel);
        assert(audio@.sources =~= with(a.sources, buf.channel, after));
        assert forall|j: int| 0 <= j < audio@.sources.len() implies source_ok(
            (#[trigger] audio@.sources[j]).1,
        ) by {
            if j != n {
                assert(audio@.sources[j] == a.sources[j]);
            }
        }
    }
}

/// Process a datagram that arrived on an audio socket.
pub fn handle_datagram(st: &mut State, gw: usize, src: SocketAddr, buf: &[u8], now: i64)
    requires
        is_clock(now),
        state_ok(old(st)@),
    ensures
        final(st)@ == audio_received(old(st)@, gw, src, buf@, now),
        state_ok(final(st)@),
{
    if !st.enabled || st.audio.is_none() {
        return;
    }
    let frame = match decode(buf) {
        Ok(frame) => frame,
        Err(_) => {
            return;
        },
    };
    if frame.node == st.node || frame.group_id != 0 {
        return;
    }
    let node = frame.node;
    let deadline = now + frame.ttl as i64 * 1_000_000;
    let mut audio = match st.audio.take() {
        Some(audio) => audio,
        None => {
            return;
        },
    };
    match frame.message {
        Message::PeerAnnouncement { session: _, peer_name, channels, ping } => {
            if let Some(ht) = ping {
                let pong = Frame::new(st.node, Message::Pong { host_time: ht });
                send_via(st, gw, encode(&pong), src);
            }
            let known = match st.peers.get(&Route { id: node, gateway: gw }) {
                Some(e) => match e.state.audio_endpoint {
                    Some(ep) => ep == src,
                    None => false,
                },
                None => false,
            };
            if known {
                note_channels(&mut audio, &channels, gw, node, &peer_name, deadline);
            }
        },
        Message::Pong { host_time } => {
            let trip = wrapping_difference(now, host_time);
            let rtt: i64 = if trip < 0 {
                0
            } else {
                trip
            };
            note_trip(&mut audio, Route { id: node, gateway: gw }, rtt);
        },
        Message::ChannelRequest { channel } => {
            note_request(&mut audio, channel, node, Some(deadline));
        },
        Message::StopChannelRequest { channel } => {
            note_request(&mut audio, channel, node, None);
        },
        Message::ChannelByes { channels } => {
            forget_channels(&mut audio, &channels, gw, node);
        },
        Message::AudioBuffer(buffer) => {
            if buffer.session == st.session {
                receive_buffer(&mut audio, &buffer, &st.timeline, now);
            }
        },
    }
    st.audio = Some(audio);
}

} // verus!
