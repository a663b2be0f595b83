//! Laws of the audio runtime: who is sent what, and what each event does to
//! channels, requests and paths.

use vstd::prelude::*;

use crate::audio::announce::{
    announcement, law_round_covers_channels, law_round_messages_fit, lemma_announcement_size,
    published, round_channels, round_of, round_parts, Announcer,
};
use crate::audio::inbound::{audio_received, channels_noted, round_trip};
use crate::audio::laws::{
    law_known_channels_expire, law_requests_expire, lemma_earliest_expiry, lemma_earliest_known,
    lemma_expiry_is_some, lemma_ids_len, lemma_known_is_some,
};
use crate::audio::ops::{
    audio_disabled, audio_enabled, audio_shut, channel_published, channel_subscribed,
    channel_unsubscribed, channel_withdrawn, receiving, sink_ids,
};
use crate::audio::outbound::{
    appended, audio_messages, byes_bytes, byes_sent, has_length, is_requested,
    lemma_sent_to_requesters, lemma_sink_place, publisher_of, request_sent, sent_to_requesters,
    sink_place, sink_written, unexpired, BYES_PER_MESSAGE,
};
use crate::audio::paths::{
    best_of, endpoints_of, is_path, law_best_path_is_best, lemma_sent_to, lemma_sent_to_all,
    sent_to, sent_to_all,
};
use crate::audio::sink::{
    drained, law_drain_packs_full_datagrams, law_packed_datagram_is_accepted, micro_beats, pending,
    SegmentView, SinkView,
};
use crate::audio::source::{delivered, fresh_source, SourceView};
use crate::audio::state::{
    audio_ok, no_trips, sink_ok, source_ok, with_trip, AudioView, KnownChannelView, PathStatsView,
};
use crate::audio::upkeep::{
    all_refreshed, announce_time, announced, announcer, audio_deadline, audio_pass, due_requests,
    earliest_expiry, earliest_known, lemma_audio_pass, lemma_requests_sent, next_prune,
    next_request, requests_sent,
};
use crate::engine::effects::{
    is_plain_gateway, law_changes_are_told_on_every_gateway, law_pass_drops_silent_peers,
    law_pass_leaves_a_lost_session, lemma_broadcast_passes_on, passes_on, same_but_sent,
};
use crate::engine::elect::loss_checked;
use crate::engine::laws::{
    lemma_core_pass_follows, lemma_earliest, lemma_nodes_gone_audio, lemma_requests_follow,
    lemma_sent_all_follows,
};
use crate::engine::measure::next_started;
use crate::engine::state::{
    is_clock, is_deadline, state_ok, DatagramView, Outlet, PeerEntry, StateView,
};
use crate::engine::upkeep::{
    alive_kept, core_pass, expired_nodes, live_peers, nodes_gone, passed, peers_pruned,
    remeasure_kept, retry_kept,
};
use crate::math::{lemma_wrap64_fits, offset_wrapped, wrap64};
use crate::table::{distinct, law_with, law_without, lemma_place, lookup, with, without, Route};
use crate::wire::discovery;
use crate::wire::audio::{
    channel_list_bytes, decoded, law_frame_roundtrip, law_samples_roundtrip, nominal_frame,
    samples_of, ChannelInfoView, Chunk, MessageView,
};
use crate::wire::codec::{lemma_be_bytes_len, string_bytes, Error};
use crate::wire::types::{ChannelId, NodeId, SessionId, SocketAddr};

verus! {

// ------------------------------------------------------------------ sending

/// Whether a state has one more datagram to send, beyond those of another.
pub open spec fn newly_sends(s: StateView, t: StateView, d: DatagramView) -> bool {
    exists|k: int| s.outbox.len() <= k < t.outbox.len() && #[trigger] t.outbox[k] == d
}

proof fn lemma_sent_to_one(s: StateView, to: (usize, SocketAddr), messages: Seq<Seq<u8>>)
    ensures
        ({
            let t = sent_to(s, to, messages);
            let n = s.outbox.len();
            if to.0 < s.gateways.len() {
                &&& t.outbox.len() == n + messages.len()
                &&& s.outbox.is_prefix_of(t.outbox)
                &&& forall|j: int|
                    0 <= j < messages.len() ==> #[trigger] t.outbox[n + j] == (DatagramView {
                        gateway: to.0,
                        outlet: Outlet::Audio(to.1),
                        bytes: messages[j],
                    })
            } else {
                t == s
            }
        }),
    decreases messages.len(),
{
    if messages.len() > 0 {
        lemma_sent_to_one(s, to, messages.drop_last());
        lemma_sent_to(s, to, messages.drop_last());
    }
}

/// Every endpoint is sent every message, once, through its gateway if that is
/// open; nothing else is sent, and nothing else changes.
#[verifier::rlimit(40)]
pub proof fn law_every_endpoint_is_sent_every_message(
    s: StateView,
    endpoints: Seq<(usize, SocketAddr)>,
    messages: Seq<Seq<u8>>,
)
    ensures
        ({
            let t = sent_to_all(s, endpoints, messages);
            &&& t == (StateView { outbox: t.outbox, ..s })
            &&& s.outbox.is_prefix_of(t.outbox)
            &&& forall|i: int, j: int|
                0 <= i < endpoints.len() && 0 <= j < messages.len() && (
                #[trigger] endpoints[i]).0 < s.gateways.len() ==> newly_sends(
                    s,
                    t,
                    DatagramView {
                        gateway: endpoints[i].0,
                        outlet: Outlet::Audio(endpoints[i].1),
                        bytes: #[trigger] messages[j],
                    },
                )
            &&& forall|k: int|
                s.outbox.len() <= k < t.outbox.len() ==> exists|i: int, j: int|
                    0 <= i < endpoints.len() && 0 <= j < messages.len() && (
                    #[trigger] t.outbox[k]) == (DatagramView {
                        gateway: (#[trigger] endpoints[i]).0,
                        outlet: Outlet::Audio(endpoints[i].1),
                        bytes: #[trigger] messages[j],
                    }) && t.outbox[k].gateway < s.gateways.len()
            &&& (forall|i: int|
                0 <= i < endpoints.len() ==> (#[trigger] endpoints[i]).0 < s.gateways.len())
                ==> t.outbox.len() == s.outbox.len() + endpoints.len() * messages.len()
        }),
    decreases endpoints.len(),
{
    let t = sent_to_all(s, endpoints, messages);
    lemma_sent_to_all(s, endpoints, messages);
    if endpoints.len() == 0 {
        assert(0 * messages.len() == 0) by (nonlinear_arith);
    } else {
        let front = endpoints.drop_last();
        let m = sent_to_all(s, front, messages);
        let last = endpoints.last();
        let n = endpoints.len() - 1;
        law_every_endpoint_is_sent_every_message(s, front, messages);
        lemma_sent_to_all(s, front, messages);
        lemma_sent_to_one(m, last, messages);
        assert forall|i: int, j: int|
            0 <= i < endpoints.len() && 0 <= j < messages.len() && (#[trigger] endpoints[i]).0
                < s.gateways.len() implies newly_sends(
            s,
            t,
            DatagramView {
                gateway: endpoints[i].0,
                outlet: Outlet::Audio(endpoints[i].1),
                bytes: #[trigger] messages[j],
            },
        ) by {
            let d = DatagramView {
                gateway: endpoints[i].0,
                outlet: Outlet::Audio(endpoints[i].1),
                bytes: messages[j],
            };
            if i < n {
                assert(front[i] == endpoints[i]);
                assert(newly_sends(s, m, d));
                let k = choose|k: int|
                    s.outbox.len() <= k < m.outbox.len() && #[trigger] m.outbox[k] == d;
                assert(t.outbox[k] == d);
            } else {
                assert(t.outbox[m.outbox.len() + j] == d);
            }
        }
        assert forall|k: int| s.outbox.len() <= k < t.outbox.len() implies exists|i: int, j: int|
            0 <= i < endpoints.len() && 0 <= j < messages.len() && (#[trigger] t.outbox[k]) == (
            DatagramView {
                gateway: (#[trigger] endpoints[i]).0,
                outlet: Outlet::Audio(endpoints[i].1),
                bytes: #[trigger] messages[j],
            }) && t.outbox[k].gateway < s.gateways.len() by {
            if k < m.outbox.len() {
                assert(t.outbox[k] == m.outbox[k]);
                let (i, j) = choose|i: int, j: int|
                    0 <= i < front.len() && 0 <= j < messages.len() && m.outbox[k] == (
                    DatagramView {
                        gateway: (#[trigger] front[i]).0,
                        outlet: Outlet::Audio(front[i].1),
                        bytes: #[trigger] messages[j],
                    });
                assert(endpoints[i] == front[i]);
                assert(messages[j] == m.outbox[k].bytes);
            } else {
                let j = k - m.outbox.len();
                assert(t.outbox[m.outbox.len() + j].bytes == messages[j]);
                assert(endpoints[n] == last);
            }
        }
        if forall|i: int|
            0 <= i < endpoints.len() ==> (#[trigger] endpoints[i]).0 < s.gateways.len() {
            assert forall|i: int| 0 <= i < front.len() implies (#[trigger] front[i]).0
                < s.gateways.len() by {
                assert(front[i] == endpoints[i]);
            }
            assert(endpoints[n].0 < s.gateways.len());
            assert(n * messages.len() + messages.len() == (n + 1) * messages.len())
                by (nonlinear_arith);
        }
    }
}

/// Whether a peer entry is of a member of the session with that audio endpoint,
/// heard on that gateway.
pub open spec fn gives_endpoint(
    e: (Route, PeerEntry),
    session: SessionId,
    to: (usize, SocketAddr),
) -> bool {
    &&& e.1.state.session == Some(session)
    &&& e.1.state.audio_endpoint == Some(to.1)
    &&& e.0.gateway == to.0
}

/// The endpoints of a session are those of its members that have an audio
/// endpoint, each with the gateway it was heard on; all of them and no others.
pub proof fn law_endpoints_are_those_of_the_session(
    peers: Seq<(Route, PeerEntry)>,
    session: SessionId,
    to: (usize, SocketAddr),
)
    ensures
        endpoints_of(peers, session).contains(to) <==> exists|i: int|
            0 <= i < peers.len() && gives_endpoint(#[trigger] peers[i], session, to),
    decreases peers.len(),
{
    let all = endpoints_of(peers, session);
    if peers.len() > 0 {
        let front = peers.drop_last();
        let f = endpoints_of(front, session);
        let n = peers.len() - 1;
        law_endpoints_are_those_of_the_session(front, session, to);
        assert(peers[n] == peers.last());
        if exists|i: int| 0 <= i < peers.len() && gives_endpoint(#[trigger] peers[i], session, to) {
            let i = choose|i: int|
                0 <= i < peers.len() && gives_endpoint(#[trigger] peers[i], session, to);
            if i < n {
                assert(gives_endpoint(front[i], session, to));
                let k = choose|k: int| 0 <= k < f.len() && f[k] == to;
                assert(all[k] == to);
            } else {
                assert(all[f.len() as int] == to);
            }
        }
        if all.contains(to) {
            let k = choose|k: int| 0 <= k < all.len() && all[k] == to;
            if k < f.len() {
                assert(f[k] == to);
                let i = choose|i: int|
                    0 <= i < front.len() && gives_endpoint(#[trigger] front[i], session, to);
                assert(gives_endpoint(peers[i], session, to));
            } else {
                assert(gives_endpoint(peers[n], session, to));
            }
        }
    }
}

/// Where in the outbox a session peer finds one of the messages.
proof fn lemma_peer_is_sent(s: StateView, messages: Seq<Seq<u8>>, e: int, j: int) -> (k: int)
    requires
        0 <= e < s.peers.len(),
        s.peers[e].1.state.session == Some(s.session),
        s.peers[e].1.state.audio_endpoint is Some,
        s.peers[e].0.gateway < s.gateways.len(),
        0 <= j < messages.len(),
    ensures
        ({
            let t = sent_to_all(s, endpoints_of(s.peers, s.session), messages);
            &&& s.outbox.len() <= k < t.outbox.len()
            &&& t.outbox[k].gateway == s.peers[e].0.gateway
            &&& t.outbox[k].outlet == Outlet::Audio(s.peers[e].1.state.audio_endpoint->0)
            &&& t.outbox[k].bytes == messages[j]
        }),
{
    let to = (s.peers[e].0.gateway, s.peers[e].1.state.audio_endpoint->0);
    let endpoints = endpoints_of(s.peers, s.session);
    let t = sent_to_all(s, endpoints, messages);
    law_every_endpoint_is_sent_every_message(s, endpoints, messages);
    law_endpoints_are_those_of_the_session(s.peers, s.session, to);
    assert(gives_endpoint(s.peers[e], s.session, to));
    let x = choose|x: int| 0 <= x < endpoints.len() && endpoints[x] == to;
    let d = DatagramView {
        gateway: endpoints[x].0,
        outlet: Outlet::Audio(endpoints[x].1),
        bytes: messages[j],
    };
    assert(newly_sends(s, t, d));
    choose|k: int| s.outbox.len() <= k < t.outbox.len() && #[trigger] t.outbox[k] == d
}

// ------------------------------------------------------------ announcements

proof fn lemma_part_with(parts: Seq<(Seq<ChannelInfoView>, Option<i64>)>, c: ChannelInfoView) -> (p:
    int)
    requires
        round_channels(parts).contains(c),
    ensures
        0 <= p < parts.len(),
        parts[p].0.contains(c),
    decreases parts.len(),
{
    let all = round_channels(parts);
    let k = choose|k: int| 0 <= k < all.len() && all[k] == c;
    if k < parts[0].0.len() {
        assert(parts[0].0[k] == c);
        0
    } else {
        let rest = parts.skip(1);
        assert(round_channels(rest)[k - parts[0].0.len()] == c);
        let q = lemma_part_with(rest, c);
        assert(parts[q + 1] == rest[q]);
        q + 1
    }
}

proof fn lemma_announcement_reads_back(
    by: Announcer,
    channels: Seq<ChannelInfoView>,
    ping: Option<i64>,
)
    requires
        announcement(by, channels, ping).len() <= 1196,
    ensures
        decoded(announcement(by, channels, ping)) == Ok::<_, Error>(
            nominal_frame(
                by.node,
                MessageView::PeerAnnouncement {
                    session: by.session,
                    peer_name: by.peer_name,
                    channels,
                    ping,
                },
            ),
        ),
{
    lemma_announcement_size(by, channels, ping);
    lemma_be_bytes_len((by.peer_name.len() as u32) as nat, 4);
    lemma_be_bytes_len((channels.len() as u32) as nat, 4);
    assert(string_bytes(by.peer_name).len() <= u32::MAX);
    assert(channel_list_bytes(channels).len() <= u32::MAX);
    law_frame_roundtrip(
        nominal_frame(
            by.node,
            MessageView::PeerAnnouncement {
                session: by.session,
                peer_name: by.peer_name,
                channels,
                ping,
            },
        ),
    );
}

/// Whether a datagram is an announcement of ours that asks for a pong or not,
/// and lists a channel or may list any.
pub open spec fn announces(
    bytes: Seq<u8>,
    s: StateView,
    ping: Option<i64>,
    channel: Option<ChannelInfoView>,
) -> bool {
    match decoded(bytes) {
        Ok(f) => {
            &&& f.node == s.node
            &&& f.ttl == 5
            &&& f.group_id == 0
            &&& match f.message {
                MessageView::PeerAnnouncement { session, peer_name, channels, ping: asks } => {
                    &&& session == s.session
                    &&& peer_name == s.audio->0.peer_name
                    &&& ping is Some ==> asks == ping
                    &&& channel matches Some(c) ==> channels.contains(c)
                },
                _ => false,
            }
        },
        Err(_) => false,
    }
}

/// When a round is due, which it is 250 ms after the last one, every session
/// peer with an audio endpoint is told of every published channel, by name and
/// identifier, and is asked for a pong with our time.
#[verifier::rlimit(40)]
pub proof fn law_published_channels_are_announced_to_all(s: StateView, now: i64, e: int, i: int)
    requires
        is_clock(now),
        s.audio is Some,
        audio_ok(s.audio->0),
        now >= s.audio->0.last_announce_at + 250_000,
        0 <= e < s.peers.len(),
        s.peers[e].1.state.session == Some(s.session),
        s.peers[e].1.state.audio_endpoint is Some,
        s.peers[e].0.gateway < s.gateways.len(),
    ensures
        ({
            let a = s.audio->0;
            let t = audio_pass(s, now);
            let to = Outlet::Audio(s.peers[e].1.state.audio_endpoint->0);
            let gateway = s.peers[e].0.gateway;
            &&& t.audio is Some
            &&& t.audio->0.last_announce_at == now
            &&& exists|k: int|
                s.outbox.len() <= k < t.outbox.len() && (#[trigger] t.outbox[k]).gateway == gateway
                    && t.outbox[k].outlet == to && announces(
                    t.outbox[k].bytes,
                    s,
                    Some(now),
                    None,
                )
            &&& 0 <= i < a.sinks.len() ==> exists|k: int|
                s.outbox.len() <= k < t.outbox.len() && (#[trigger] t.outbox[k]).gateway == gateway
                    && t.outbox[k].outlet == to && announces(
                    t.outbox[k].bytes,
                    s,
                    None,
                    Some(ChannelInfoView { name: a.sinks[i].name, id: a.sinks[i].id }),
                )
        }),
{
    let a = s.audio->0;
    let by = announcer(s, a);
    let channels = published(a.sinks);
    let parts = round_parts(by, channels, Some(now));
    assert forall|j: int| 0 <= j < channels.len() implies (#[trigger] channels[j]).name.len()
        <= 256 by {
        assert(sink_ok(a.sinks[j]));
    }
    law_round_covers_channels(by, channels, Some(now));
    let t = audio_pass(s, now);
    let k = lemma_part_is_sent(s, now, e, 0);
    assert(t.outbox[k].gateway == s.peers[e].0.gateway);
    if 0 <= i < a.sinks.len() {
        let c = ChannelInfoView { name: a.sinks[i].name, id: a.sinks[i].id };
        assert(channels[i] == c);
        let p = lemma_part_with(parts, c);
        let k = lemma_part_is_sent(s, now, e, p);
        assert(announces(t.outbox[k].bytes, s, None, Some(c)));
        assert(t.outbox[k].gateway == s.peers[e].0.gateway);
    }
}

/// One message of a round that is due reaches a session peer.
#[verifier::rlimit(40)]
proof fn lemma_part_is_sent(s: StateView, now: i64, e: int, p: int) -> (k: int)
    requires
        is_clock(now),
        s.audio is Some,
        audio_ok(s.audio->0),
        now >= s.audio->0.last_announce_at + 250_000,
        0 <= e < s.peers.len(),
        s.peers[e].1.state.session == Some(s.session),
        s.peers[e].1.state.audio_endpoint is Some,
        s.peers[e].0.gateway < s.gateways.len(),
        0 <= p < round_parts(
            announcer(s, s.audio->0),
            published(s.audio->0.sinks),
            Some(now),
        ).len(),
    ensures
        ({
            let a = s.audio->0;
            let part = round_parts(announcer(s, a), published(a.sinks), Some(now))[p];
            let t = audio_pass(s, now);
            &&& s.outbox.len() <= k < t.outbox.len()
            &&& t.outbox[k].gateway == s.peers[e].0.gateway
            &&& t.outbox[k].outlet == Outlet::Audio(s.peers[e].1.state.audio_endpoint->0)
            &&& announces(t.outbox[k].bytes, s, part.1, None)
            &&& forall|c: ChannelInfoView|
                part.0.contains(c) ==> #[trigger] announces(t.outbox[k].bytes, s, None, Some(c))
        }),
{
    let a = s.audio->0;
    let by = announcer(s, a);
    let channels = published(a.sinks);
    let parts = round_parts(by, channels, Some(now));
    let messages = round_of(by, channels, now);
    let t = audio_pass(s, now);
    let told = announced(s, a, now);
    assert forall|j: int| 0 <= j < channels.len() implies (#[trigger] channels[j]).name.len()
        <= 256 by {
        assert(sink_ok(a.sinks[j]));
    }
    law_round_messages_fit(by, channels, Some(now));
    let part = parts[p];
    assert(announcement(by, part.0, part.1).len() <= 1196);
    lemma_announcement_reads_back(by, part.0, part.1);
    assert(messages[p] == announcement(by, part.0, part.1));
    let asked = AudioView {
        last_announce_at: announce_time(a, now),
        sources: all_refreshed(a.sources, now),
        ..a
    };
    lemma_requests_follow(told, asked, due_requests(a.sources, now), now);
    let k = lemma_peer_is_sent(s, messages, e, p);
    assert(t.outbox[k] == told.outbox[k]);
    k
}

// --------------------------------------------------------------- withdrawals

proof fn lemma_byes_read_back(node: NodeId, channels: Seq<ChannelId>)
    requires
        channels.len() <= 145,
    ensures
        decoded(byes_bytes(node, channels)) == Ok::<_, Error>(
            nominal_frame(node, MessageView::ChannelByes { channels }),
        ),
{
    lemma_be_bytes_len((channels.len() as u32) as nat, 4);
    lemma_ids_len(channels);
    law_frame_roundtrip(nominal_frame(node, MessageView::ChannelByes { channels }));
}

/// Whether a datagram withdraws a channel of ours.
pub open spec fn withdraws(bytes: Seq<u8>, node: NodeId, channel: ChannelId) -> bool {
    match decoded(bytes) {
        Ok(f) => {
            &&& f.node == node
            &&& f.group_id == 0
            &&& f.message matches MessageView::ChannelByes { channels } && channels.contains(
                channel,
            )
        },
        Err(_) => false,
    }
}

/// One message's worth of withdrawals, and the rest.
proof fn lemma_byes_step(s: StateView, channels: Seq<ChannelId>) -> (r: (int, StateView))
    requires
        channels.len() > 0,
    ensures
        0 < r.0 <= channels.len(),
        r.0 <= 145,
        r.1 == sent_to_all(
            s,
            endpoints_of(s.peers, s.session),
            seq![byes_bytes(s.node, channels.take(r.0))],
        ),
        r.1 == (StateView { outbox: r.1.outbox, ..s }),
        s.outbox.is_prefix_of(r.1.outbox),
        byes_sent(s, channels) == byes_sent(r.1, channels.skip(r.0)),
{
    let n = if channels.len() <= BYES_PER_MESSAGE {
        channels.len() as int
    } else {
        BYES_PER_MESSAGE as int
    };
    let endpoints = endpoints_of(s.peers, s.session);
    let messages = seq![byes_bytes(s.node, channels.take(n))];
    let m = sent_to_all(s, endpoints, messages);
    law_every_endpoint_is_sent_every_message(s, endpoints, messages);
    (n, m)
}

/// Withdrawing adds to the outbox; nothing else changes.
pub proof fn lemma_byes_add(s: StateView, channels: Seq<ChannelId>)
    ensures
        byes_sent(s, channels) == (StateView { outbox: byes_sent(s, channels).outbox, ..s }),
        s.outbox.is_prefix_of(byes_sent(s, channels).outbox),
    decreases channels.len(),
{
    if channels.len() > 0 {
        let (n, m) = lemma_byes_step(s, channels);
        let t = byes_sent(s, channels);
        lemma_byes_add(m, channels.skip(n));
        assert forall|k: int| 0 <= k < s.outbox.len() implies s.outbox[k] == t.outbox[k] by {
            assert(m.outbox[k] == s.outbox[k]);
        }
    }
}

/// Every session peer with an audio endpoint is told of every channel that is
/// withdrawn; nothing changes but what is sent.
#[verifier::rlimit(40)]
pub proof fn law_withdrawals_reach_every_peer(
    s: StateView,
    channels: Seq<ChannelId>,
    e: int,
    c: int,
)
    requires
        0 <= e < s.peers.len(),
        s.peers[e].1.state.session == Some(s.session),
        s.peers[e].1.state.audio_endpoint is Some,
        s.peers[e].0.gateway < s.gateways.len(),
        0 <= c < channels.len(),
    ensures
        ({
            let t = byes_sent(s, channels);
            &&& t == (StateView { outbox: t.outbox, ..s })
            &&& s.outbox.is_prefix_of(t.outbox)
            &&& tells_withdrawal(
                s,
                t,
                s.peers[e].0.gateway,
                s.peers[e].1.state.audio_endpoint->0,
                channels[c],
            )
        }),
    decreases channels.len(),
{
    let t = byes_sent(s, channels);
    let ep = s.peers[e].1.state.audio_endpoint->0;
    let gateway = s.peers[e].0.gateway;
    let (n, m) = lemma_byes_step(s, channels);
    let head = channels.take(n);
    let rest = channels.skip(n);
    let messages = seq![byes_bytes(s.node, head)];
    lemma_byes_add(s, channels);
    lemma_byes_add(m, rest);
    if c < n {
        lemma_byes_read_back(s.node, head);
        let k = lemma_peer_is_sent(s, messages, e, 0);
        assert(t.outbox[k] == m.outbox[k]);
        assert(head[c] == channels[c]);
        assert(withdraws(t.outbox[k].bytes, s.node, channels[c]));
        assert(t.outbox[k].gateway == gateway);
    } else {
        law_withdrawals_reach_every_peer(m, rest, e, c - n);
        assert(rest[c - n] == channels[c]);
        let k = choose|k: int|
            m.outbox.len() <= k < t.outbox.len() && (#[trigger] t.outbox[k]).gateway == gateway
                && t.outbox[k].outlet == Outlet::Audio(ep) && withdraws(
                t.outbox[k].bytes,
                m.node,
                rest[c - n],
            );
        assert(t.outbox[k].gateway == gateway);
    }
}

/// No channel is withdrawn but those that are to be.
pub proof fn law_no_other_channel_is_withdrawn(
    s: StateView,
    channels: Seq<ChannelId>,
    k: int,
    c: ChannelId,
)
    requires
        s.outbox.len() <= k < byes_sent(s, channels).outbox.len(),
        withdraws(byes_sent(s, channels).outbox[k].bytes, s.node, c),
    ensures
        channels.contains(c),
    decreases channels.len(),
{
    let t = byes_sent(s, channels);
    let endpoints = endpoints_of(s.peers, s.session);
    let (n, m) = lemma_byes_step(s, channels);
    let head = channels.take(n);
    let rest = channels.skip(n);
    let messages = seq![byes_bytes(s.node, head)];
    lemma_byes_add(m, rest);
    if k < m.outbox.len() {
        assert(t.outbox[k] == m.outbox[k]);
        lemma_byes_read_back(s.node, head);
        law_every_endpoint_is_sent_every_message(s, endpoints, messages);
        assert(m.outbox[k].bytes == messages[0]);
        let y = choose|y: int| 0 <= y < head.len() && head[y] == c;
        assert(channels[y] == c);
    } else {
        law_no_other_channel_is_withdrawn(m, rest, k, c);
        let y = choose|y: int| 0 <= y < rest.len() && rest[y] == c;
        assert(channels[y + n] == c);
    }
}

/// Whether a withdrawal of a channel is newly sent to an audio endpoint.
pub open spec fn tells_withdrawal(
    s: StateView,
    t: StateView,
    gateway: usize,
    ep: SocketAddr,
    channel: ChannelId,
) -> bool {
    exists|k: int|
        s.outbox.len() <= k < t.outbox.len() && (#[trigger] t.outbox[k]).gateway == gateway
            && t.outbox[k].outlet == Outlet::Audio(ep) && withdraws(
            t.outbox[k].bytes,
            s.node,
            channel,
        )
}

// ------------------------------------------------------------------ requests

proof fn lemma_publisher(known: Seq<(Route, KnownChannelView)>, channel: ChannelId)
    ensures
        match publisher_of(known, channel) {
            Some(p) => exists|i: int|
                0 <= i < known.len() && (#[trigger] known[i]).0.id == channel && known[i].1.peer
                    == p,
            None => forall|i: int| 0 <= i < known.len() ==> (#[trigger] known[i]).0.id != channel,
        },
    decreases known.len(),
{
    if known.len() > 0 {
        let rest = known.skip(1);
        lemma_publisher(rest, channel);
        if known[0].0.id != channel {
            match publisher_of(rest, channel) {
                Some(p) => {
                    let i = choose|i: int|
                        0 <= i < rest.len() && (#[trigger] rest[i]).0.id == channel
                            && rest[i].1.peer == p;
                    assert(known[i + 1] == rest[i]);
                },
                None => {
                    assert forall|i: int| 0 <= i < known.len() implies (#[trigger] known[i]).0.id
                        != channel by {
                        if i > 0 {
                            assert(known[i] == rest[i - 1]);
                        }
                    }
                },
            }
        }
    }
}

/// Whether a datagram requests a channel, or withdraws the request.
pub open spec fn requests(bytes: Seq<u8>, node: NodeId, channel: ChannelId, stop: bool) -> bool {
    match decoded(bytes) {
        Ok(f) => {
            &&& f.node == node
            &&& f.group_id == 0
            &&& !stop ==> f.ttl == 5 && f.message == (MessageView::ChannelRequest { channel })
            &&& stop ==> f.message == (MessageView::StopChannelRequest { channel })
        },
        Err(_) => false,
    }
}

/// A request, or its withdrawal, is one datagram to a peer that publishes the
/// channel, over a path to that peer than which none is better. If nobody is
/// known to publish it, or there is no path, nothing is sent. Nothing else
/// changes.
#[verifier::rlimit(40)]
pub proof fn law_request_goes_to_the_publisher(
    s: StateView,
    a: AudioView,
    channel: ChannelId,
    stop: bool,
)
    ensures
        ({
            let t = request_sent(s, a, channel, stop);
            &&& t == (StateView { outbox: t.outbox, ..s })
            &&& (forall|i: int| 0 <= i < a.known.len() ==> (#[trigger] a.known[i]).0.id != channel)
                ==> t == s
            &&& (exists|i: int| 0 <= i < a.known.len() && (#[trigger] a.known[i]).0.id == channel)
                ==> exists|i: int|
                0 <= i < a.known.len() && (#[trigger] a.known[i]).0.id == channel && sent_over_best(
                    s,
                    t,
                    a,
                    a.known[i].1.peer,
                    channel,
                    stop,
                )
        }),
{
    lemma_publisher(a.known, channel);
    let t = request_sent(s, a, channel, stop);
    if let Some(p) = publisher_of(a.known, channel) {
        let i = choose|i: int|
            0 <= i < a.known.len() && (#[trigger] a.known[i]).0.id == channel && a.known[i].1.peer
                == p;
        law_best_path_is_best(s.peers, a.paths, p);
        let m = if stop {
            MessageView::StopChannelRequest { channel }
        } else {
            MessageView::ChannelRequest { channel }
        };
        law_frame_roundtrip(nominal_frame(s.node, m));
        if t.outbox.len() > s.outbox.len() {
            assert(t.outbox.drop_last() =~= s.outbox);
        }
        assert(sent_over_best(s, t, a, p, channel, stop));
    }
}

/// Whether a request was sent to a peer over a path than which none is better,
/// if there is a path to it.
pub open spec fn sent_over_best(
    s: StateView,
    t: StateView,
    a: AudioView,
    peer: NodeId,
    channel: ChannelId,
    stop: bool,
) -> bool {
    if exists|i: int| 0 <= i < s.peers.len() && #[trigger] is_path(s.peers[i], peer) {
        exists|i: int|
            0 <= i < s.peers.len() && #[trigger] is_path(s.peers[i], peer) && is_best(
                s,
                a,
                peer,
                s.peers[i].0.gateway,
            ) && if s.peers[i].0.gateway < s.gateways.len() {
                let d = t.outbox.last();
                &&& t.outbox.len() == s.outbox.len() + 1
                &&& t.outbox.drop_last() == s.outbox
                &&& d.gateway == s.peers[i].0.gateway
                &&& d.outlet == Outlet::Audio(s.peers[i].1.state.audio_endpoint->0)
                &&& requests(d.bytes, s.node, channel, stop)
            } else {
                t == s
            }
    } else {
        t == s
    }
}

/// Whether no path to a peer has a better quality than that through a gateway.
pub open spec fn is_best(s: StateView, a: AudioView, peer: NodeId, gateway: usize) -> bool {
    let quality = |g: usize|
        match lookup(a.paths, Route { id: peer, gateway: g }) {
            Some(stats) => stats.quality,
            None => 0u64,
        };
    forall|i: int|
        0 <= i < s.peers.len() && #[trigger] is_path(s.peers[i], peer) ==> quality(
            s.peers[i].0.gateway,
        ) <= quality(gateway)
}

// --------------------------------------------------------------- application

/// Enabling audio starts without channels, subscriptions or paths, under the
/// name cut to 256 bytes, and tells the others, on every gateway, at what
/// endpoint. Audio that is enabled stays as it is.
pub proof fn law_enabling_audio_tells_the_endpoint(
    s: StateView,
    name: Seq<u8>,
    now: i64,
    i: int,
)
    requires
        s.gateways.len() <= usize::MAX,
    ensures
        ({
            let t = audio_enabled(s, name, now);
            &&& s.audio is Some ==> t == s
            &&& s.audio is None ==> {
                &&& t.audio is Some
                &&& name.len() <= 256 ==> t.audio->0.peer_name == name
                &&& name.len() > 256 ==> t.audio->0.peer_name == name.take(256)
                &&& t.audio->0.sinks.len() == 0
                &&& t.audio->0.sources.len() == 0
                &&& t.audio->0.known.len() == 0
                &&& t.audio->0.paths.len() == 0
                &&& same_but_sent(StateView { audio: t.audio, ..s }, t)
                &&& s.enabled ==> passes_on(s, t)
                &&& s.enabled && now - s.last_broadcast_at >= 50_000 && 0 <= i < s.gateways.len()
                    && is_plain_gateway(s.gateways[i]) ==> match discovery::decoded(
                    t.outbox[s.outbox.len() + i].bytes,
                ) {
                    Ok(f) => f.message matches discovery::Message::Alive(ps) && ps.audio_endpoint
                        == Some(s.gateways[i].audio),
                    Err(_) => false,
                }
            }
        }),
{
    let t = audio_enabled(s, name, now);
    if s.audio is None {
        let m = StateView { audio: t.audio, ..s };
        law_changes_are_told_on_every_gateway(m, now, i);
        if s.enabled {
            lemma_broadcast_passes_on(m, now);
        }
    }
}

/// Disabling audio withdraws every published channel from every session peer,
/// and tells the others that there is no endpoint any more.
#[verifier::rlimit(40)]
pub proof fn law_disabling_audio_withdraws_everything(s: StateView, now: i64, e: int, c: int)
    requires
        s.gateways.len() <= usize::MAX,
        s.audio is Some,
    ensures
        ({
            let t = audio_disabled(s, now);
            &&& t.audio is None
            &&& same_but_sent(StateView { audio: None, ..s }, t)
            &&& s.enabled ==> passes_on(s, t)
            &&& 0 <= e < s.peers.len() && s.peers[e].1.state.session == Some(s.session)
                && s.peers[e].1.state.audio_endpoint is Some && s.peers[e].0.gateway
                < s.gateways.len() && 0 <= c < s.audio->0.sinks.len() ==> tells_withdrawal(
                s,
                t,
                s.peers[e].0.gateway,
                s.peers[e].1.state.audio_endpoint->0,
                s.audio->0.sinks[c].id,
            )
        }),
{
    let t = audio_disabled(s, now);
    let ids = sink_ids(s.audio->0.sinks);
    let shut = audio_shut(s);
    let sent = byes_sent(s, ids);
    lemma_byes_add(s, ids);
    law_changes_are_told_on_every_gateway(shut, now, 0);
    if s.enabled {
        lemma_broadcast_passes_on(shut, now);
    }
    assert(shut.outbox.is_prefix_of(t.outbox));
    if 0 <= e < s.peers.len() && s.peers[e].1.state.session == Some(s.session)
        && s.peers[e].1.state.audio_endpoint is Some && s.peers[e].0.gateway < s.gateways.len()
        && 0 <= c < s.audio->0.sinks.len() {
        law_withdrawals_reach_every_peer(s, ids, e, c);
        let ep = s.peers[e].1.state.audio_endpoint->0;
        let k = choose|k: int|
            s.outbox.len() <= k < sent.outbox.len() && (#[trigger] sent.outbox[k]).gateway
                == s.peers[e].0.gateway && sent.outbox[k].outlet == Outlet::Audio(ep) && withdraws(
                sent.outbox[k].bytes,
                s.node,
                ids[c],
            );
        assert(t.outbox[k] == sent.outbox[k]);
        assert(t.outbox[k].gateway == s.peers[e].0.gateway);
    }
}

/// Publishing adds one channel, under its identifier and its name cut to 256
/// bytes, which nobody requests yet; it is announced with the next pass, and the
/// other channels stay. Without audio nothing happens.
pub proof fn law_publishing_adds_a_channel(s: StateView, name: Seq<u8>, id: ChannelId, i: int)
    ensures
        ({
            let t = channel_published(s, name, id);
            &&& s.audio is None ==> t == s
            &&& s.audio matches Some(a) ==> {
                let b = t.audio->0;
                let new = b.sinks.last();
                &&& t == (StateView { audio: t.audio, ..s })
                &&& t.audio is Some
                &&& b.sinks.len() == a.sinks.len() + 1
                &&& 0 <= i < a.sinks.len() ==> b.sinks[i] == a.sinks[i]
                &&& new.id == id
                &&& name.len() <= 256 ==> new.name == name
                &&& name.len() > 256 ==> new.name == name.take(256)
                &&& new.requesters.len() == 0
                &&& new.segments.len() == 0
                &&& new.next_seq == 1
                &&& b.last_announce_at == 0
                &&& b.sources == a.sources
                &&& b.known == a.known
                &&& b.paths == a.paths
                &&& b.peer_name == a.peer_name
            }
        }),
{
}

/// A channel that is withdrawn is not published any more, and every session peer
/// is told; the other channels stay.
#[verifier::rlimit(40)]
pub proof fn law_withdrawn_channel_is_gone(s: StateView, channel: ChannelId, e: int, i: int)
    requires
        s.audio is Some,
    ensures
        ({
            let a = s.audio->0;
            let t = channel_withdrawn(s, channel);
            let b = t.audio->0;
            &&& t.audio is Some
            &&& t == (StateView { audio: t.audio, outbox: t.outbox, ..s })
            &&& b == (AudioView { sinks: b.sinks, ..a })
            &&& 0 <= i < b.sinks.len() ==> b.sinks[i].id != channel && a.sinks.contains(b.sinks[i])
            &&& 0 <= i < a.sinks.len() && a.sinks[i].id != channel ==> b.sinks.contains(a.sinks[i])
            &&& (exists|j: int| 0 <= j < a.sinks.len() && (#[trigger] a.sinks[j]).id == channel)
                && 0 <= e < s.peers.len() && s.peers[e].1.state.session == Some(s.session)
                && s.peers[e].1.state.audio_endpoint is Some && s.peers[e].0.gateway
                < s.gateways.len() ==> tells_withdrawal(
                s,
                t,
                s.peers[e].0.gateway,
                s.peers[e].1.state.audio_endpoint->0,
                channel,
            )
            &&& (forall|j: int| 0 <= j < a.sinks.len() ==> (#[trigger] a.sinks[j]).id != channel)
                ==> t.outbox == s.outbox
        }),
{
    let a = s.audio->0;
    let t = channel_withdrawn(s, channel);
    let stays = |k: SinkView| k.id != channel;
    let kept = a.sinks.filter(stays);
    a.sinks.filter_lemma(stays);
    let rest = StateView { audio: Some(AudioView { sinks: kept, ..a }), ..s };
    lemma_byes_add(rest, seq![channel]);
    assert(t.audio->0.sinks == kept);
    if 0 <= i < kept.len() {
        assert(stays(kept[i]));
        assert(kept.contains(kept[i]));
        a.sinks.lemma_filter_contains_rev(stays, kept[i]);
    }
    if 0 <= i < a.sinks.len() && a.sinks[i].id != channel {
        assert(stays(a.sinks[i]));
        assert(kept.contains(a.sinks[i]));
    }
    if exists|j: int| 0 <= j < a.sinks.len() && (#[trigger] a.sinks[j]).id == channel {
        let j = choose|j: int| 0 <= j < a.sinks.len() && (#[trigger] a.sinks[j]).id == channel;
        lemma_filter_drops(a.sinks, stays, j);
        if 0 <= e < s.peers.len() && s.peers[e].1.state.session == Some(s.session)
            && s.peers[e].1.state.audio_endpoint is Some && s.peers[e].0.gateway
            < s.gateways.len() {
            law_withdrawals_reach_every_peer(rest, seq![channel], e, 0);
            let gateway = s.peers[e].0.gateway;
            let ep = s.peers[e].1.state.audio_endpoint->0;
            let k = choose|k: int|
                rest.outbox.len() <= k < t.outbox.len() && (#[trigger] t.outbox[k]).gateway
                    == gateway && t.outbox[k].outlet == Outlet::Audio(ep) && withdraws(
                    t.outbox[k].bytes,
                    rest.node,
                    seq![channel][0],
                );
            assert(t.outbox[k].gateway == gateway);
        }
    } else {
        lemma_filter_keeps(a.sinks, stays);
    }
}

proof fn lemma_filter_drops<T>(s: Seq<T>, keep: spec_fn(T) -> bool, i: int)
    requires
        0 <= i < s.len(),
        !keep(s[i]),
    ensures
        s.filter(keep).len() < s.len(),
    decreases s.len(),
{
    reveal(Seq::filter);
    let front = s.drop_last();
    front.filter_lemma(keep);
    lemma_filter_len(front, keep);
    if i < s.len() - 1 {
        assert(front[i] == s[i]);
        lemma_filter_drops(front, keep, i);
    }
}

proof fn lemma_filter_len<T>(s: Seq<T>, keep: spec_fn(T) -> bool)
    ensures
        s.filter(keep).len() <= s.len(),
    decreases s.len(),
{
    reveal(Seq::filter);
    if s.len() > 0 {
        lemma_filter_len(s.drop_last(), keep);
    }
}

proof fn lemma_filter_keeps<T>(s: Seq<T>, keep: spec_fn(T) -> bool)
    requires
        forall|i: int| 0 <= i < s.len() ==> keep(#[trigger] s[i]),
    ensures
        s.filter(keep) == s,
    decreases s.len(),
{
    reveal(Seq::filter);
    if s.len() > 0 {
        let front = s.drop_last();
        assert forall|i: int| 0 <= i < front.len() implies keep(#[trigger] front[i]) by {
            assert(front[i] == s[i]);
        }
        lemma_filter_keeps(front, keep);
        assert(keep(s[s.len() - 1]));
        assert(front.push(s.last()) =~= s);
    }
}

/// Subscribing makes a subscription at the wanted quantum, without chunks or
/// losses, unless there is one, which stays as it is; either way the publisher
/// is asked at once. Other subscriptions stay.
#[verifier::rlimit(40)]
pub proof fn law_subscribing_asks_the_publisher(
    s: StateView,
    channel: ChannelId,
    quantum: i64,
    now: i64,
    other: ChannelId,
)
    requires
        state_ok(s),
        s.audio is Some,
    ensures
        ({
            let a = s.audio->0;
            let t = channel_subscribed(s, channel, quantum, now);
            let b = t.audio->0;
            let before = lookup(a.sources, channel);
            let after = lookup(b.sources, channel);
            &&& t.audio is Some
            &&& b == (AudioView { sources: b.sources, ..a })
            &&& before is Some ==> after == before
            &&& before is None ==> {
                &&& after is Some
                &&& after->0.quantum == quantum
                &&& after->0.last_request_at == now
                &&& after->0.inbox.len() == 0
                &&& after->0.next_seq_expected is None
                &&& after->0.lost_chunks == 0
                &&& is_clock(now) ==> !receiving(t, channel, now)
            }
            &&& other != channel ==> lookup(b.sources, other) == lookup(a.sources, other)
            &&& asks_publisher(StateView { audio: t.audio, ..s }, t, b, channel, false)
        }),
{
    let a = s.audio->0;
    let t = channel_subscribed(s, channel, quantum, now);
    let new = fresh_source(quantum, now);
    law_with(a.sources, channel, new, channel);
    law_with(a.sources, channel, new, other);
    let b = if lookup(a.sources, channel) is Some {
        a
    } else {
        AudioView { sources: with(a.sources, channel, new), ..a }
    };
    law_request_goes_to_the_publisher(StateView { audio: Some(b), ..s }, b, channel, false);
}

/// Whether a request, or its withdrawal, went to a peer that publishes the
/// channel, if any is known to.
pub open spec fn asks_publisher(
    s: StateView,
    t: StateView,
    a: AudioView,
    channel: ChannelId,
    stop: bool,
) -> bool {
    if exists|i: int| 0 <= i < a.known.len() && (#[trigger] a.known[i]).0.id == channel {
        exists|i: int|
            0 <= i < a.known.len() && (#[trigger] a.known[i]).0.id == channel && sent_over_best(
                s,
                t,
                a,
                a.known[i].1.peer,
                channel,
                stop,
            )
    } else {
        t == s
    }
}

/// Dropping a subscription takes it away and withdraws the request; other
/// subscriptions stay. Without one nothing happens.
#[verifier::rlimit(40)]
pub proof fn law_unsubscribing_tells_the_publisher(
    s: StateView,
    channel: ChannelId,
    other: ChannelId,
)
    requires
        state_ok(s),
        s.audio is Some,
    ensures
        ({
            let a = s.audio->0;
            let t = channel_unsubscribed(s, channel);
            let b = t.audio->0;
            &&& t.audio is Some
            &&& b == (AudioView { sources: b.sources, ..a })
            &&& lookup(b.sources, channel) is None
            &&& other != channel ==> lookup(b.sources, other) == lookup(a.sources, other)
            &&& lookup(a.sources, channel) is Some ==> asks_publisher(
                StateView { audio: t.audio, ..s },
                t,
                b,
                channel,
                true,
            )
            &&& lookup(a.sources, channel) is None ==> t.outbox == s.outbox
        }),
{
    let a = s.audio->0;
    law_without(a.sources, channel, channel);
    law_without(a.sources, channel, other);
    let b = AudioView { sources: without(a.sources, channel), ..a };
    law_request_goes_to_the_publisher(StateView { audio: Some(b), ..s }, b, channel, true);
}

/// A subscription receives exactly while its last buffer came within a second.
pub proof fn law_receiving_is_within_a_second(s: StateView, channel: ChannelId, now: i64)
    ensures
        receiving(s, channel, now) <==> (s.audio is Some && lookup(
            s.audio->0.sources,
            channel,
        ) is Some && now - lookup(s.audio->0.sources, channel)->0.last_buffer_at <= 1_000_000),
{
}

// ------------------------------------------------------------------- arrival

/// What an announcement lists, noted: each channel under its last listing, and
/// nothing else.
proof fn lemma_noted(
    known: Seq<(Route, KnownChannelView)>,
    channels: Seq<ChannelInfoView>,
    gateway: usize,
    peer: NodeId,
    peer_name: Seq<u8>,
    deadline: i64,
    i: int,
    other: Route,
)
    requires
        distinct(known),
    ensures
        ({
            let t = channels_noted(known, channels, gateway, peer, peer_name, deadline);
            &&& distinct(t)
            &&& 0 <= i < channels.len() && (forall|j: int|
                i < j < channels.len() ==> (#[trigger] channels[j]).id != channels[i].id) ==> lookup(
                t,
                Route { id: channels[i].id, gateway },
            ) == Some(KnownChannelView { peer, peer_name, name: channels[i].name, deadline })
            &&& (forall|j: int|
                0 <= j < channels.len() ==> (Route { id: (#[trigger] channels[j]).id, gateway })
                    != other) ==> lookup(t, other) == lookup(known, other)
        }),
    decreases channels.len(),
{
    if channels.len() > 0 {
        let front = channels.drop_last();
        let n = channels.len() - 1;
        let c = channels.last();
        let f = channels_noted(known, front, gateway, peer, peer_name, deadline);
        let v = KnownChannelView { peer, peer_name, name: c.name, deadline };
        let route = Route { id: c.id, gateway };
        lemma_noted(known, front, gateway, peer, peer_name, deadline, i, other);
        law_with(f, route, v, other);
        assert(channels[n] == c);
        if 0 <= i < channels.len() {
            let mine = Route { id: channels[i].id, gateway };
            law_with(f, route, v, mine);
            if i < n && forall|j: int|
                i < j < channels.len() ==> (#[trigger] channels[j]).id != channels[i].id {
                assert(channels[n].id != channels[i].id);
                assert(front[i] == channels[i]);
                assert forall|j: int| i < j < front.len() implies (#[trigger] front[j]).id
                    != front[i].id by {
                    assert(front[j] == channels[j]);
                }
            }
        }
        if forall|j: int|
            0 <= j < channels.len() ==> (Route { id: (#[trigger] channels[j]).id, gateway })
                != other {
            assert((Route { id: channels[n].id, gateway }) != other);
            assert forall|j: int| 0 <= j < front.len() implies (Route {
                id: (#[trigger] front[j]).id,
                gateway,
            }) != other by {
                assert(front[j] == channels[j]);
            }
        }
    }
}

/// Whether a datagram is an audio message of another peer of our group.
pub open spec fn is_from_another(s: StateView, buf: Seq<u8>) -> bool {
    decoded(buf) matches Ok(f) && f.node != s.node && f.group_id == 0
}

/// An announcement from the endpoint that its sender gossiped makes every
/// channel it lists known, through the gateway it came by, under its sender's
/// name and its own, for as long as its ttl says; what else is known stays. From
/// any other endpoint it makes nothing known. Its ping is answered in any case,
/// to where it came from, with the time it asks for.
#[verifier::rlimit(40)]
pub proof fn law_announcement_makes_channels_known(
    s: StateView,
    gw: usize,
    src: SocketAddr,
    buf: Seq<u8>,
    now: i64,
    i: int,
    other: Route,
)
    requires
        is_clock(now),
        state_ok(s),
        s.enabled,
        s.audio is Some,
        is_from_another(s, buf),
        decoded(buf)->Ok_0.message is PeerAnnouncement,
    ensures
        ({
            let f = decoded(buf)->Ok_0;
            let channels = f.message->PeerAnnouncement_channels;
            let t = audio_received(s, gw, src, buf, now);
            let a = s.audio->0;
            let b = t.audio->0;
            let admitted = lookup(s.peers, Route { id: f.node, gateway: gw }) matches Some(e)
                && e.state.audio_endpoint == Some(src);
            &&& t == (StateView { audio: t.audio, outbox: t.outbox, ..s })
            &&& t.audio is Some
            &&& b == (AudioView { known: b.known, ..a })
            &&& !admitted ==> b.known == a.known
            &&& admitted && 0 <= i < channels.len() && (forall|j: int|
                i < j < channels.len() ==> (#[trigger] channels[j]).id != channels[i].id) ==> lookup(
                b.known,
                Route { id: channels[i].id, gateway: gw },
            ) == Some(
                KnownChannelView {
                    peer: f.node,
                    peer_name: f.message->PeerAnnouncement_peer_name,
                    name: channels[i].name,
                    deadline: (now + f.ttl * 1_000_000) as i64,
                },
            )
            &&& (forall|j: int|
                0 <= j < channels.len() ==> (Route { id: (#[trigger] channels[j]).id, gateway: gw })
                    != other) ==> lookup(b.known, other) == lookup(a.known, other)
            &&& match f.message->ping {
                Some(ht) => if gw < s.gateways.len() {
                    let d = t.outbox.last();
                    &&& t.outbox == s.outbox.push(d)
                    &&& d.gateway == gw
                    &&& d.outlet == Outlet::Audio(src)
                    &&& decoded(d.bytes) matches Ok(p) && p.node == s.node && p.group_id == 0
                        && p.message == (MessageView::Pong { host_time: ht })
                } else {
                    t.outbox == s.outbox
                },
                None => t.outbox == s.outbox,
            }
        }),
{
    let f = decoded(buf)->Ok_0;
    if let MessageView::PeerAnnouncement { session, peer_name, channels, ping } = f.message {
        lemma_noted(
            s.audio->0.known,
            channels,
            gw,
            f.node,
            peer_name,
            (now + f.ttl * 1_000_000) as i64,
            i,
            other,
        );
        if let Some(ht) = ping {
            law_frame_roundtrip(nominal_frame(s.node, MessageView::Pong { host_time: ht }));
        }
    }
}

/// A pong adds one round trip, by our own clock and never negative, to those of
/// the path it came by; the latest ten are kept, oldest first. Other paths, and
/// everything else, stay.
#[verifier::rlimit(40)]
pub proof fn law_pong_adds_a_round_trip(
    s: StateView,
    gw: usize,
    src: SocketAddr,
    buf: Seq<u8>,
    now: i64,
    k: int,
    other: Route,
)
    requires
        is_clock(now),
        state_ok(s),
        s.enabled,
        s.audio is Some,
        is_from_another(s, buf),
        decoded(buf)->Ok_0.message is Pong,
        decoded(buf)->Ok_0.message->Pong_host_time >= 0,
    ensures
        ({
            let f = decoded(buf)->Ok_0;
            let ht = f.message->Pong_host_time;
            let t = audio_received(s, gw, src, buf, now);
            let a = s.audio->0;
            let b = t.audio->0;
            let route = Route { id: f.node, gateway: gw };
            let before = match lookup(a.paths, route) {
                Some(stats) => stats.rtts,
                None => Seq::empty(),
            };
            let after = lookup(b.paths, route);
            let n = before.len() as int;
            &&& t == (StateView { audio: t.audio, ..s })
            &&& t.audio is Some
            &&& b == (AudioView { paths: b.paths, ..a })
            &&& after is Some
            &&& after->0.rtts.len() == if n < 10 {
                n + 1
            } else {
                10
            }
            &&& after->0.rtts.last() == if now >= ht {
                now - ht
            } else {
                0
            }
            &&& 0 <= k < after->0.rtts.len() - 1 ==> after->0.rtts[k] == before[k + n + 1
                - after->0.rtts.len()]
            &&& lookup(a.paths, route) matches Some(stats) ==> after->0.quality == stats.quality
            &&& lookup(a.paths, route) is None ==> after->0.quality == 0
            &&& other != route ==> lookup(b.paths, other) == lookup(a.paths, other)
        }),
{
    let f = decoded(buf)->Ok_0;
    let ht = f.message->Pong_host_time;
    let a = s.audio->0;
    let route = Route { id: f.node, gateway: gw };
    let stats = match lookup(a.paths, route) {
        Some(stats) => stats,
        None => no_trips(),
    };
    lemma_wrap64_fits(now - ht);
    let rtt = round_trip(now, ht);
    let new = with_trip(stats, rtt);
    law_with(a.paths, route, new, route);
    law_with(a.paths, route, new, other);
    lemma_place(a.paths, route);
}

/// Withdrawals take away the listed channels of their sender, as known through
/// the gateway they came by, and nothing else.
pub proof fn law_withdrawal_takes_the_listed_channels_away(
    s: StateView,
    gw: usize,
    src: SocketAddr,
    buf: Seq<u8>,
    now: i64,
    e: (Route, KnownChannelView),
)
    requires
        s.enabled,
        s.audio is Some,
        is_from_another(s, buf),
        decoded(buf)->Ok_0.message is ChannelByes,
    ensures
        ({
            let f = decoded(buf)->Ok_0;
            let channels = f.message->ChannelByes_channels;
            let t = audio_received(s, gw, src, buf, now);
            let a = s.audio->0;
            let b = t.audio->0;
            &&& t == (StateView { audio: t.audio, ..s })
            &&& t.audio is Some
            &&& b == (AudioView { known: b.known, ..a })
            &&& b.known.contains(e) <==> a.known.contains(e) && !(e.0.gateway == gw && e.1.peer
                == f.node && channels.contains(e.0.id))
        }),
{
    let f = decoded(buf)->Ok_0;
    let channels = f.message->ChannelByes_channels;
    let a = s.audio->0;
    let stays = |e: (Route, KnownChannelView)|
        !(e.0.gateway == gw && e.1.peer == f.node && channels.contains(e.0.id));
    let t = audio_received(s, gw, src, buf, now);
    a.known.filter_lemma(stays);
    assert(t.audio->0.known =~= a.known.filter(stays));
    if a.known.contains(e) && stays(e) {
        let i = choose|i: int| 0 <= i < a.known.len() && a.known[i] == e;
        assert(stays(a.known[i]));
        assert(a.known.filter(stays).contains(a.known[i]));
    }
    if a.known.filter(stays).contains(e) {
        a.known.lemma_filter_contains_rev(stays, e);
        let i = choose|i: int|
            0 <= i < a.known.filter(stays).len() && a.known.filter(stays)[i] == e;
        assert(stays(a.known.filter(stays)[i]));
    }
}

/// A request for a channel that is published is noted, for its sender, for as
/// long as its ttl says, and its withdrawal takes it away; requests of others,
/// other channels and everything else stay. One for no channel of ours does
/// nothing.
#[verifier::rlimit(40)]
pub proof fn law_requests_are_noted(
    s: StateView,
    gw: usize,
    src: SocketAddr,
    buf: Seq<u8>,
    now: i64,
    i: int,
    other: NodeId,
)
    requires
        is_clock(now),
        state_ok(s),
        s.enabled,
        s.audio is Some,
        is_from_another(s, buf),
        decoded(buf)->Ok_0.message is ChannelRequest
            || decoded(buf)->Ok_0.message is StopChannelRequest,
        0 <= i < s.audio->0.sinks.len(),
    ensures
        ({
            let f = decoded(buf)->Ok_0;
            let stop = f.message is StopChannelRequest;
            let channel = match f.message {
                MessageView::ChannelRequest { channel } => channel,
                MessageView::StopChannelRequest { channel } => channel,
                _ => arbitrary(),
            };
            let t = audio_received(s, gw, src, buf, now);
            let before = s.audio->0.sinks[i];
            let after = t.audio->0.sinks[i];
            let first = before.id == channel && forall|j: int|
                0 <= j < i ==> (#[trigger] s.audio->0.sinks[j]).id != channel;
            &&& t == (StateView { audio: t.audio, ..s })
            &&& t.audio is Some
            &&& t.audio->0 == (AudioView { sinks: t.audio->0.sinks, ..s.audio->0 })
            &&& t.audio->0.sinks.len() == s.audio->0.sinks.len()
            &&& after == (SinkView { requesters: after.requesters, ..before })
            &&& !first ==> after == before
            &&& first && !stop ==> lookup(after.requesters, f.node) == Some(
                (now + f.ttl * 1_000_000) as i64,
            )
            &&& first && stop ==> lookup(after.requesters, f.node) is None
            &&& first && other != f.node ==> lookup(after.requesters, other) == lookup(
                before.requesters,
                other,
            )
        }),
{
    let f = decoded(buf)->Ok_0;
    let a = s.audio->0;
    let channel = match f.message {
        MessageView::ChannelRequest { channel } => channel,
        MessageView::StopChannelRequest { channel } => channel,
        _ => arbitrary(),
    };
    lemma_first_sink(a.sinks, channel, i);
    let n = sink_place(a.sinks, channel);
    if n < a.sinks.len() {
        assert(sink_ok(a.sinks[n]));
        let r = a.sinks[n].requesters;
        let d = (now + f.ttl * 1_000_000) as i64;
        law_with(r, f.node, d, f.node);
        law_with(r, f.node, d, other);
        law_without(r, f.node, f.node);
        law_without(r, f.node, other);
    }
}

proof fn lemma_first_sink(sinks: Seq<SinkView>, channel: ChannelId, i: int)
    ensures
        0 <= sink_place(sinks, channel) <= sinks.len(),
        0 <= i < sinks.len() ==> ((i == sink_place(sinks, channel)) <==> (sinks[i].id == channel
            && forall|j: int| 0 <= j < i ==> (#[trigger] sinks[j]).id != channel)),
    decreases sinks.len(),
{
    if sinks.len() > 0 && sinks[0].id != channel {
        let rest = sinks.skip(1);
        lemma_first_sink(rest, channel, i - 1);
        if 0 < i < sinks.len() {
            assert(rest[i - 1] == sinks[i]);
            assert((forall|j: int| 0 <= j < i ==> (#[trigger] sinks[j]).id != channel) ==> (forall|
                j: int,
            |
                0 <= j < i - 1 ==> (#[trigger] rest[j]).id != channel)) by {
                if forall|j: int| 0 <= j < i ==> (#[trigger] sinks[j]).id != channel {
                    assert forall|j: int| 0 <= j < i - 1 implies (#[trigger] rest[j]).id
                        != channel by {
                        assert(rest[j] == sinks[j + 1]);
                    }
                }
            }
            assert((forall|j: int| 0 <= j < i - 1 ==> (#[trigger] rest[j]).id != channel) ==> (
            forall|j: int| 0 <= j < i ==> (#[trigger] sinks[j]).id != channel)) by {
                if forall|j: int| 0 <= j < i - 1 ==> (#[trigger] rest[j]).id != channel {
                    assert forall|j: int| 0 <= j < i implies (#[trigger] sinks[j]).id != channel by {
                        if j > 0 {
                            assert(sinks[j] == rest[j - 1]);
                        }
                    }
                }
            }
        }
    }
}

/// A buffer touches the subscription of its channel alone, and nothing where
/// there is none or the session is another.
pub proof fn law_buffer_touches_its_subscription_alone(
    s: StateView,
    gw: usize,
    src: SocketAddr,
    buf: Seq<u8>,
    now: i64,
    other: ChannelId,
)
    requires
        state_ok(s),
        s.enabled,
        s.audio is Some,
        is_from_another(s, buf),
        decoded(buf)->Ok_0.message is AudioBuffer,
    ensures
        ({
            let b = decoded(buf)->Ok_0.message->AudioBuffer_0;
            let t = audio_received(s, gw, src, buf, now);
            &&& t == (StateView { audio: t.audio, ..s })
            &&& t.audio is Some
            &&& t.audio->0 == (AudioView { sources: t.audio->0.sources, ..s.audio->0 })
            &&& other != b.channel ==> lookup(t.audio->0.sources, other) == lookup(
                s.audio->0.sources,
                other,
            )
            &&& b.session != s.session || lookup(s.audio->0.sources, b.channel) is None ==> t == s
        }),
{
    let b = decoded(buf)->Ok_0.message->AudioBuffer_0;
    if let Some(source) = lookup(s.audio->0.sources, b.channel) {
        law_with(
            s.audio->0.sources,
            b.channel,
            delivered(source, b, s.timeline, now),
            other,
        );
    }
}

// ------------------------------------------------------------------- passes

/// A request that is due is among those that go out.
proof fn lemma_due(
    sources: Seq<(ChannelId, SourceView)>,
    now: i64,
    i: int,
) -> (x: int)
    requires
        0 <= i < sources.len(),
        now >= sources[i].1.last_request_at + 5_000_000,
    ensures
        0 <= x < due_requests(sources, now).len(),
        due_requests(sources, now)[x] == sources[i].0,
    decreases sources.len(),
{
    let front = sources.drop_last();
    if i < front.len() {
        assert(front[i] == sources[i]);
        lemma_due(front, now, i)
    } else {
        due_requests(front, now).len() as int
    }
}

proof fn lemma_requests_up_to(s: StateView, a: AudioView, due: Seq<ChannelId>, x: int, now: i64)
    requires
        0 <= x < due.len(),
    ensures
        ({
            let before = requests_sent(s, a, due.take(x));
            let after = request_sent(before, a, due[x], false);
            let t = requests_sent(s, a, due);
            &&& before == (StateView { outbox: before.outbox, ..s })
            &&& s.outbox.is_prefix_of(before.outbox)
            &&& after.outbox.is_prefix_of(t.outbox)
        }),
    decreases due.len(),
{
    let front = due.drop_last();
    let f = requests_sent(s, a, front);
    let t = requests_sent(s, a, due);
    if x < front.len() {
        lemma_requests_up_to(s, a, front, x, now);
        assert(front.take(x) =~= due.take(x));
        assert(f.outbox.is_prefix_of(t.outbox));
        let after = request_sent(requests_sent(s, a, due.take(x)), a, due[x], false);
        assert forall|k: int| 0 <= k < after.outbox.len() implies after.outbox[k]
            == t.outbox[k] by {
            assert(after.outbox[k] == f.outbox[k]);
        }
    } else {
        assert(due.take(x) =~= front);
        lemma_requests_follow(s, a, front, now);
        lemma_requests_sent(s, a, front);
    }
}

/// A subscription is asked for again five seconds after the last time: one
/// datagram more goes to a publisher of the channel, over a path to it, and the
/// time is noted. Before that nothing is noted.
#[verifier::rlimit(40)]
pub proof fn law_subscriptions_are_asked_for_again(s: StateView, now: i64, i: int, p: NodeId)
    requires
        s.audio is Some,
        0 <= i < s.audio->0.sources.len(),
    ensures
        ({
            let a = s.audio->0;
            let channel = a.sources[i].0;
            let t = audio_pass(s, now);
            let before = a.sources[i].1;
            let after = t.audio->0.sources[i].1;
            &&& t.audio is Some
            &&& t.audio->0.sources.len() == a.sources.len()
            &&& t.audio->0.sources[i].0 == channel
            &&& after == (SourceView {
                last_request_at: after.last_request_at,
                ..before
            })
            &&& now < before.last_request_at + 5_000_000 ==> after == before
            &&& now >= before.last_request_at + 5_000_000 ==> after.last_request_at == now
            &&& now >= before.last_request_at + 5_000_000 && (exists|j: int|
                0 <= j < a.known.len() && (#[trigger] a.known[j]).0.id == channel) && (forall|j: int|
                0 <= j < a.known.len() && (#[trigger] a.known[j]).0.id == channel
                    ==> a.known[j].1.peer == p) && (exists|j: int|
                0 <= j < s.peers.len() && #[trigger] is_path(s.peers[j], p)) && (forall|j: int|
                0 <= j < s.peers.len() ==> (#[trigger] s.peers[j]).0.gateway < s.gateways.len())
                ==> exists|k: int|
                s.outbox.len() <= k < t.outbox.len() && requests(
                    (#[trigger] t.outbox[k]).bytes,
                    s.node,
                    channel,
                    false,
                ) && exists|j: int|
                    0 <= j < s.peers.len() && #[trigger] is_path(s.peers[j], p)
                        && t.outbox[k].gateway == s.peers[j].0.gateway && t.outbox[k].outlet
                        == Outlet::Audio(s.peers[j].1.state.audio_endpoint->0)
        }),
{
    let a = s.audio->0;
    let channel = a.sources[i].0;
    let t = audio_pass(s, now);
    if now >= a.sources[i].1.last_request_at + 5_000_000 && (exists|j: int|
        0 <= j < a.known.len() && (#[trigger] a.known[j]).0.id == channel) && (forall|j: int|
        0 <= j < a.known.len() && (#[trigger] a.known[j]).0.id == channel ==> a.known[j].1.peer
            == p) && (exists|j: int|
        0 <= j < s.peers.len() && #[trigger] is_path(s.peers[j], p)) && (forall|j: int|
        0 <= j < s.peers.len() ==> (#[trigger] s.peers[j]).0.gateway < s.gateways.len()) {
        let told = announced(s, a, now);
        let asked = AudioView {
            last_announce_at: announce_time(a, now),
            sources: all_refreshed(a.sources, now),
            ..a
        };
        let due = due_requests(a.sources, now);
        let x = lemma_due(a.sources, now, i);
        let messages = round_of(announcer(s, a), published(a.sinks), now);
        lemma_sent_to_all(s, endpoints_of(s.peers, s.session), messages);
        lemma_sent_all_follows(s, endpoints_of(s.peers, s.session), messages, now);
        assert(told == (StateView { outbox: told.outbox, ..s }));
        assert(s.outbox.is_prefix_of(told.outbox));
        lemma_requests_up_to(told, asked, due, x, now);
        let before = requests_sent(told, asked, due.take(x));
        let after = request_sent(before, asked, channel, false);
        lemma_publisher(a.known, channel);
        law_best_path_is_best(s.peers, a.paths, p);
        law_frame_roundtrip(nominal_frame(s.node, MessageView::ChannelRequest { channel }));
        let k = before.outbox.len() as int;
        assert(after.outbox.len() == k + 1);
        assert(t.outbox[k] == after.outbox[k]);
        assert(requests(t.outbox[k].bytes, s.node, channel, false));
        assert(s.outbox.len() <= told.outbox.len() <= before.outbox.len());
    }
}

/// An audio pass drops the requests and the known channels whose time was over
/// a second ago and keeps those whose time is not over; it makes up none, and
/// changes nothing else of the channels.
#[verifier::rlimit(40)]
pub proof fn law_pass_drops_expired_requests_and_channels(s: StateView, now: i64, i: int, j: int)
    requires
        s.audio is Some,
    ensures
        ({
            let a = s.audio->0;
            let b = audio_pass(s, now).audio->0;
            &&& audio_pass(s, now).audio is Some
            &&& b.sinks.len() == a.sinks.len()
            &&& b.paths == a.paths
            &&& b.peer_name == a.peer_name
            &&& 0 <= i < a.sinks.len() ==> {
                let before = a.sinks[i];
                let after = b.sinks[i];
                &&& after == (SinkView { requesters: after.requesters, ..before })
                &&& 0 <= j < before.requesters.len() && before.requesters[j].1 > now
                    ==> after.requesters.contains(before.requesters[j])
                &&& 0 <= j < after.requesters.len() ==> after.requesters[j].1 + 1_000_000 > now
                    && before.requesters.contains(after.requesters[j])
            }
            &&& 0 <= j < a.known.len() && a.known[j].1.deadline > now ==> b.known.contains(
                a.known[j],
            )
            &&& 0 <= j < b.known.len() ==> b.known[j].1.deadline + 1_000_000 > now
                && a.known.contains(b.known[j])
        }),
{
    let a = s.audio->0;
    let b = audio_pass(s, now).audio->0;
    law_known_channels_expire(a.known, now, j);
    if 0 <= i < a.sinks.len() {
        law_requests_expire(a.sinks[i], now, j);
        let before = a.sinks[i].requesters;
        let after = b.sinks[i].requesters;
        if 0 <= j < after.len() {
            if after == before {
                assert(before.contains(before[j]));
            } else {
                let live = |e: (NodeId, i64)| e.1 > now;
                assert(after.contains(after[j]));
                before.lemma_filter_contains_rev(live, after[j]);
            }
        }
    }
    if 0 <= j < b.known.len() {
        if b.known == a.known {
            assert(a.known.contains(a.known[j]));
        } else {
            let live = |k: (Route, KnownChannelView)| k.1.deadline > now;
            assert(b.known.contains(b.known[j]));
            a.known.lemma_filter_contains_rev(live, b.known[j]);
        }
    }
}

proof fn lemma_next_request(
    sources: Seq<(ChannelId, SourceView)>,
    next: i64,
    i: int,
)
    requires
        forall|j: int|
            0 <= j < sources.len() ==> is_clock((#[trigger] sources[j]).1.last_request_at),
    ensures
        next_request(sources, next) <= next,
        0 <= i < sources.len() ==> next_request(sources, next) <= sources[i].1.last_request_at
            + 5_000_000,
    decreases sources.len(),
{
    if sources.len() > 0 {
        let front = sources.drop_last();
        assert(sources[sources.len() - 1] == sources.last());
        assert forall|j: int| 0 <= j < front.len() implies is_clock(
            (#[trigger] front[j]).1.last_request_at,
        ) by {
            assert(front[j] == sources[j]);
        }
        lemma_next_request(front, next, i);
        if 0 <= i < front.len() {
            assert(front[i] == sources[i]);
        }
    }
}

proof fn lemma_next_prune(sinks: Seq<SinkView>, next: i64, i: int)
    requires
        forall|j: int| 0 <= j < sinks.len() ==> sink_ok(#[trigger] sinks[j]),
    ensures
        next_prune(sinks, next) <= next,
        0 <= i < sinks.len() ==> (earliest_expiry(sinks[i].requesters) matches Some(e)
            ==> next_prune(sinks, next) <= e + 1_000_000),
    decreases sinks.len(),
{
    if sinks.len() > 0 {
        let front = sinks.drop_last();
        let last = sinks[sinks.len() - 1];
        assert(last == sinks.last());
        assert(sink_ok(last));
        assert forall|j: int| 0 <= j < front.len() implies sink_ok(
            #[trigger] front[j],
        ) by {
            assert(front[j] == sinks[j]);
        }
        lemma_next_prune(front, next, i);
        lemma_expiry_is_some(last.requesters);
        if let Some(e) = earliest_expiry(last.requesters) {
            let r = choose|r: int|
                0 <= r < last.requesters.len() && (#[trigger] last.requesters[r]).1 == e;
            assert(is_deadline(last.requesters[r].1, 255_000_000));
        }
        if 0 <= i < front.len() {
            assert(front[i] == sinks[i]);
        }
    }
}

/// The next audio pass is never wanted later than something is due: a round of
/// announcements, a request, or the end of a request or a known channel.
#[verifier::rlimit(40)]
pub proof fn law_next_audio_pass_is_not_late(s: StateView, now: i64, i: int, j: int)
    requires
        is_clock(now),
        s.audio is Some,
        audio_ok(s.audio->0),
        audio_ok(audio_pass(s, now).audio->0),
    ensures
        ({
            let b = audio_pass(s, now).audio->0;
            let next = audio_deadline(s, now);
            &&& next <= b.last_announce_at + 250_000
            &&& 0 <= i < b.sources.len() ==> next <= b.sources[i].1.last_request_at + 5_000_000
            &&& 0 <= i < b.sinks.len() && 0 <= j < b.sinks[i].requesters.len() ==> next
                <= b.sinks[i].requesters[j].1 + 1_000_000
            &&& 0 <= i < b.known.len() ==> next <= b.known[i].1.deadline + 1_000_000
        }),
{
    let b = audio_pass(s, now).audio->0;
    let t1 = next_request(b.sources, (b.last_announce_at + 250_000) as i64);
    assert forall|k: int| 0 <= k < b.sources.len() implies is_clock(
        (#[trigger] b.sources[k]).1.last_request_at,
    ) by {
        assert(source_ok(b.sources[k].1));
    }
    lemma_next_request(b.sources, (b.last_announce_at + 250_000) as i64, i);
    lemma_next_prune(b.sinks, t1, i);
    if 0 <= i < b.sinks.len() && 0 <= j < b.sinks[i].requesters.len() {
        lemma_earliest_expiry(b.sinks[i].requesters, j);
    }
    lemma_known_is_some(b.known);
    if let Some(e) = earliest_known(b.known) {
        let r = choose|r: int| 0 <= r < b.known.len() && (#[trigger] b.known[r]).1.deadline == e;
        assert(is_deadline(b.known[r].1.deadline, 255_000_000));
    }
    if 0 <= i < b.known.len() {
        lemma_earliest_known(b.known, i);
    }
}

proof fn lemma_nodes_gone_keeps(s: StateView, nodes: Seq<NodeId>)
    ensures
        (nodes_gone(s, nodes).audio is Some) == (s.audio is Some),
        nodes_gone(s, nodes).audio matches Some(b) ==> b == (AudioView {
            known: b.known,
            paths: b.paths,
            ..s.audio->0
        }),
    decreases nodes.len(),
{
    if nodes.len() > 0 {
        lemma_nodes_gone_keeps(s, nodes.drop_last());
    }
}

/// The audio state that a pass works on.
#[verifier::rlimit(40)]
proof fn lemma_core_audio(s: StateView, now: i64, fresh: NodeId)
    requires
        is_clock(now),
        state_ok(s),
        s.enabled,
    ensures
        ({
            let core = core_pass(s, now, fresh);
            &&& (core.audio is Some) == (s.audio is Some)
            &&& core.audio matches Some(b) ==> audio_ok(b) && b == (AudioView {
                known: b.known,
                paths: b.paths,
                ..s.audio->0
            })
            &&& core.gateways == s.gateways
            &&& s.outbox.is_prefix_of(core.outbox)
        }),
{
    lemma_pruned_audio(alive_kept(s, now), now, fresh);
    lemma_core_pass_follows(s, now, fresh);
    lemma_later_steps_keep_audio(peers_pruned(alive_kept(s, now), now, fresh), now);
}

proof fn lemma_pruned_audio(s: StateView, now: i64, fresh: NodeId)
    requires
        s.audio matches Some(a) ==> audio_ok(a),
    ensures
        ({
            let t = peers_pruned(s, now, fresh);
            &&& (t.audio is Some) == (s.audio is Some)
            &&& t.audio matches Some(b) ==> audio_ok(b) && b == (AudioView {
                known: b.known,
                paths: b.paths,
                ..s.audio->0
            })
        }),
{
    let live = StateView { peers: live_peers(s.peers, now), ..s };
    let nodes = expired_nodes(s.peers, now);
    lemma_nodes_gone_audio(live, nodes);
    lemma_nodes_gone_keeps(live, nodes);
    let gone = nodes_gone(live, nodes);
    assert(loss_checked(gone, now, fresh).audio == gone.audio);
}

proof fn lemma_later_steps_keep_audio(s: StateView, now: i64)
    ensures
        next_started(
            remeasure_kept(
                retry_kept(s, now),
                now,
            ),
            now,
        ).audio == s.audio,
{
}

/// A whole pass, too, tells every session peer that is still there of every
/// published channel, when a round is due.
#[verifier::rlimit(40)]
pub proof fn law_pass_announces_the_channels(s: StateView, now: i64, fresh: NodeId, e: int, i: int)
    requires
        is_clock(now),
        state_ok(s),
        s.enabled,
        s.audio is Some,
        now >= s.audio->0.last_announce_at + 250_000,
        0 <= e < s.peers.len(),
        s.peers[e].1.state.session == Some(s.session),
        s.peers[e].1.state.audio_endpoint is Some,
        s.peers[e].0.gateway < s.gateways.len(),
        s.peers[e].1.deadline > now,
        0 <= i < s.audio->0.sinks.len(),
    ensures
        ({
            let a = s.audio->0;
            let t = passed(s, now, fresh);
            &&& t.audio is Some
            &&& t.audio->0.last_announce_at == now
            &&& exists|k: int|
                s.outbox.len() <= k < t.outbox.len() && (#[trigger] t.outbox[k]).gateway
                    == s.peers[e].0.gateway && t.outbox[k].outlet == Outlet::Audio(
                    s.peers[e].1.state.audio_endpoint->0,
                ) && announces(
                    t.outbox[k].bytes,
                    s,
                    None,
                    Some(ChannelInfoView { name: a.sinks[i].name, id: a.sinks[i].id }),
                )
        }),
{
    let core = core_pass(s, now, fresh);
    let t = passed(s, now, fresh);
    lemma_core_audio(s, now, fresh);
    law_pass_drops_silent_peers(s, now, fresh, e);
    law_pass_leaves_a_lost_session(s, now, fresh);
    lemma_audio_pass(core, now);
    assert(s.peers[e].1.state.session == Some(s.session));
    assert(t.session == s.session);
    let f = choose|f: int| 0 <= f < t.peers.len() && t.peers[f] == s.peers[e];
    assert(core.peers[f] == s.peers[e]);
    law_published_channels_are_announced_to_all(core, now, f, i);
    let c = ChannelInfoView { name: s.audio->0.sinks[i].name, id: s.audio->0.sinks[i].id };
    let k = choose|k: int|
        core.outbox.len() <= k < t.outbox.len() && (#[trigger] t.outbox[k]).gateway
            == core.peers[f].0.gateway && t.outbox[k].outlet == Outlet::Audio(
            core.peers[f].1.state.audio_endpoint->0,
        ) && announces(t.outbox[k].bytes, core, None, Some(c));
    assert(announces(t.outbox[k].bytes, s, None, Some(c)));
    assert(s.outbox.len() <= core.outbox.len());
    assert(t.outbox[k].gateway == s.peers[e].0.gateway);
}

/// A whole pass, too, ends requests that ran out a second ago and notes when
/// subscriptions were asked for again.
#[verifier::rlimit(40)]
pub proof fn law_pass_looks_after_audio(s: StateView, now: i64, fresh: NodeId, i: int, j: int)
    requires
        is_clock(now),
        state_ok(s),
        s.enabled,
        s.audio is Some,
    ensures
        ({
            let a = s.audio->0;
            let b = passed(s, now, fresh).audio->0;
            &&& passed(s, now, fresh).audio is Some
            &&& b.sinks.len() == a.sinks.len()
            &&& b.sources.len() == a.sources.len()
            &&& 0 <= i < a.sinks.len() && 0 <= j < b.sinks[i].requesters.len()
                ==> b.sinks[i].requesters[j].1 + 1_000_000 > now
            &&& 0 <= i < a.sinks.len() && 0 <= j < a.sinks[i].requesters.len()
                && a.sinks[i].requesters[j].1 > now ==> b.sinks[i].requesters.contains(
                a.sinks[i].requesters[j],
            )
            &&& 0 <= i < a.sources.len() ==> b.sources[i].0 == a.sources[i].0
                && b.sources[i].1.inbox == a.sources[i].1.inbox
            &&& 0 <= i < a.sources.len() && now >= a.sources[i].1.last_request_at + 5_000_000
                ==> b.sources[i].1.last_request_at == now
            &&& 0 <= i < b.known.len() ==> b.known[i].1.deadline + 1_000_000 > now
        }),
{
    let core = core_pass(s, now, fresh);
    lemma_core_audio(s, now, fresh);
    law_pass_drops_expired_requests_and_channels(core, now, i, j);
    law_pass_drops_expired_requests_and_channels(core, now, i, i);
    if 0 <= i < s.audio->0.sources.len() {
        law_subscriptions_are_asked_for_again(core, now, i, s.node);
    }
}

// ------------------------------------------------------------------- writing

proof fn lemma_pending_push(segments: Seq<SegmentView>, seg: SegmentView)
    ensures
        pending(segments.push(seg)) == pending(segments) + seg.samples,
    decreases segments.len(),
{
    let more = segments.push(seg);
    if segments.len() == 0 {
        assert(more.skip(1) =~= Seq::empty());
        reveal_with_fuel(pending, 2);
        assert(pending(more) =~= pending(segments) + seg.samples);
    } else {
        assert(more.skip(1) =~= segments.skip(1).push(seg));
        lemma_pending_push(segments.skip(1), seg);
        assert(pending(more) =~= pending(segments) + seg.samples);
    }
}

/// Written material is pending after what was pending before, sample by sample;
/// of another format than that, it replaces it. It is a run of its own, at its
/// beat and tempo, unless the last run has the same tempo and ends at that beat,
/// give or take a micro-beat: then it goes on with that run.
#[verifier::rlimit(40)]
pub proof fn law_written_material_is_pending(
    sink: SinkView,
    samples: Seq<i16>,
    begin: i64,
    tempo: i64,
    rate: u32,
    num_channels: u8,
)
    requires
        num_channels > 0,
    ensures
        ({
            let t = appended(sink, samples, begin, tempo, rate, num_channels);
            let kept = if sink.format == Some((rate, num_channels)) {
                sink.segments
            } else {
                Seq::empty()
            };
            let last = kept.last();
            let end = last.begin + wrap64(
                micro_beats((last.samples.len() / num_channels as nat) as int, rate, tempo),
            );
            &&& pending(t.segments) == pending(kept) + samples
            &&& t.format == Some((rate, num_channels))
            &&& t == (SinkView { format: t.format, segments: t.segments, ..sink })
            &&& kept.len() > 0 && last.tempo == tempo && -1 <= end - begin <= 1 ==> {
                &&& t.segments.len() == kept.len()
                &&& t.segments.drop_last() == kept.drop_last()
                &&& t.segments.last().begin == last.begin
                &&& t.segments.last().tempo == tempo
                &&& t.segments.last().samples == last.samples + samples
            }
            &&& !(kept.len() > 0 && last.tempo == tempo && -1 <= end - begin <= 1) ==> {
                &&& t.segments.len() == kept.len() + 1
                &&& t.segments.drop_last() == kept
                &&& t.segments.last().begin == begin
                &&& t.segments.last().tempo == tempo
                &&& t.segments.last().samples == samples
            }
        }),
{
    let t = appended(sink, samples, begin, tempo, rate, num_channels);
    let kept = if sink.format == Some((rate, num_channels)) {
        sink.segments
    } else {
        Seq::empty()
    };
    let new = SegmentView { begin, tempo, samples };
    lemma_pending_push(kept, new);
    assert(kept.push(new).drop_last() =~= kept);
    if kept.len() > 0 {
        let front = kept.drop_last();
        let last = kept.last();
        let longer = SegmentView { samples: last.samples + samples, ..last };
        lemma_pending_push(front, last);
        lemma_pending_push(front, longer);
        assert(front.push(last) =~= kept);
        assert(kept.update(kept.len() - 1, longer) =~= front.push(longer));
        assert(front.push(longer).drop_last() =~= front);
        assert(pending(front) + (last.samples + samples) =~= pending(kept) + samples);
    }
}

/// Whether a datagram holds the chunks and samples of one packed datagram, in
/// its format, of one channel and session.
pub open spec fn carries(
    bytes: Seq<u8>,
    node: NodeId,
    channel: ChannelId,
    session: SessionId,
    rate: u32,
    num_channels: u8,
    packed: (Seq<Chunk>, Seq<i16>),
) -> bool {
    match decoded(bytes) {
        Ok(f) => {
            &&& f.node == node
            &&& f.group_id == 0
            &&& f.message matches MessageView::AudioBuffer(b) && {
                &&& b.channel == channel
                &&& b.session == session
                &&& b.sample_rate == rate
                &&& b.num_channels == num_channels
                &&& b.codec == 1
                &&& b.chunks == packed.0
                &&& samples_of(b.sample_data) == packed.1
            }
        },
        Err(_) => false,
    }
}

/// Where in the outbox a requester finds one of the messages.
proof fn lemma_requester_is_sent(
    s: StateView,
    paths: Seq<(Route, PathStatsView)>,
    requesters: Seq<(NodeId, i64)>,
    messages: Seq<Seq<u8>>,
    r: int,
    j: int,
) -> (k: int)
    requires
        0 <= r < requesters.len(),
        best_of(s.peers, paths, requesters[r].0) is Some,
        (best_of(s.peers, paths, requesters[r].0)->0).0 < s.gateways.len(),
        0 <= j < messages.len(),
    ensures
        ({
            let to = best_of(s.peers, paths, requesters[r].0)->0;
            let t = sent_to_requesters(s, paths, requesters, messages);
            &&& s.outbox.len() <= k < t.outbox.len()
            &&& t.outbox[k].gateway == to.0
            &&& t.outbox[k].outlet == Outlet::Audio(to.1)
            &&& t.outbox[k].bytes == messages[j]
        }),
    decreases requesters.len(),
{
    let front = requesters.drop_last();
    let f = sent_to_requesters(s, paths, front, messages);
    lemma_requesters_add(s, paths, front, messages);
    lemma_sent_to_requesters(s, paths, front, messages);
    if let Some(to) = best_of(s.peers, paths, requesters.last().0) {
        lemma_sent_to_one(f, to, messages);
    }
    let t = sent_to_requesters(s, paths, requesters, messages);
    if r < front.len() {
        assert(front[r] == requesters[r]);
        let k = lemma_requester_is_sent(s, paths, front, messages, r, j);
        assert(t.outbox[k] == f.outbox[k]);
        k
    } else {
        let k = f.outbox.len() + j;
        assert(t.outbox[f.outbox.len() + j].bytes == messages[j]);
        k
    }
}

proof fn lemma_requesters_add(
    s: StateView,
    paths: Seq<(Route, PathStatsView)>,
    requesters: Seq<(NodeId, i64)>,
    messages: Seq<Seq<u8>>,
)
    ensures
        s.outbox.is_prefix_of(sent_to_requesters(s, paths, requesters, messages).outbox),
    decreases requesters.len(),
{
    if requesters.len() > 0 {
        let front = requesters.drop_last();
        let f = sent_to_requesters(s, paths, front, messages);
        lemma_requesters_add(s, paths, front, messages);
        if let Some(to) = best_of(s.peers, paths, requesters.last().0) {
            lemma_sent_to_one(f, to, messages);
            let t = sent_to_requesters(s, paths, requesters, messages);
            assert forall|k: int| 0 <= k < s.outbox.len() implies s.outbox[k] == t.outbox[k] by {
                assert(f.outbox[k] == s.outbox[k]);
            }
        }
    }
}

/// Nothing goes anywhere but to a requester.
proof fn lemma_only_requesters_are_sent(
    s: StateView,
    paths: Seq<(Route, PathStatsView)>,
    requesters: Seq<(NodeId, i64)>,
    messages: Seq<Seq<u8>>,
    k: int,
) -> (r: int)
    requires
        s.outbox.len() <= k < sent_to_requesters(s, paths, requesters, messages).outbox.len(),
    ensures
        0 <= r < requesters.len(),
        best_of(s.peers, paths, requesters[r].0) is Some,
        ({
            let to = best_of(s.peers, paths, requesters[r].0)->0;
            let d = sent_to_requesters(s, paths, requesters, messages).outbox[k];
            d.gateway == to.0 && d.outlet == Outlet::Audio(to.1)
        }),
    decreases requesters.len(),
{
    let t = sent_to_requesters(s, paths, requesters, messages);
    if requesters.len() == 0 {
        0
    } else {
        let front = requesters.drop_last();
        let f = sent_to_requesters(s, paths, front, messages);
        lemma_sent_to_requesters(s, paths, front, messages);
        if let Some(to) = best_of(s.peers, paths, requesters.last().0) {
            lemma_sent_to_one(f, to, messages);
        }
        if k < f.outbox.len() {
            assert(t.outbox[k] == f.outbox[k]);
            let r = lemma_only_requesters_are_sent(s, paths, front, messages, k);
            assert(front[r] == requesters[r]);
            r
        } else {
            let j = k - f.outbox.len();
            assert(t.outbox[f.outbox.len() + j].bytes == messages[j]);
            requesters.len() - 1
        }
    }
}

/// Every peer whose request has not run out is sent every full datagram of what
/// is pending with the new material, over the best path to it; each reads back
/// as a buffer of the channel, in our session, with its chunks, samples and
/// format. The material lies at its application beat less the session offset.
#[verifier::rlimit(40)]
pub proof fn law_written_audio_reaches_every_requester(
    s: StateView,
    channel: ChannelId,
    samples: Seq<i16>,
    rate: u32,
    num_channels: u8,
    begin_app_beat: i64,
    quantum: i64,
    fill: bool,
    now: i64,
    n: int,
    r: int,
    j: int,
)
    requires
        s.audio is Some,
        num_channels > 0,
        0 <= n < s.audio->0.sinks.len(),
        s.audio->0.sinks[n].id == channel,
        forall|i: int| 0 <= i < n ==> (#[trigger] s.audio->0.sinks[i]).id != channel,
        0 <= r < s.audio->0.sinks[n].requesters.len(),
        s.audio->0.sinks[n].requesters[r].1 > now,
        exists|i: int|
            0 <= i < s.peers.len() && #[trigger] is_path(
                s.peers[i],
                s.audio->0.sinks[n].requesters[r].0,
            ),
        forall|i: int|
            0 <= i < s.peers.len() ==> (#[trigger] s.peers[i]).0.gateway < s.gateways.len(),
    ensures
        ({
            let a = s.audio->0;
            let t = sink_written(
                s,
                channel,
                samples,
                rate,
                num_channels,
                begin_app_beat,
                quantum,
                fill,
                now,
            );
            let begin = wrap64(
                begin_app_beat - offset_wrapped(s.timeline, quantum),
            );
            let full = appended(
                a.sinks[n],
                samples,
                begin,
                s.timeline.tempo,
                rate,
                num_channels,
            );
            let d = drained(full.segments, full.next_seq, num_channels, rate, fill);
            let node = a.sinks[n].requesters[r].0;
            &&& t.audio is Some
            &&& t.audio->0.sinks[n].segments == d.segments
            &&& t.audio->0.sinks[n].next_seq == d.next_seq
            &&& 0 <= j < d.out.len() ==> exists|k: int|
                s.outbox.len() <= k < t.outbox.len() && carries(
                    (#[trigger] t.outbox[k]).bytes,
                    s.node,
                    channel,
                    s.session,
                    rate,
                    num_channels,
                    d.out[j],
                ) && exists|i: int|
                    0 <= i < s.peers.len() && #[trigger] is_path(s.peers[i], node)
                        && t.outbox[k].gateway == s.peers[i].0.gateway && t.outbox[k].outlet
                        == Outlet::Audio(s.peers[i].1.state.audio_endpoint->0) && is_best(
                        s,
                        a,
                        node,
                        s.peers[i].0.gateway,
                    )
        }),
{
    let a = s.audio->0;
    let t = sink_written(
        s,
        channel,
        samples,
        rate,
        num_channels,
        begin_app_beat,
        quantum,
        fill,
        now,
    );
    let begin = wrap64(
        begin_app_beat - offset_wrapped(s.timeline, quantum),
    );
    let full = appended(a.sinks[n], samples, begin, s.timeline.tempo, rate, num_channels);
    let d = drained(full.segments, full.next_seq, num_channels, rate, fill);
    let node = a.sinks[n].requesters[r].0;
    let live = |e: (NodeId, i64)| e.1 > now;
    let all = a.sinks[n].requesters;
    let left = unexpired(all, now);
    lemma_first_sink(a.sinks, channel, n);
    all.filter_lemma(live);
    assert(live(all[r]));
    assert(left.contains(all[r]));
    let x = choose|x: int| 0 <= x < left.len() && left[x] == all[r];
    let kept = SinkView { requesters: left, segments: d.segments, next_seq: d.next_seq, ..full };
    let base = StateView { audio: Some(AudioView { sinks: a.sinks.update(n, kept), ..a }), ..s };
    let messages = audio_messages(d.out, s.node, channel, s.session, rate, num_channels);
    lemma_sent_to_requesters(base, a.paths, left, messages);
    assert(t == sent_to_requesters(base, a.paths, left, messages));
    if 0 <= j < d.out.len() {
        law_best_path_is_best(s.peers, a.paths, node);
        law_drain_packs_full_datagrams(full.segments, full.next_seq, num_channels, rate, fill);
        law_packed_datagram_is_accepted(
            d.out[j],
            s.node,
            channel,
            s.session,
            rate,
            num_channels,
            fill,
        );
        law_samples_roundtrip(d.out[j].1);
        let k = lemma_requester_is_sent(base, a.paths, left, messages, x, j);
        assert(carries(
            t.outbox[k].bytes,
            s.node,
            channel,
            s.session,
            rate,
            num_channels,
            d.out[j],
        ));
    }
}

/// What is written goes to nobody but the peers whose request for the channel
/// has not run out; requests that have are dropped. Other channels, and
/// everything but the channel and the outbox, stay.
#[verifier::rlimit(40)]
pub proof fn law_written_audio_goes_to_requesters_alone(
    s: StateView,
    channel: ChannelId,
    samples: Seq<i16>,
    rate: u32,
    num_channels: u8,
    begin_app_beat: i64,
    quantum: i64,
    fill: bool,
    now: i64,
    n: int,
    k: int,
    i: int,
)
    requires
        s.audio is Some,
        0 <= n < s.audio->0.sinks.len(),
        s.audio->0.sinks[n].id == channel,
        forall|j: int| 0 <= j < n ==> (#[trigger] s.audio->0.sinks[j]).id != channel,
    ensures
        ({
            let a = s.audio->0;
            let t = sink_written(
                s,
                channel,
                samples,
                rate,
                num_channels,
                begin_app_beat,
                quantum,
                fill,
                now,
            );
            let b = t.audio->0;
            &&& t == (StateView { audio: t.audio, outbox: t.outbox, ..s })
            &&& s.outbox.is_prefix_of(t.outbox)
            &&& t.audio is Some
            &&& b == (AudioView { sinks: b.sinks, ..a })
            &&& b.sinks.len() == a.sinks.len()
            &&& 0 <= i < a.sinks.len() && i != n ==> b.sinks[i] == a.sinks[i]
            &&& b.sinks[n].id == channel
            &&& b.sinks[n].name == a.sinks[n].name
            &&& 0 <= i < b.sinks[n].requesters.len() ==> b.sinks[n].requesters[i].1 > now
                && a.sinks[n].requesters.contains(b.sinks[n].requesters[i])
            &&& 0 <= i < a.sinks[n].requesters.len() && a.sinks[n].requesters[i].1 > now
                ==> b.sinks[n].requesters.contains(a.sinks[n].requesters[i])
            &&& s.outbox.len() <= k < t.outbox.len() ==> exists|r: int, p: int|
                0 <= r < a.sinks[n].requesters.len() && a.sinks[n].requesters[r].1 > now && 0 <= p
                    < s.peers.len() && #[trigger] is_path(
                    s.peers[p],
                    (#[trigger] a.sinks[n].requesters[r]).0,
                ) && t.outbox[k].gateway == s.peers[p].0.gateway && t.outbox[k].outlet
                    == Outlet::Audio(s.peers[p].1.state.audio_endpoint->0)
        }),
{
    let a = s.audio->0;
    let t = sink_written(
        s,
        channel,
        samples,
        rate,
        num_channels,
        begin_app_beat,
        quantum,
        fill,
        now,
    );
    let begin = wrap64(
        begin_app_beat - offset_wrapped(s.timeline, quantum),
    );
    let full = appended(a.sinks[n], samples, begin, s.timeline.tempo, rate, num_channels);
    let d = drained(full.segments, full.next_seq, num_channels, rate, fill);
    let live = |e: (NodeId, i64)| e.1 > now;
    let all = a.sinks[n].requesters;
    let left = unexpired(all, now);
    lemma_first_sink(a.sinks, channel, n);
    all.filter_lemma(live);
    if 0 <= i < left.len() {
        assert(live(left[i]));
        assert(left.contains(left[i]));
        all.lemma_filter_contains_rev(live, left[i]);
    }
    if 0 <= i < all.len() && all[i].1 > now {
        assert(live(all[i]));
        assert(left.contains(all[i]));
    }
    if left.len() > 0 {
        let kept = SinkView {
            requesters: left,
            segments: d.segments,
            next_seq: d.next_seq,
            ..full
        };
        let base = StateView {
            audio: Some(AudioView { sinks: a.sinks.update(n, kept), ..a }),
            ..s
        };
        let messages = audio_messages(d.out, s.node, channel, s.session, rate, num_channels);
        lemma_sent_to_requesters(base, a.paths, left, messages);
        lemma_requesters_add(base, a.paths, left, messages);
        assert(t == sent_to_requesters(base, a.paths, left, messages));
        if s.outbox.len() <= k < t.outbox.len() {
            let x = lemma_only_requesters_are_sent(base, a.paths, left, messages, k);
            assert(live(left[x]));
            assert(left.contains(left[x]));
            all.lemma_filter_contains_rev(live, left[x]);
            let r = choose|r: int| 0 <= r < all.len() && all[r] == left[x];
            law_best_path_is_best(s.peers, a.paths, all[r].0);
            let p = choose|p: int|
                0 <= p < s.peers.len() && #[trigger] is_path(s.peers[p], all[r].0) && best_of(
                    s.peers,
                    a.paths,
                    all[r].0,
                )->0 == (s.peers[p].0.gateway, s.peers[p].1.state.audio_endpoint->0);
            assert(is_path(s.peers[p], a.sinks[n].requesters[r].0));
        }
    }
}

/// A channel is requested exactly while a peer's request for it lasts.
pub proof fn law_channel_is_requested_while_a_request_lasts(
    s: StateView,
    channel: ChannelId,
    now: i64,
    n: int,
)
    requires
        s.audio is Some,
        0 <= n < s.audio->0.sinks.len(),
        s.audio->0.sinks[n].id == channel,
        forall|i: int| 0 <= i < n ==> (#[trigger] s.audio->0.sinks[i]).id != channel,
    ensures
        is_requested(s, channel, now) <==> exists|r: int|
            0 <= r < s.audio->0.sinks[n].requesters.len() && (
            #[trigger] s.audio->0.sinks[n].requesters[r]).1 > now,
{
    let all = s.audio->0.sinks[n].requesters;
    let live = |e: (NodeId, i64)| e.1 > now;
    let left = unexpired(all, now);
    lemma_first_sink(s.audio->0.sinks, channel, n);
    all.filter_lemma(live);
    if left.len() > 0 {
        assert(left.contains(left[0]));
        assert(live(left[0]));
        all.lemma_filter_contains_rev(live, left[0]);
        let r = choose|r: int| 0 <= r < all.len() && all[r] == left[0];
        assert(all[r].1 > now);
    }
    if exists|r: int| 0 <= r < all.len() && (#[trigger] all[r]).1 > now {
        let r = choose|r: int| 0 <= r < all.len() && (#[trigger] all[r]).1 > now;
        assert(live(all[r]));
        assert(left.contains(all[r]));
    }
}

/// Material with a sample rate can always be written; and without one it can
/// where audio is disabled or the channel is not published.
pub proof fn law_material_with_a_rate_can_be_written(
    s: StateView,
    channel: ChannelId,
    samples: Seq<i16>,
    rate: u32,
    num_channels: u8,
    begin_app_beat: i64,
    quantum: i64,
    fill: bool,
    now: i64,
)
    ensures
        rate > 0 || s.audio is None || (forall|i: int|
            0 <= i < s.audio->0.sinks.len() ==> (#[trigger] s.audio->0.sinks[i]).id != channel)
            ==> has_length(
            s,
            channel,
            samples,
            rate,
            num_channels,
            begin_app_beat,
            quantum,
            fill,
            now,
        ),
{
    if let Some(a) = s.audio {
        lemma_sink_place(a.sinks, channel);
    }
}

/// What forgetting nodes does to the known channels.
proof fn lemma_nodes_gone_known(
    s: StateView,
    nodes: Seq<NodeId>,
    e: (Route, KnownChannelView),
)
    requires
        s.audio is Some,
    ensures
        ({
            let t = nodes_gone(s, nodes);
            let visible = exists|i: int|
                0 <= i < s.peers.len() && (#[trigger] s.peers[i]).0.id == e.1.peer;
            &&& t.audio is Some
            &&& t.audio->0.known.contains(e) <==> s.audio->0.known.contains(e) && (visible
                || !nodes.contains(e.1.peer))
        }),
    decreases nodes.len(),
{
    if nodes.len() > 0 {
        let front = nodes.drop_last();
        let n = nodes.last();
        let f = nodes_gone(s, front);
        lemma_nodes_gone_known(s, front, e);
        assert(nodes.contains(e.1.peer) <==> front.contains(e.1.peer) || e.1.peer == n) by {
            if nodes.contains(e.1.peer) {
                let x = choose|x: int| 0 <= x < nodes.len() && nodes[x] == e.1.peer;
                if x < front.len() {
                    assert(front[x] == e.1.peer);
                }
            }
            if front.contains(e.1.peer) {
                let x = choose|x: int| 0 <= x < front.len() && front[x] == e.1.peer;
                assert(nodes[x] == e.1.peer);
            }
            if e.1.peer == n {
                assert(nodes[nodes.len() - 1] == n);
            }
        }
        let known = f.audio->0.known;
        let stays = |k: (Route, KnownChannelView)| k.1.peer != n;
        known.filter_lemma(stays);
        if known.contains(e) && stays(e) {
            let x = choose|x: int| 0 <= x < known.len() && known[x] == e;
            assert(stays(known[x]));
            assert(known.filter(stays).contains(known[x]));
        }
        if known.filter(stays).contains(e) {
            known.lemma_filter_contains_rev(stays, e);
            let x = choose|x: int| 0 <= x < known.filter(stays).len() && known.filter(stays)[x] == e;
            assert(stays(known.filter(stays)[x]));
        }
    }
}

proof fn lemma_expired_nodes(peers: Seq<(Route, PeerEntry)>, now: i64, n: NodeId)
    ensures
        expired_nodes(peers, now).contains(n) <==> exists|i: int|
            0 <= i < peers.len() && (#[trigger] peers[i]).0.id == n && peers[i].1.deadline <= now,
    decreases peers.len(),
{
    let all = expired_nodes(peers, now);
    if peers.len() > 0 {
        let front = peers.drop_last();
        let f = expired_nodes(front, now);
        let last = peers.len() - 1;
        lemma_expired_nodes(front, now, n);
        assert(peers[last] == peers.last());
        if all.contains(n) {
            let x = choose|x: int| 0 <= x < all.len() && all[x] == n;
            if x < f.len() {
                assert(f[x] == n);
                let i = choose|i: int|
                    0 <= i < front.len() && (#[trigger] front[i]).0.id == n && front[i].1.deadline
                        <= now;
                assert(peers[i] == front[i]);
            }
        }
        if exists|i: int|
            0 <= i < peers.len() && (#[trigger] peers[i]).0.id == n && peers[i].1.deadline <= now {
            let i = choose|i: int|
                0 <= i < peers.len() && (#[trigger] peers[i]).0.id == n && peers[i].1.deadline
                    <= now;
            if i < last {
                assert(front[i] == peers[i]);
                let x = choose|x: int| 0 <= x < f.len() && f[x] == n;
                assert(all[x] == n);
            } else {
                assert(all[f.len() as int] == n);
            }
        }
    }
}

/// When a pass drops peers, it forgets the channels of those that are known
/// through no gateway any more, and of no other.
#[verifier::rlimit(40)]
pub proof fn law_pass_forgets_the_channels_of_lost_peers(
    s: StateView,
    now: i64,
    fresh: NodeId,
    e: (Route, KnownChannelView),
)
    requires
        is_clock(now),
        state_ok(s),
        s.enabled,
        s.audio is Some,
    ensures
        ({
            let t = passed(s, now, fresh);
            let lost = (exists|i: int|
                0 <= i < s.peers.len() && (#[trigger] s.peers[i]).0.id == e.1.peer
                    && s.peers[i].1.deadline + 1_000_000 <= now) && forall|i: int|
                0 <= i < s.peers.len() && (#[trigger] s.peers[i]).0.id == e.1.peer
                    ==> s.peers[i].1.deadline <= now;
            let there = (exists|i: int|
                0 <= i < s.peers.len() && (#[trigger] s.peers[i]).0.id == e.1.peer
                    && s.peers[i].1.deadline > now) || forall|i: int|
                0 <= i < s.peers.len() ==> (#[trigger] s.peers[i]).0.id != e.1.peer;
            &&& lost ==> !t.audio->0.known.contains(e)
            &&& there && s.audio->0.known.contains(e) && e.1.deadline > now
                ==> t.audio->0.known.contains(e)
        }),
{
    let kept = alive_kept(s, now);
    let core = core_pass(s, now, fresh);
    let t = passed(s, now, fresh);
    let live = StateView { peers: live_peers(kept.peers, now), ..kept };
    let nodes = expired_nodes(kept.peers, now);
    let gone = nodes_gone(live, nodes);
    let keep = |p: (Route, PeerEntry)| p.1.deadline > now;
    lemma_core_audio(s, now, fresh);
    lemma_pruned_audio(kept, now, fresh);
    lemma_later_steps_keep_audio(peers_pruned(kept, now, fresh), now);
    lemma_nodes_gone_known(live, nodes, e);
    lemma_expired_nodes(s.peers, now, e.1.peer);
    s.peers.filter_lemma(keep);
    assert(loss_checked(gone, now, fresh).audio == gone.audio);
    let known = core.audio->0.known;
    if exists|i: int|
        0 <= i < s.peers.len() && (#[trigger] s.peers[i]).0.id == e.1.peer && s.peers[i].1.deadline
            + 1_000_000 <= now {
        let i = choose|i: int|
            0 <= i < s.peers.len() && (#[trigger] s.peers[i]).0.id == e.1.peer
                && s.peers[i].1.deadline + 1_000_000 <= now;
        lemma_earliest(s.peers, i);
        assert(core.audio == gone.audio);
        if forall|x: int|
            0 <= x < s.peers.len() && (#[trigger] s.peers[x]).0.id == e.1.peer
                ==> s.peers[x].1.deadline <= now {
            assert(!(exists|x: int|
                0 <= x < live.peers.len() && (#[trigger] live.peers[x]).0.id == e.1.peer)) by {
                if exists|x: int|
                    0 <= x < live.peers.len() && (#[trigger] live.peers[x]).0.id == e.1.peer {
                    let x = choose|x: int|
                        0 <= x < live.peers.len() && (#[trigger] live.peers[x]).0.id == e.1.peer;
                    assert(live.peers.contains(live.peers[x]));
                    s.peers.lemma_filter_contains_rev(keep, live.peers[x]);
                    assert(keep(live.peers[x]));
                    let y = choose|y: int| 0 <= y < s.peers.len() && s.peers[y] == live.peers[x];
                    assert(s.peers[y].1.deadline <= now);
                }
            }
            assert(!known.contains(e));
            if t.audio->0.known.contains(e) {
                let x = choose|x: int|
                    0 <= x < t.audio->0.known.len() && t.audio->0.known[x] == e;
                law_pass_drops_expired_requests_and_channels(core, now, 0, x);
            }
        }
    }
    if exists|i: int|
        0 <= i < s.peers.len() && (#[trigger] s.peers[i]).0.id == e.1.peer && s.peers[i].1.deadline
            > now {
        let i = choose|i: int|
            0 <= i < s.peers.len() && (#[trigger] s.peers[i]).0.id == e.1.peer
                && s.peers[i].1.deadline > now;
        assert(keep(s.peers[i]));
        assert(live.peers == s.peers.filter(keep));
        assert(live.peers.contains(s.peers[i]));
        let x = choose|x: int| 0 <= x < live.peers.len() && live.peers[x] == s.peers[i];
        assert(live.peers[x].0.id == e.1.peer);
    }
    if known.contains(e) && e.1.deadline > now {
        let x = choose|x: int| 0 <= x < known.len() && known[x] == e;
        law_pass_drops_expired_requests_and_channels(core, now, 0, x);
    }
}

/// Audio datagrams mean nothing to a peer without audio.
pub proof fn law_audio_needs_to_be_enabled(
    s: StateView,
    gw: usize,
    src: SocketAddr,
    buf: Seq<u8>,
    now: i64,
)
    requires
        s.audio is None || !s.enabled,
    ensures
        audio_received(s, gw, src, buf, now) == s,
        s.audio is None ==> audio_pass(s, now) == s,
{
}

proof fn lemma_nothing_due(
    sources: Seq<(ChannelId, SourceView)>,
    now: i64,
)
    requires
        forall|i: int|
            0 <= i < sources.len() ==> now < (#[trigger] sources[i]).1.last_request_at + 5_000_000,
    ensures
        due_requests(sources, now).len() == 0,
    decreases sources.len(),
{
    if sources.len() > 0 {
        let front = sources.drop_last();
        assert forall|i: int| 0 <= i < front.len() implies now < (
        #[trigger] front[i]).1.last_request_at + 5_000_000 by {
            assert(front[i] == sources[i]);
        }
        lemma_nothing_due(front, now);
        assert(sources[sources.len() - 1] == sources.last());
    }
}

/// An audio pass sends nothing before its time: neither announcements within
/// 250 ms of the last round nor requests within five seconds of the last one.
/// When every end is more than a second off, it changes nothing at all.
pub proof fn law_audio_pass_is_quiet_before_its_time(s: StateView, now: i64)
    requires
        s.audio is Some,
        now < s.audio->0.last_announce_at + 250_000,
        forall|i: int|
            0 <= i < s.audio->0.sources.len() ==> now < (
            #[trigger] s.audio->0.sources[i]).1.last_request_at + 5_000_000,
    ensures
        ({
            let a = s.audio->0;
            let t = audio_pass(s, now);
            &&& t.outbox == s.outbox
            &&& t.audio is Some
            &&& t.audio->0.last_announce_at == a.last_announce_at
            &&& t.audio->0.sources == a.sources
            &&& (forall|j: int|
                0 <= j < a.known.len() ==> (#[trigger] a.known[j]).1.deadline + 1_000_000 > now)
                ==> t.audio->0.known == a.known
        }),
{
    let a = s.audio->0;
    let t = audio_pass(s, now);
    lemma_nothing_due(a.sources, now);
    assert(t.audio->0.sources =~= a.sources);
    lemma_known_is_some(a.known);
}

/// When a request, or a known channel, ran out a second ago, all that have run
/// out are dropped with it.
pub proof fn law_ends_come_together(s: StateView, now: i64, i: int, j: int, k: int)
    requires
        s.audio is Some,
    ensures
        ({
            let a = s.audio->0;
            let b = audio_pass(s, now).audio->0;
            &&& 0 <= i < a.sinks.len() && 0 <= j < a.sinks[i].requesters.len()
                && a.sinks[i].requesters[j].1 + 1_000_000 <= now && 0 <= k
                < b.sinks[i].requesters.len() ==> b.sinks[i].requesters[k].1 > now
            &&& 0 <= j < a.known.len() && a.known[j].1.deadline + 1_000_000 <= now && 0 <= k
                < b.known.len() ==> b.known[k].1.deadline > now
        }),
{
    let a = s.audio->0;
    let b = audio_pass(s, now).audio->0;
    if 0 <= i < a.sinks.len() && 0 <= j < a.sinks[i].requesters.len()
        && a.sinks[i].requesters[j].1 + 1_000_000 <= now && 0 <= k < b.sinks[i].requesters.len() {
        let all = a.sinks[i].requesters;
        let live = |e: (NodeId, i64)| e.1 > now;
        lemma_earliest_expiry(all, j);
        all.filter_lemma(live);
        assert(b.sinks[i].requesters == all.filter(live));
        assert(live(b.sinks[i].requesters[k]));
    }
    if 0 <= j < a.known.len() && a.known[j].1.deadline + 1_000_000 <= now && 0 <= k
        < b.known.len() {
        let live = |e: (Route, KnownChannelView)| e.1.deadline > now;
        lemma_earliest_known(a.known, j);
        a.known.filter_lemma(live);
        assert(b.known == a.known.filter(live));
        assert(live(b.known[k]));
    }
}

/// Withdrawals go to the members of the session alone.
pub proof fn law_withdrawals_go_to_the_session_alone(
    s: StateView,
    channels: Seq<ChannelId>,
    k: int,
)
    requires
        s.outbox.len() <= k < byes_sent(s, channels).outbox.len(),
    ensures
        goes_to_member(s, byes_sent(s, channels).outbox[k]),
    decreases channels.len(),
{
    let t = byes_sent(s, channels);
    if channels.len() > 0 {
        let (n, m) = lemma_byes_step(s, channels);
        let rest = channels.skip(n);
        let messages = seq![byes_bytes(s.node, channels.take(n))];
        lemma_byes_add(m, rest);
        if k < m.outbox.len() {
            assert(t.outbox[k] == m.outbox[k]);
            lemma_round_goes_to_members(s, messages, k);
        } else {
            law_withdrawals_go_to_the_session_alone(m, rest, k);
            assert(m.peers == s.peers && m.session == s.session);
        }
    }
}

/// Whether a datagram goes to the audio endpoint of a member of the session,
/// through the gateway that the member was heard on.
pub open spec fn goes_to_member(s: StateView, d: DatagramView) -> bool {
    exists|e: int|
        0 <= e < s.peers.len() && (#[trigger] s.peers[e]).1.state.session == Some(s.session)
            && s.peers[e].0.gateway == d.gateway && s.peers[e].1.state.audio_endpoint is Some
            && d.outlet == Outlet::Audio(s.peers[e].1.state.audio_endpoint->0)
}

#[verifier::rlimit(40)]
proof fn lemma_round_goes_to_members(s: StateView, messages: Seq<Seq<u8>>, k: int)
    requires
        s.outbox.len() <= k < sent_to_all(
            s,
            endpoints_of(s.peers, s.session),
            messages,
        ).outbox.len(),
    ensures
        goes_to_member(
            s,
            sent_to_all(s, endpoints_of(s.peers, s.session), messages).outbox[k],
        ),
{
    let endpoints = endpoints_of(s.peers, s.session);
    let t = sent_to_all(s, endpoints, messages);
    law_every_endpoint_is_sent_every_message(s, endpoints, messages);
    let (i, j) = choose|i: int, j: int|
        0 <= i < endpoints.len() && 0 <= j < messages.len() && t.outbox[k] == (DatagramView {
            gateway: (#[trigger] endpoints[i]).0,
            outlet: Outlet::Audio(endpoints[i].1),
            bytes: #[trigger] messages[j],
        });
    let to = endpoints[i];
    law_endpoints_are_those_of_the_session(s.peers, s.session, to);
    assert(endpoints.contains(to));
    let e = choose|e: int|
        0 <= e < s.peers.len() && gives_endpoint(#[trigger] s.peers[e], s.session, to);
    assert(s.peers[e].1.state.session == Some(s.session));
}

/// Announcements go to the members of the session alone: where no request is
/// due, an audio pass sends nothing to anybody else.
pub proof fn law_announcements_go_to_the_session_alone(s: StateView, now: i64, k: int)
    requires
        s.audio is Some,
        forall|i: int|
            0 <= i < s.audio->0.sources.len() ==> now < (
            #[trigger] s.audio->0.sources[i]).1.last_request_at + 5_000_000,
        s.outbox.len() <= k < audio_pass(s, now).outbox.len(),
    ensures
        goes_to_member(s, audio_pass(s, now).outbox[k]),
{
    let a = s.audio->0;
    lemma_nothing_due(a.sources, now);
    if now >= a.last_announce_at + 250_000 {
        lemma_round_goes_to_members(s, round_of(announcer(s, a), published(a.sinks), now), k);
    }
}

} // verus!
