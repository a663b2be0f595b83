//! Where audio datagrams go.

use vstd::prelude::*;

use crate::audio::announce::byte_views;
use crate::audio::state::{PathStats, PathStatsView};
use crate::engine::send::{post, posted};
use crate::engine::state::{Outlet, PeerEntry, State, StateView};
use crate::table::{lookup, Route, Table};
use crate::wire::codec::owned_bytes;
use crate::wire::types::{NodeId, SessionId, SocketAddr};

verus! {

/// All (gateway, endpoint) pairs of session peers with an audio endpoint.
pub open spec fn endpoints_of(peers: Seq<(Route, PeerEntry)>, session: SessionId) -> Seq<
    (usize, SocketAddr),
>
    decreases peers.len(),
{
    if peers.len() == 0 {
        Seq::empty()
    } else {
        let front = endpoints_of(peers.drop_last(), session);
        let e = peers.last();
        if e.1.state.session == Some(session) && e.1.state.audio_endpoint is Some {
            front.push((e.0.gateway, e.1.state.audio_endpoint->0))
        } else {
            front
        }
    }
}

/// All (gateway, endpoint) pairs of session peers with an audio endpoint.
pub fn session_endpoints(peers: &Table<Route, PeerEntry>, session: SessionId) -> (v: Vec<
    (usize, SocketAddr),
>)
    ensures
        v@ == endpoints_of(peers@, session),
{
    let mut v: Vec<(usize, SocketAddr)> = Vec::new();
    let mut i: usize = 0;
    proof {
        assert(peers@.take(0) =~= Seq::empty());
    }
    while i < peers.items.len()
        invariant
            i <= peers.items@.len(),
            v@ == endpoints_of(peers@.take(i as int), session),
        decreases peers.items@.len() - i,
    {
        let key = peers.items[i].0;
        let entry = peers.items[i].1;
        proof {
            assert(peers@.take(i + 1).drop_last() =~= peers@.take(i as int));
            assert(peers@.take(i + 1).last() == (key, entry));
        }
        if let Some(theirs) = entry.state.session {
            if theirs == session {
                if let Some(ep) = entry.state.audio_endpoint {
                    v.push((key.gateway, ep));
                }
            }
        }
        i = i + 1;
    }
    proof {
        assert(peers@.take(i as int) =~= peers@);
    }
    v
}

/// The quality of the path to a peer through a gateway; 0 if nothing is known
/// of it.
pub open spec fn quality_of(paths: Seq<(Route, PathStatsView)>, node: NodeId, gateway: usize) -> u64 {
    match lookup(paths, Route { id: node, gateway }) {
        Some(stats) => stats.quality,
        None => 0,
    }
}

/// The better of the best path so far and a new one; the new one if equal.
pub open spec fn better(
    best: Option<(usize, SocketAddr)>,
    new: (usize, SocketAddr),
    paths: Seq<(Route, PathStatsView)>,
    node: NodeId,
) -> Option<(usize, SocketAddr)> {
    match best {
        Some(b) => if quality_of(paths, node, new.0) >= quality_of(paths, node, b.0) {
            Some(new)
        } else {
            Some(b)
        },
        None => Some(new),
    }
}

/// The best-quality path to a peer: a gateway, and the peer's audio endpoint
/// as heard of through it.
pub open spec fn best_of(
    peers: Seq<(Route, PeerEntry)>,
    paths: Seq<(Route, PathStatsView)>,
    node: NodeId,
) -> Option<(usize, SocketAddr)>
    decreases peers.len(),
{
    if peers.len() == 0 {
        None
    } else {
        let front = best_of(peers.drop_last(), paths, node);
        let e = peers.last();
        if e.0.id == node && e.1.state.audio_endpoint is Some {
            better(front, (e.0.gateway, e.1.state.audio_endpoint->0), paths, node)
        } else {
            front
        }
    }
}

fn path_quality(paths: &Table<Route, PathStats>, node: NodeId, gateway: usize) -> (q: u64)
    ensures
        q == quality_of(paths@, node, gateway),
{
    match paths.get(&Route { id: node, gateway }) {
        Some(stats) => stats.quality,
        None => 0,
    }
}

/// The best-quality path to a peer.
pub fn best_path(
    peers: &Table<Route, PeerEntry>,
    paths: &Table<Route, PathStats>,
    node: NodeId,
) -> (r: Option<(usize, SocketAddr)>)
    ensures
        r == best_of(peers@, paths@, node),
{
    let mut best: Option<(usize, SocketAddr)> = None;
    let mut i: usize = 0;
    proof {
        assert(peers@.take(0) =~= Seq::empty());
    }
    while i < peers.items.len()
        invariant
            i <= peers.items@.len(),
            best == best_of(peers@.take(i as int), paths@, node),
        decreases peers.items@.len() - i,
    {
        let key = peers.items[i].0;
        let entry = peers.items[i].1;
        proof {
            assert(peers@.take(i + 1).drop_last() =~= peers@.take(i as int));
            assert(peers@.take(i + 1).last() == (key, entry));
        }
        if key.id == node {
            if let Some(ep) = entry.state.audio_endpoint {
                best = match best {
                    Some(b) => if path_quality(paths, node, key.gateway) >= path_quality(
                        paths,
                        node,
                        b.0,
                    ) {
                        Some((key.gateway, ep))
                    } else {
                        Some(b)
                    },
                    None => Some((key.gateway, ep)),
                };
            }
        }
        i = i + 1;
    }
    proof {
        assert(peers@.take(i as int) =~= peers@);
    }
    best
}

// ------------------------------------------------------------------ sending

/// The state after datagrams were sent through one gateway to one endpoint.
pub open spec fn sent_to(
    s: StateView,
    to: (usize, SocketAddr),
    messages: Seq<Seq<u8>>,
) -> StateView
    decreases messages.len(),
{
    if messages.len() == 0 {
        s
    } else {
        posted(sent_to(s, to, messages.drop_last()), to.0, Outlet::Audio(to.1), messages.last())
    }
}

/// The state after datagrams were sent to each of several endpoints.
pub open spec fn sent_to_all(
    s: StateView,
    endpoints: Seq<(usize, SocketAddr)>,
    messages: Seq<Seq<u8>>,
) -> StateView
    decreases endpoints.len(),
{
    if endpoints.len() == 0 {
        s
    } else {
        sent_to(sent_to_all(s, endpoints.drop_last(), messages), endpoints.last(), messages)
    }
}

/// Sending only adds to the outbox.
pub proof fn lemma_sent_to(s: StateView, to: (usize, SocketAddr), messages: Seq<Seq<u8>>)
    ensures
        sent_to(s, to, messages) == (StateView { outbox: sent_to(s, to, messages).outbox, ..s }),
    decreases messages.len(),
{
    if messages.len() > 0 {
        lemma_sent_to(s, to, messages.drop_last());
    }
}

pub proof fn lemma_sent_to_all(
    s: StateView,
    endpoints: Seq<(usize, SocketAddr)>,
    messages: Seq<Seq<u8>>,
)
    ensures
        sent_to_all(s, endpoints, messages) == (StateView {
            outbox: sent_to_all(s, endpoints, messages).outbox,
            ..s
        }),
    decreases endpoints.len(),
{
    if endpoints.len() > 0 {
        lemma_sent_to_all(s, endpoints.drop_last(), messages);
        lemma_sent_to(
            sent_to_all(s, endpoints.drop_last(), messages),
            endpoints.last(),
            messages,
        );
    }
}

/// What is sent does not hang on the audio state.
pub proof fn lemma_to_whatever_audio(
    s: StateView,
    t: StateView,
    to: (usize, SocketAddr),
    messages: Seq<Seq<u8>>,
)
    requires
        s == (StateView { audio: s.audio, ..t }),
    ensures
        sent_to(s, to, messages) == (StateView {
            audio: s.audio,
            ..sent_to(t, to, messages)
        }),
    decreases messages.len(),
{
    if messages.len() > 0 {
        lemma_to_whatever_audio(s, t, to, messages.drop_last());
        lemma_sent_to(s, to, messages.drop_last());
        lemma_sent_to(t, to, messages.drop_last());
    }
}

pub proof fn lemma_all_whatever_audio(
    s: StateView,
    t: StateView,
    endpoints: Seq<(usize, SocketAddr)>,
    messages: Seq<Seq<u8>>,
)
    requires
        s == (StateView { audio: s.audio, ..t }),
    ensures
        sent_to_all(s, endpoints, messages) == (StateView {
            audio: s.audio,
            ..sent_to_all(t, endpoints, messages)
        }),
    decreases endpoints.len(),
{
    if endpoints.len() > 0 {
        let front = endpoints.drop_last();
        lemma_all_whatever_audio(s, t, front, messages);
        lemma_to_whatever_audio(
            sent_to_all(s, front, messages),
            sent_to_all(t, front, messages),
            endpoints.last(),
            messages,
        );
    }
}

/// Send one audio datagram.
pub fn send_via(st: &mut State, gw: usize, bytes: Vec<u8>, dst: SocketAddr)
    ensures
        final(st)@ == posted(old(st)@, gw, Outlet::Audio(dst), bytes@),
{
    post(st, gw, Outlet::Audio(dst), bytes);
}

/// Send copies of datagrams to one endpoint.
pub fn send_messages(st: &mut State, to: (usize, SocketAddr), messages: &Vec<Vec<u8>>)
    ensures
        final(st)@ == sent_to(old(st)@, to, byte_views(messages@)),
{
    let ghost s = st@;
    let ghost all = byte_views(messages@);
    let mut i: usize = 0;
    proof {
        assert(all.take(0) =~= Seq::empty());
    }
    while i < messages.len()
        invariant
            i <= messages@.len(),
            all == byte_views(messages@),
            st@ == sent_to(s, to, all.take(i as int)),
        decreases messages@.len() - i,
    {
        proof {
            assert(all.take(i + 1).drop_last() =~= all.take(i as int));
            assert(all.take(i + 1).last() == messages@[i as int]@);
        }
        send_via(st, to.0, owned_bytes(messages[i].as_slice()), to.1);
        i = i + 1;
    }
    proof {
        assert(all.take(i as int) =~= all);
    }
}

/// Send copies of datagrams to each of several endpoints.
pub fn send_round(st: &mut State, endpoints: &Vec<(usize, SocketAddr)>, messages: &Vec<Vec<u8>>)
    ensures
        final(st)@ == sent_to_all(old(st)@, endpoints@, byte_views(messages@)),
{
    let ghost s = st@;
    let ghost all = byte_views(messages@);
    let mut i: usize = 0;
    proof {
        assert(endpoints@.take(0) =~= Seq::empty());
    }
    while i < endpoints.len()
        invariant
            i <= endpoints@.len(),
            all == byte_views(messages@),
            st@ == sent_to_all(s, endpoints@.take(i as int), all),
        decreases endpoints@.len() - i,
    {
        proof {
            assert(endpoints@.take(i + 1).drop_last() =~= endpoints@.take(i as int));
        }
        send_messages(st, endpoints[i], messages);
        i = i + 1;
    }
    proof {
        assert(endpoints@.take(i as int) =~= endpoints@);
    }
}

// -------------------------------------------------------------------- laws

/// No path to the peer is better than the best one; there is one as soon as
/// the peer advertises an audio endpoint.
pub proof fn law_best_path_is_best(
    peers: Seq<(Route, PeerEntry)>,
    paths: Seq<(Route, PathStatsView)>,
    node: NodeId,
)
    ensures
        match best_of(peers, paths, node) {
            Some(best) => {
                &&& exists|i: int|
                    0 <= i < peers.len() && #[trigger] is_path(peers[i], node) && best == (
                        peers[i].0.gateway,
                        peers[i].1.state.audio_endpoint->0,
                    )
                &&& forall|i: int|
                    0 <= i < peers.len() && #[trigger] is_path(peers[i], node) ==> quality_of(
                        paths,
                        node,
                        peers[i].0.gateway,
                    ) <= quality_of(paths, node, best.0)
            },
            None => forall|i: int| 0 <= i < peers.len() ==> !#[trigger] is_path(peers[i], node),
        },
    decreases peers.len(),
{
    if peers.len() > 0 {
        let front = peers.drop_last();
        law_best_path_is_best(front, paths, node);
        assert forall|i: int| 0 <= i < front.len() implies front[i] == peers[i] by {}
        let last = peers.len() - 1;
        let best = best_of(peers, paths, node);
        if is_path(peers[last], node) {
            assert(best is Some);
        }
        if best is Some && best != best_of(front, paths, node) {
            assert(is_path(peers[last], node));
        } else if best is Some {
            let i = choose|i: int|
                0 <= i < front.len() && #[trigger] is_path(front[i], node) && best->0 == (
                    front[i].0.gateway,
                    front[i].1.state.audio_endpoint->0,
                );
            assert(is_path(peers[i], node));
        }
        assert forall|i: int| 0 <= i < peers.len() && #[trigger] is_path(peers[i], node) implies best is Some && quality_of(
            paths,
            node,
            peers[i].0.gateway,
        ) <= quality_of(paths, node, (best->0).0) by {
            if i < last {
                assert(is_path(front[i], node));
            }
        }
    }
}

/// Whether a peer entry gives a path to the peer.
pub open spec fn is_path(e: (Route, PeerEntry), node: NodeId) -> bool {
    e.0.id == node && e.1.state.audio_endpoint is Some
}

} // verus!
