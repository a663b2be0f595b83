//! Announcement rounds.

use vstd::prelude::*;

use crate::audio::sink::{Sink, SinkView};
use crate::audio::state::{sink_views, AudioState};
use crate::wire::audio::{
    all_bytes, channel_info_bytes, channel_list_bytes, channel_views, encode, frame_bytes,
    frame_prefix, lemma_all_bytes_push, nominal_frame, payload_bytes, ChannelInfo, ChannelInfoView,
    Frame, Message, MessageView, KEY_AUCA, KEY_HT, KEY_PI, KEY_SESS, MAGIC, MAX_NAME, MAX_PAYLOAD,
};
use crate::wire::codec::{lemma_be_bytes_len, lemma_entry_len, owned_bytes, string_bytes};
use crate::wire::prefix::lemma_prefix_roundtrip;
use crate::wire::types::{i64_bytes, NodeId, SessionId};

verus! {

/// Who announces.
pub struct Announcer {
    pub node: NodeId,
    pub session: SessionId,
    pub peer_name: Seq<u8>,
}

/// The datagram of one announcement.
pub open spec fn announcement(
    by: Announcer,
    channels: Seq<ChannelInfoView>,
    ping: Option<i64>,
) -> Seq<u8> {
    frame_bytes(
        nominal_frame(
            by.node,
            MessageView::PeerAnnouncement {
                session: by.session,
                peer_name: by.peer_name,
                channels,
                ping,
            },
        ),
    )
}

fn copy_channel(c: &ChannelInfo) -> (r: ChannelInfo)
    ensures
        r@ == c@,
{
    ChannelInfo { name: owned_bytes(c.name.as_slice()), id: c.id }
}

/// Encode one announcement.
pub fn encode_announcement(
    node: NodeId,
    session: SessionId,
    peer_name: &[u8],
    channels: &[ChannelInfo],
    ping: Option<i64>,
) -> (v: Vec<u8>)
    ensures
        v@ == announcement(
            Announcer { node, session, peer_name: peer_name@ },
            channel_views(channels@),
            ping,
        ),
{
    let mut list: Vec<ChannelInfo> = Vec::new();
    let mut i: usize = 0;
    while i < channels.len()
        invariant
            i <= channels@.len(),
            channel_views(list@) == channel_views(channels@).take(i as int),
        decreases channels@.len() - i,
    {
        let ghost before = list@;
        list.push(copy_channel(&channels[i]));
        i = i + 1;
        proof {
            assert(channel_views(list@) =~= channel_views(before).push(channels@[i - 1]@));
            assert(channel_views(list@) =~= channel_views(channels@).take(i as int));
        }
    }
    proof {
        assert(channel_views(list@) =~= channel_views(channels@));
    }
    encode(
        &Frame::new(
            node,
            Message::PeerAnnouncement {
                session,
                peer_name: owned_bytes(peer_name),
                channels: list,
                ping,
            },
        ),
    )
}

/// How many of `channels` one announcement takes, `n` of them being in it
/// already: as many as fit the payload budget, and never none.
pub open spec fn taken_count(
    by: Announcer,
    channels: Seq<ChannelInfoView>,
    ping: Option<i64>,
    n: nat,
) -> nat
    decreases channels.len() - n,
{
    if n >= channels.len() {
        n
    } else if n > 0 && announcement(by, channels.take(n as int + 1), ping).len() > 20 + MAX_PAYLOAD {
        n
    } else {
        taken_count(by, channels, ping, n + 1)
    }
}

proof fn lemma_taken_count(
    by: Announcer,
    channels: Seq<ChannelInfoView>,
    ping: Option<i64>,
    n: nat,
)
    requires
        n <= channels.len(),
    ensures
        n <= taken_count(by, channels, ping, n) <= channels.len(),
        channels.len() > 0 ==> taken_count(by, channels, ping, n) > 0,
    decreases channels.len() - n,
{
    if n < channels.len() && !(n > 0 && announcement(by, channels.take(n as int + 1), ping).len() > 20
        + MAX_PAYLOAD) {
        lemma_taken_count(by, channels, ping, n + 1);
    }
}

/// One announcement round: the channels of each message, in order, and its
/// ping. Only the round's first message carries the ping.
pub open spec fn round_parts(
    by: Announcer,
    channels: Seq<ChannelInfoView>,
    ping: Option<i64>,
) -> Seq<(Seq<ChannelInfoView>, Option<i64>)>
    decreases channels.len(),
    via round_parts_decreases
{
    let n = taken_count(by, channels, ping, 0);
    if n >= channels.len() {
        seq![(channels, ping)]
    } else {
        seq![(channels.take(n as int), ping)] + round_parts(by, channels.skip(n as int), None)
    }
}

#[via_fn]
proof fn round_parts_decreases(
    by: Announcer,
    channels: Seq<ChannelInfoView>,
    ping: Option<i64>,
) {
    lemma_taken_count(by, channels, ping, 0);
}

/// The datagrams of an announcement round.
pub open spec fn round_of(by: Announcer, channels: Seq<ChannelInfoView>, now: i64) -> Seq<
    Seq<u8>,
> {
    round_parts(by, channels, Some(now)).map_values(
        |part: (Seq<ChannelInfoView>, Option<i64>)| announcement(by, part.0, part.1),
    )
}

/// The channels that a list of sinks publishes.
pub open spec fn published(sinks: Seq<SinkView>) -> Seq<ChannelInfoView> {
    Seq::new(sinks.len(), |i: int| ChannelInfoView { name: sinks[i].name, id: sinks[i].id })
}

fn published_channels(sinks: &Vec<Sink>) -> (v: Vec<ChannelInfo>)
    ensures
        channel_views(v@) == published(sink_views(sinks@)),
{
    let mut v: Vec<ChannelInfo> = Vec::new();
    let mut i: usize = 0;
    while i < sinks.len()
        invariant
            i <= sinks@.len(),
            channel_views(v@) == published(sink_views(sinks@)).take(i as int),
        decreases sinks@.len() - i,
    {
        let ghost before = v@;
        v.push(ChannelInfo { name: owned_bytes(sinks[i].name.as_slice()), id: sinks[i].id });
        i = i + 1;
        proof {
            assert(channel_views(v@) =~= channel_views(before).push(v@[i - 1]@));
            assert(channel_views(v@) =~= published(sink_views(sinks@)).take(i as int));
        }
    }
    proof {
        assert(channel_views(v@) =~= published(sink_views(sinks@)));
    }
    v
}

/// The contents of a list of datagrams.
pub open spec fn byte_views(list: Seq<Vec<u8>>) -> Seq<Seq<u8>> {
    Seq::new(list.len(), |i: int| list[i]@)
}

/// How many of the channels from `start` on one announcement takes.
fn count_taken(
    node: NodeId,
    session: SessionId,
    peer_name: &[u8],
    channels: &[ChannelInfo],
    ping: Option<i64>,
) -> (n: usize)
    ensures
        n == taken_count(
            Announcer { node, session, peer_name: peer_name@ },
            channel_views(channels@),
            ping,
            0,
        ),
        n <= channels@.len(),
        channels@.len() > 0 ==> n > 0,
{
    let ghost by = Announcer { node, session, peer_name: peer_name@ };
    let ghost views = channel_views(channels@);
    proof {
        lemma_taken_count(by, views, ping, 0);
    }
    let mut n: usize = 0;
    while n < channels.len()
        invariant
            n <= channels@.len(),
            by == (Announcer { node, session, peer_name: peer_name@ }),
            views == channel_views(channels@),
            taken_count(by, views, ping, 0) == taken_count(by, views, ping, n as nat),
            0 <= taken_count(by, views, ping, 0) <= views.len(),
            views.len() > 0 ==> taken_count(by, views, ping, 0) > 0,
        decreases channels@.len() - n,
    {
        let head = vstd::slice::slice_subrange(channels, 0, n + 1);
        let size = encode_announcement(node, session, peer_name, head, ping).len();
        proof {
            assert(channel_views(head@) =~= views.take(n + 1));
        }
        if size > 20 + MAX_PAYLOAD && n > 0 {
            return n;
        }
        n = n + 1;
    }
    n
}

/// One announcement round: the full channel list split across messages within
/// the payload budget; only the round's first message carries the ping.
pub fn build_announcement_round(
    node: NodeId,
    session: SessionId,
    audio: &AudioState,
    now: i64,
) -> (round: Vec<Vec<u8>>)
    ensures
        byte_views(round@) == round_of(
            Announcer { node, session, peer_name: audio@.peer_name },
            published(audio@.sinks),
            now,
        ),
{
    let ghost by = Announcer { node, session, peer_name: audio@.peer_name };
    let channels = published_channels(&audio.sinks);
    let ghost all = channel_views(channels@);
    let ghost form = |part: (Seq<ChannelInfoView>, Option<i64>)| announcement(by, part.0, part.1);
    let ghost goal = round_of(by, all, now);
    let mut round: Vec<Vec<u8>> = Vec::new();
    let mut start: usize = 0;
    let mut ping: Option<i64> = Some(now);
    proof {
        assert(all.skip(0) =~= all);
        assert(byte_views(round@) + goal =~= goal);
    }
    loop
        invariant
            start <= channels@.len(),
            by == (Announcer { node, session, peer_name: audio@.peer_name }),
            all == channel_views(channels@),
            all == published(audio@.sinks),
            goal == round_of(by, all, now),
            form == (|part: (Seq<ChannelInfoView>, Option<i64>)| announcement(by, part.0, part.1)),
            goal == byte_views(round@) + round_parts(by, all.skip(start as int), ping).map_values(
                form,
            ),
        decreases channels@.len() - start,
    {
        let rest = vstd::slice::slice_subrange(channels.as_slice(), start, channels.len());
        let ghost before = byte_views(round@);
        proof {
            assert(channel_views(rest@) =~= all.skip(start as int));
        }
        let n = count_taken(node, session, audio.peer_name.as_slice(), rest, ping);
        let head = vstd::slice::slice_subrange(rest, 0, n);
        let bytes = encode_announcement(node, session, audio.peer_name.as_slice(), head, ping);
        round.push(bytes);
        proof {
            let left = all.skip(start as int);
            assert(channel_views(head@) =~= left.take(n as int));
            assert(byte_views(round@) =~= before.push(bytes@));
            if n < left.len() {
                let part = (left.take(n as int), ping);
                let more = round_parts(by, left.skip(n as int), None);
                assert(left.skip(n as int) =~= all.skip(start + n));
                assert((seq![part] + more).map_values(form) =~= seq![form(part)] + more.map_values(
                    form,
                ));
                assert(before + (seq![form(part)] + more.map_values(form)) =~= before.push(bytes@)
                    + more.map_values(form));
            } else {
                assert(left.take(n as int) =~= left);
                assert(seq![(left, ping)].map_values(form) =~= seq![form((left, ping))]);
                assert(before + seq![bytes@] =~= before.push(bytes@));
            }
        }
        start = start + n;
        ping = None;
        if start == channels.len() {
            return round;
        }
    }
}

// -------------------------------------------------------------------- laws

/// All channels of a round in order.
pub open spec fn round_channels(
    parts: Seq<(Seq<ChannelInfoView>, Option<i64>)>,
) -> Seq<ChannelInfoView>
    decreases parts.len(),
{
    if parts.len() == 0 {
        Seq::empty()
    } else {
        parts[0].0 + round_channels(parts.skip(1))
    }
}

/// A round announces every channel once, in order; its first message carries
/// the ping and no other does.
pub proof fn law_round_covers_channels(
    by: Announcer,
    channels: Seq<ChannelInfoView>,
    ping: Option<i64>,
)
    ensures
        ({
            let parts = round_parts(by, channels, ping);
            &&& parts.len() > 0
            &&& round_channels(parts) == channels
            &&& parts[0].1 == ping
            &&& forall|i: int| 0 < i < parts.len() ==> (#[trigger] parts[i]).1 is None
        }),
    decreases channels.len(),
{
    let parts = round_parts(by, channels, ping);
    let n = taken_count(by, channels, ping, 0) as int;
    lemma_taken_count(by, channels, ping, 0);
    if n >= channels.len() {
        assert(parts.skip(1) =~= Seq::empty());
        reveal_with_fuel(round_channels, 2);
        assert(round_channels(parts) =~= channels);
    } else {
        let more = round_parts(by, channels.skip(n), None);
        law_round_covers_channels(by, channels.skip(n), None);
        assert(parts.skip(1) =~= more);
        assert(channels.take(n) + channels.skip(n) =~= channels);
        assert forall|i: int| 0 < i < parts.len() implies (#[trigger] parts[i]).1 is None by {
            assert(parts[i] == more[i - 1]);
        }
    }
}

/// Bytes that a list of channels takes in an announcement.
pub open spec fn channels_size(channels: Seq<ChannelInfoView>) -> nat {
    all_bytes(channels, |c: ChannelInfoView| channel_info_bytes(c)).len()
}

/// Size of an announcement.
pub proof fn lemma_announcement_size(
    by: Announcer,
    channels: Seq<ChannelInfoView>,
    ping: Option<i64>,
)
    ensures
        announcement(by, channels, ping).len() == 60 + by.peer_name.len() + channels_size(channels)
            + if ping is Some {
            16int
        } else {
            0
        },
{
    let m = MessageView::PeerAnnouncement {
        session: by.session,
        peer_name: by.peer_name,
        channels,
        ping,
    };
    let f = nominal_frame(by.node, m);
    lemma_prefix_roundtrip(MAGIC@, frame_prefix(f), payload_bytes(m));
    lemma_entry_len(KEY_SESS, by.session.0@);
    lemma_entry_len(KEY_PI, string_bytes(by.peer_name));
    lemma_be_bytes_len((by.peer_name.len() as u32) as nat, 4);
    lemma_entry_len(KEY_AUCA, channel_list_bytes(channels));
    lemma_be_bytes_len((channels.len() as u32) as nat, 4);
    if let Some(ht) = ping {
        lemma_be_bytes_len((ht as u64) as nat, 8);
        lemma_entry_len(KEY_HT, i64_bytes(ht));
    }
}

proof fn lemma_taken_fits(
    by: Announcer,
    channels: Seq<ChannelInfoView>,
    ping: Option<i64>,
    n: nat,
)
    requires
        n <= channels.len(),
        by.peer_name.len() <= MAX_NAME,
        forall|i: int| 0 <= i < channels.len() ==> (#[trigger] channels[i]).name.len() <= MAX_NAME,
        announcement(by, channels.take(n as int), ping).len() <= 20 + MAX_PAYLOAD,
    ensures
        announcement(
            by,
            channels.take(taken_count(by, channels, ping, n) as int),
            ping,
        ).len() <= 20 + MAX_PAYLOAD,
    decreases channels.len() - n,
{
    if n < channels.len() && !(n > 0 && announcement(by, channels.take(n as int + 1), ping).len() > 20
        + MAX_PAYLOAD) {
        if n == 0 {
            let one = channels.take(1);
            let none = Seq::<ChannelInfoView>::empty();
            lemma_announcement_size(by, one, ping);
            lemma_all_bytes_push(none, channels[0], |c: ChannelInfoView| channel_info_bytes(c));
            assert(none.push(channels[0]) =~= one);
            lemma_be_bytes_len((channels[0].name.len() as u32) as nat, 4);
        }
        lemma_taken_fits(by, channels, ping, n + 1);
    }
}

/// With names cut to the cap, every message of a round keeps to the payload
/// budget.
pub proof fn law_round_messages_fit(
    by: Announcer,
    channels: Seq<ChannelInfoView>,
    ping: Option<i64>,
)
    requires
        by.peer_name.len() <= MAX_NAME,
        forall|i: int| 0 <= i < channels.len() ==> (#[trigger] channels[i]).name.len() <= MAX_NAME,
    ensures
        forall|i: int|
            0 <= i < round_parts(by, channels, ping).len() ==> {
                let part = #[trigger] round_parts(by, channels, ping)[i];
                announcement(by, part.0, part.1).len() <= 20 + MAX_PAYLOAD
            },
    decreases channels.len(),
{
    let parts = round_parts(by, channels, ping);
    let n = taken_count(by, channels, ping, 0) as int;
    lemma_taken_count(by, channels, ping, 0);
    lemma_announcement_size(by, channels.take(0), ping);
    assert(channels.take(0) =~= Seq::empty());
    lemma_taken_fits(by, channels, ping, 0);
    if n >= channels.len() {
        assert(channels.take(n) =~= channels);
    } else {
        let rest = channels.skip(n);
        let more = round_parts(by, rest, None);
        assert forall|i: int| 0 <= i < rest.len() implies (#[trigger] rest[i]).name.len()
            <= MAX_NAME by {
            assert(rest[i] == channels[i + n]);
        }
        law_round_messages_fit(by, rest, None);
        assert forall|i: int| 0 <= i < parts.len() implies {
            let part = #[trigger] parts[i];
            announcement(by, part.0, part.1).len() <= 20 + MAX_PAYLOAD
        } by {
            if i > 0 {
                assert(parts[i] == more[i - 1]);
            }
        }
    }
}

proof fn lemma_taken_is_full(
    by: Announcer,
    channels: Seq<ChannelInfoView>,
    ping: Option<i64>,
    n: nat,
)
    requires
        n <= channels.len(),
    ensures
        ({
            let m = taken_count(by, channels, ping, n) as int;
            m < channels.len() ==> announcement(by, channels.take(m + 1), ping).len() > 20
                + MAX_PAYLOAD
        }),
    decreases channels.len() - n,
{
    if n < channels.len() && !(n > 0 && announcement(by, channels.take(n as int + 1), ping).len()
        > 20 + MAX_PAYLOAD) {
        lemma_taken_is_full(by, channels, ping, n + 1);
    }
}

/// A round takes no more messages than it needs: each but the last is full, the
/// first channel of the next one would not fit it any more.
pub proof fn law_round_messages_are_full(
    by: Announcer,
    channels: Seq<ChannelInfoView>,
    ping: Option<i64>,
    i: int,
)
    requires
        0 <= i < round_parts(by, channels, ping).len() - 1,
    ensures
        ({
            let parts = round_parts(by, channels, ping);
            &&& parts[i + 1].0.len() > 0
            &&& announcement(by, parts[i].0.push(parts[i + 1].0[0]), parts[i].1).len() > 1196
        }),
    decreases channels.len(),
{
    let parts = round_parts(by, channels, ping);
    let n = taken_count(by, channels, ping, 0) as int;
    lemma_taken_count(by, channels, ping, 0);
    if n < channels.len() {
        let rest = channels.skip(n);
        let more = round_parts(by, rest, None);
        lemma_taken_count(by, rest, None, 0);
        if i == 0 {
            lemma_taken_is_full(by, channels, ping, 0);
            assert(parts[1] == more[0]);
            assert(channels.take(n).push(rest[0]) =~= channels.take(n + 1));
        } else {
            law_round_messages_are_full(by, rest, None, i - 1);
            assert(parts[i] == more[i - 1]);
            assert(parts[i + 1] == more[i]);
        }
    }
}

} // verus!
