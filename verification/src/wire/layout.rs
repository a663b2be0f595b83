//! Where each field stands on the wire.

use vstd::prelude::*;

use crate::wire::{audio, discovery};
use crate::wire::audio::{
    all_bytes, audio_buffer_bytes, channel_info_bytes, channel_list_bytes, chunk_bytes,
    id_list_bytes, AudioBufferView, ChannelInfoView, Chunk, MessageView,
};
use crate::wire::codec::{
    be_bytes, be_value, entry_bytes, lemma_be_bytes_len, lemma_be_value_of_bytes, lemma_one_byte,
    lemma_pow256_widths, pow256, string_bytes,
};
use crate::wire::discovery::{peer_state_bytes, PeerState};
use crate::wire::prefix::{prefix_bytes, Prefix};
use crate::wire::sync::{ping_bytes, pong_bytes, MAGIC};
use crate::wire::types::{
    endpoint_bytes, i64_bytes, start_stop_bytes, timeline_bytes, Id, SessionId, SocketAddr,
    StartStopState, Timeline,
};

verus! {

/// The number that bytes stand for, the most significant one first.
pub open spec fn number(s: Seq<u8>) -> int
    decreases s.len(),
{
    if s.len() == 0 {
        0
    } else {
        256 * number(s.drop_last()) + s.last()
    }
}

/// The number that eight bytes stand for in two's complement.
pub open spec fn signed(s: Seq<u8>) -> int {
    if number(s) >= 0x8000_0000_0000_0000 {
        number(s) - 0x1_0000_0000_0000_0000
    } else {
        number(s)
    }
}

proof fn lemma_number(s: Seq<u8>)
    ensures
        number(s) == be_value(s),
    decreases s.len(),
{
    if s.len() > 0 {
        lemma_number(s.drop_last());
    }
}

proof fn lemma_number_of(v: nat, n: nat)
    requires
        v < pow256(n),
    ensures
        be_bytes(v, n).len() == n,
        number(be_bytes(v, n)) == v,
{
    lemma_be_bytes_len(v, n);
    lemma_be_value_of_bytes(v, n);
    lemma_number(be_bytes(v, n));
}

proof fn lemma_signed(v: i64)
    ensures
        i64_bytes(v).len() == 8,
        signed(i64_bytes(v)) == v,
{
    lemma_pow256_widths();
    lemma_number_of((v as u64) as nat, 8);
    assert(v >= 0 ==> (v as u64) as int == v) by (bit_vector);
    assert(v < 0 ==> (v as u64) as int == v + 0x1_0000_0000_0000_0000) by (bit_vector);
}

/// A timeline is 24 bytes: tempo, beat origin, time origin.
pub proof fn law_timeline_layout(t: Timeline)
    ensures
        ({
            let b = timeline_bytes(t);
            &&& b.len() == 24
            &&& signed(b.subrange(0, 8)) == t.tempo
            &&& signed(b.subrange(8, 16)) == t.beat_origin
            &&& signed(b.subrange(16, 24)) == t.time_origin
        }),
{
    let b = timeline_bytes(t);
    lemma_signed(t.tempo);
    lemma_signed(t.beat_origin);
    lemma_signed(t.time_origin);
    assert(b.subrange(0, 8) =~= i64_bytes(t.tempo));
    assert(b.subrange(8, 16) =~= i64_bytes(t.beat_origin));
    assert(b.subrange(16, 24) =~= i64_bytes(t.time_origin));
}

/// A transport state is 17 bytes: whether it plays, the beat, the timestamp.
pub proof fn law_start_stop_layout(s: StartStopState)
    ensures
        ({
            let b = start_stop_bytes(s);
            &&& b.len() == 17
            &&& b[0] == if s.is_playing {
                1int
            } else {
                0
            }
            &&& signed(b.subrange(1, 9)) == s.beats
            &&& signed(b.subrange(9, 17)) == s.timestamp
        }),
{
    let b = start_stop_bytes(s);
    lemma_one_byte(
        if s.is_playing {
            1
        } else {
            0
        },
    );
    lemma_signed(s.beats);
    lemma_signed(s.timestamp);
    assert(b.subrange(1, 9) =~= i64_bytes(s.beats));
    assert(b.subrange(9, 17) =~= i64_bytes(s.timestamp));
}

/// An endpoint is its address, of four bytes or sixteen, then its port.
pub proof fn law_endpoint_layout(ep: SocketAddr)
    ensures
        ({
            let b = endpoint_bytes(ep);
            match ep {
                SocketAddr::V4(v4) => {
                    &&& b.len() == 6
                    &&& number(b.subrange(0, 4)) == v4.ip
                    &&& number(b.subrange(4, 6)) == v4.port
                },
                SocketAddr::V6(v6) => {
                    &&& b.len() == 18
                    &&& number(b.subrange(0, 16)) == v6.ip
                    &&& number(b.subrange(16, 18)) == v6.port
                },
            }
        }),
{
    let b = endpoint_bytes(ep);
    lemma_pow256_widths();
    match ep {
        SocketAddr::V4(v4) => {
            lemma_number_of(v4.ip as nat, 4);
            lemma_number_of(v4.port as nat, 2);
            assert(b.subrange(0, 4) =~= be_bytes(v4.ip as nat, 4));
            assert(b.subrange(4, 6) =~= be_bytes(v4.port as nat, 2));
        },
        SocketAddr::V6(v6) => {
            lemma_number_of(v6.ip as nat, 16);
            lemma_number_of(v6.port as nat, 2);
            assert(b.subrange(0, 16) =~= be_bytes(v6.ip as nat, 16));
            assert(b.subrange(16, 18) =~= be_bytes(v6.port as nat, 2));
        },
    }
}

/// An entry is its key, the size of its value, and the value.
pub proof fn law_entry_layout(key: u32, value: Seq<u8>)
    requires
        value.len() <= u32::MAX,
    ensures
        ({
            let b = entry_bytes(key, value);
            &&& b.len() == 8 + value.len()
            &&& number(b.subrange(0, 4)) == key
            &&& number(b.subrange(4, 8)) == value.len()
            &&& b.skip(8) == value
        }),
{
    let b = entry_bytes(key, value);
    lemma_pow256_widths();
    lemma_number_of(key as nat, 4);
    lemma_number_of((value.len() as u32) as nat, 4);
    assert(b.subrange(0, 4) =~= be_bytes(key as nat, 4));
    assert(b.subrange(4, 8) =~= be_bytes((value.len() as u32) as nat, 4));
    assert(b.skip(8) =~= value);
}

proof fn lemma_prefix_layout(magic: Seq<u8>, p: Prefix, payload: Seq<u8>)
    requires
        magic.len() == 8,
    ensures
        ({
            let b = prefix_bytes(magic, p) + payload;
            &&& b.len() == 20 + payload.len()
            &&& b.take(8) == magic
            &&& b[8] == p.msg_type
            &&& b[9] == p.ttl
            &&& number(b.subrange(10, 12)) == p.group_id
            &&& b.subrange(12, 20) == p.node.0@
            &&& b.skip(20) == payload
        }),
{
    let b = prefix_bytes(magic, p) + payload;
    lemma_pow256_widths();
    lemma_one_byte(p.msg_type);
    lemma_one_byte(p.ttl);
    lemma_number_of(p.group_id as nat, 2);
    assert(b.take(8) =~= magic);
    assert(b.subrange(10, 12) =~= be_bytes(p.group_id as nat, 2));
    assert(b.subrange(12, 20) =~= p.node.0@);
    assert(b.skip(20) =~= payload);
}

/// A discovery datagram is the eight bytes `_asdp_v` and 1, its type (1 for an
/// Alive, 2 for a Response, 3 for a goodbye), its ttl, its group, its sender,
/// and the sender's state unless it is a goodbye.
pub proof fn law_discovery_layout(f: discovery::Frame)
    ensures
        ({
            let b = discovery::frame_bytes(f);
            &&& b.len() >= 20
            &&& b.take(8) == seq![0x5fu8, 0x61, 0x73, 0x64, 0x70, 0x5f, 0x76, 0x01]
            &&& b[8] == match f.message {
                discovery::Message::Alive(_) => 1int,
                discovery::Message::Response(_) => 2,
                discovery::Message::ByeBye => 3,
            }
            &&& b[9] == f.ttl
            &&& number(b.subrange(10, 12)) == f.group_id
            &&& b.subrange(12, 20) == f.node.0@
            &&& match f.message {
                discovery::Message::Alive(s) => b.skip(20) == peer_state_bytes(s),
                discovery::Message::Response(s) => b.skip(20) == peer_state_bytes(s),
                discovery::Message::ByeBye => b.len() == 20,
            }
        }),
{
    let magic = discovery::MAGIC@;
    assert(magic =~= seq![0x5fu8, 0x61, 0x73, 0x64, 0x70, 0x5f, 0x76, 0x01]);
    lemma_prefix_layout(
        magic,
        Prefix {
            msg_type: discovery::type_of(f.message),
            ttl: f.ttl,
            group_id: f.group_id,
            node: f.node,
        },
        discovery::payload_of(f.message),
    );
}

/// One entry, or none.
pub open spec fn entry_or_none(there: bool, key: u32, value: Seq<u8>) -> Seq<u8> {
    if there {
        entry_bytes(key, value)
    } else {
        Seq::empty()
    }
}

/// A peer state is an entry for each field that it has: `tmln`, `sess`, `stst`,
/// `mep4` or `mep6`, `aep4` or `aep6`.
pub proof fn law_peer_state_layout(s: PeerState)
    ensures
        ({
            let tmln = entry_or_none(
                s.timeline is Some,
                0x746d_6c6e,
                timeline_bytes(s.timeline->0),
            );
            let sess = entry_or_none(s.session is Some, 0x7365_7373, (s.session->0).0@);
            let stst = entry_or_none(
                s.start_stop is Some,
                0x7374_7374,
                start_stop_bytes(s.start_stop->0),
            );
            let mep = entry_or_none(
                s.measurement_endpoint is Some,
                if s.measurement_endpoint->0 is V4 {
                    0x6d65_7034
                } else {
                    0x6d65_7036
                },
                endpoint_bytes(s.measurement_endpoint->0),
            );
            let aep = entry_or_none(
                s.audio_endpoint is Some,
                if s.audio_endpoint->0 is V4 {
                    0x6165_7034
                } else {
                    0x6165_7036
                },
                endpoint_bytes(s.audio_endpoint->0),
            );
            peer_state_bytes(s) == tmln + (sess + (stst + (mep + aep)))
        }),
{
}

/// A ping is the eight bytes `_link_v` and 1, the type 1, an entry `__ht` with
/// the sender's time, and `_pgt` with the ghost time of the pong before.
pub proof fn law_ping_layout(host_time: i64, prev_ghost_time: Option<i64>)
    ensures
        ({
            let b = ping_bytes(host_time, prev_ghost_time);
            &&& b.len() >= 9
            &&& b.take(8) == seq![0x5fu8, 0x6c, 0x69, 0x6e, 0x6b, 0x5f, 0x76, 0x01]
            &&& b[8] == 1
            &&& b.skip(9) == entry_bytes(0x5f5f_6874, i64_bytes(host_time)) + entry_or_none(
                prev_ghost_time is Some,
                0x5f70_6774,
                i64_bytes(prev_ghost_time->0),
            )
        }),
{
    let b = ping_bytes(host_time, prev_ghost_time);
    let magic = MAGIC@;
    assert(magic =~= seq![0x5fu8, 0x6c, 0x69, 0x6e, 0x6b, 0x5f, 0x76, 0x01]);
    lemma_one_byte(1);
    assert(b.take(8) =~= magic);
    assert(b.skip(9) =~= entry_bytes(0x5f5f_6874, i64_bytes(host_time)) + entry_or_none(
        prev_ghost_time is Some,
        0x5f70_6774,
        i64_bytes(prev_ghost_time->0),
    ));
}

/// A pong is the same eight bytes, the type 2, an entry `sess` with the session,
/// `__gt` with the ghost time, and the payload of the ping.
pub proof fn law_pong_layout(session: SessionId, ghost_time: i64, echo: Seq<u8>)
    ensures
        ({
            let b = pong_bytes(session, ghost_time, echo);
            &&& b.len() >= 9
            &&& b.take(8) == seq![0x5fu8, 0x6c, 0x69, 0x6e, 0x6b, 0x5f, 0x76, 0x01]
            &&& b[8] == 2
            &&& b.skip(9) == entry_bytes(0x7365_7373, session.0@) + entry_bytes(
                0x5f5f_6774,
                i64_bytes(ghost_time),
            ) + echo
        }),
{
    let b = pong_bytes(session, ghost_time, echo);
    let magic = MAGIC@;
    assert(magic =~= seq![0x5fu8, 0x6c, 0x69, 0x6e, 0x6b, 0x5f, 0x76, 0x01]);
    lemma_one_byte(2);
    assert(b.take(8) =~= magic);
    assert(b.skip(9) =~= entry_bytes(0x7365_7373, session.0@) + entry_bytes(
        0x5f5f_6774,
        i64_bytes(ghost_time),
    ) + echo);
}

/// An audio datagram is the eight bytes `chnnlsv` and 1, its type, its ttl, its
/// group, its sender, and what its type says: entries, or a buffer.
pub proof fn law_audio_layout(f: audio::FrameView)
    ensures
        ({
            let b = audio::frame_bytes(f);
            &&& b.len() >= 20
            &&& b.take(8) == seq![0x63u8, 0x68, 0x6e, 0x6e, 0x6c, 0x73, 0x76, 0x01]
            &&& b[9] == f.ttl
            &&& number(b.subrange(10, 12)) == f.group_id
            &&& b.subrange(12, 20) == f.node.0@
            &&& match f.message {
                MessageView::PeerAnnouncement { session, peer_name, channels, ping } => {
                    &&& b[8] == 1
                    &&& b.skip(20) == entry_bytes(0x7365_7373, session.0@) + entry_bytes(
                        0x5f5f_7069,
                        string_bytes(peer_name),
                    ) + entry_bytes(0x6175_6361, channel_list_bytes(channels)) + entry_or_none(
                        ping is Some,
                        0x5f5f_6874,
                        i64_bytes(ping->0),
                    )
                },
                MessageView::ChannelByes { channels } => b[8] == 2 && b.skip(20) == entry_bytes(
                    0x6175_6362,
                    id_list_bytes(channels),
                ),
                MessageView::Pong { host_time } => b[8] == 3 && b.skip(20) == entry_bytes(
                    0x5f5f_6874,
                    i64_bytes(host_time),
                ),
                MessageView::ChannelRequest { channel } => b[8] == 4 && b.skip(20) == entry_bytes(
                    0x6368_6964,
                    channel.0@,
                ),
                MessageView::StopChannelRequest { channel } => b[8] == 5 && b.skip(20)
                    == entry_bytes(0x6368_6964, channel.0@),
                MessageView::AudioBuffer(buf) => b[8] == 6 && b.skip(20) == audio_buffer_bytes(
                    buf,
                ),
            }
        }),
{
    let magic = audio::MAGIC@;
    assert(magic =~= seq![0x63u8, 0x68, 0x6e, 0x6e, 0x6c, 0x73, 0x76, 0x01]);
    lemma_prefix_layout(magic, audio::frame_prefix(f), audio::payload_bytes(f.message));
    if let MessageView::PeerAnnouncement { session, peer_name, channels, ping } = f.message {
        assert(audio::payload_bytes(f.message) =~= entry_bytes(0x7365_7373, session.0@)
            + entry_bytes(0x5f5f_7069, string_bytes(peer_name)) + entry_bytes(
            0x6175_6361,
            channel_list_bytes(channels),
        ) + entry_or_none(ping is Some, 0x5f5f_6874, i64_bytes(ping->0)));
    }
}

/// A string is its length and its bytes.
pub proof fn law_string_layout(s: Seq<u8>)
    requires
        s.len() <= u32::MAX,
    ensures
        string_bytes(s).len() == 4 + s.len(),
        number(string_bytes(s).subrange(0, 4)) == s.len(),
        string_bytes(s).skip(4) == s,
{
    lemma_pow256_widths();
    lemma_number_of((s.len() as u32) as nat, 4);
    assert(string_bytes(s).subrange(0, 4) =~= be_bytes((s.len() as u32) as nat, 4));
    assert(string_bytes(s).skip(4) =~= s);
}

/// A list of channels is their number, then each: its name and its identifier.
pub proof fn law_channel_list_layout(channels: Seq<ChannelInfoView>)
    requires
        channels.len() <= u32::MAX,
    ensures
        ({
            let b = channel_list_bytes(channels);
            &&& b.len() >= 4
            &&& number(b.subrange(0, 4)) == channels.len()
            &&& b.skip(4) == all_bytes(channels, |c: ChannelInfoView| string_bytes(c.name) + c.id.0@)
        }),
{
    let b = channel_list_bytes(channels);
    lemma_pow256_widths();
    lemma_number_of((channels.len() as u32) as nat, 4);
    assert(b.subrange(0, 4) =~= be_bytes((channels.len() as u32) as nat, 4));
    assert((|c: ChannelInfoView| string_bytes(c.name) + c.id.0@) =~= (|c: ChannelInfoView|
        channel_info_bytes(c)));
    assert(b.skip(4) =~= all_bytes(channels, |c: ChannelInfoView| channel_info_bytes(c)));
}

proof fn lemma_ids_at(ids: Seq<Id>, i: int)
    requires
        0 <= i < ids.len(),
    ensures
        ({
            let b = all_bytes(ids, |id: Id| id.0@);
            &&& b.len() == 8 * ids.len()
            &&& b.subrange(8 * i, 8 * i + 8) == ids[i].0@
        }),
    decreases ids.len(),
{
    let form = |id: Id| id.0@;
    let b = all_bytes(ids, form);
    let rest = ids.skip(1);
    if rest.len() > 0 {
        lemma_ids_at(
            rest,
            if i > 0 {
                i - 1
            } else {
                0
            },
        );
    }
    let r = all_bytes(rest, form);
    assert(r.len() == 8 * rest.len());
    assert(b == ids[0].0@ + r);
    if i == 0 {
        assert(b.subrange(0, 8) =~= ids[0].0@);
    } else {
        assert(b.subrange(8 * i, 8 * i + 8) =~= r.subrange(8 * (i - 1), 8 * (i - 1) + 8));
        assert(rest[i - 1] == ids[i]);
    }
}

/// A list of identifiers is their number, then eight bytes for each.
pub proof fn law_id_list_layout(ids: Seq<Id>, i: int)
    requires
        ids.len() <= u32::MAX,
        0 <= i < ids.len(),
    ensures
        ({
            let b = id_list_bytes(ids);
            &&& b.len() == 4 + 8 * ids.len()
            &&& number(b.subrange(0, 4)) == ids.len()
            &&& b.subrange(4 + 8 * i, 12 + 8 * i) == ids[i].0@
        }),
{
    let b = id_list_bytes(ids);
    let r = all_bytes(ids, |id: Id| id.0@);
    lemma_pow256_widths();
    lemma_number_of((ids.len() as u32) as nat, 4);
    lemma_ids_at(ids, i);
    assert(b.subrange(0, 4) =~= be_bytes((ids.len() as u32) as nat, 4));
    assert(b.subrange(4 + 8 * i, 12 + 8 * i) =~= r.subrange(8 * i, 8 * i + 8));
}

/// A chunk record is 26 bytes: its number, its frames, its beat, its tempo.
pub proof fn law_chunk_layout(c: Chunk)
    ensures
        ({
            let b = chunk_bytes(c);
            &&& b.len() == 26
            &&& number(b.subrange(0, 8)) == c.seq
            &&& number(b.subrange(8, 10)) == c.num_frames
            &&& signed(b.subrange(10, 18)) == c.begin_beats
            &&& signed(b.subrange(18, 26)) == c.tempo
        }),
{
    let b = chunk_bytes(c);
    lemma_pow256_widths();
    lemma_number_of(c.seq as nat, 8);
    lemma_number_of(c.num_frames as nat, 2);
    lemma_signed(c.begin_beats);
    lemma_signed(c.tempo);
    assert(b.subrange(0, 8) =~= be_bytes(c.seq as nat, 8));
    assert(b.subrange(8, 10) =~= be_bytes(c.num_frames as nat, 2));
    assert(b.subrange(10, 18) =~= i64_bytes(c.begin_beats));
    assert(b.subrange(18, 26) =~= i64_bytes(c.tempo));
}

proof fn lemma_chunks_at(chunks: Seq<Chunk>, i: int)
    requires
        0 <= i < chunks.len(),
    ensures
        ({
            let b = all_bytes(chunks, |c: Chunk| chunk_bytes(c));
            &&& b.len() == 26 * chunks.len()
            &&& b.subrange(26 * i, 26 * i + 26) == chunk_bytes(chunks[i])
        }),
    decreases chunks.len(),
{
    let form = |c: Chunk| chunk_bytes(c);
    let b = all_bytes(chunks, form);
    let rest = chunks.skip(1);
    law_chunk_layout(chunks[0]);
    if rest.len() > 0 {
        lemma_chunks_at(
            rest,
            if i > 0 {
                i - 1
            } else {
                0
            },
        );
    }
    let r = all_bytes(rest, form);
    assert(r.len() == 26 * rest.len());
    assert(b == chunk_bytes(chunks[0]) + r);
    if i == 0 {
        assert(b.subrange(0, 26) =~= chunk_bytes(chunks[0]));
    } else {
        assert(b.subrange(26 * i, 26 * i + 26) =~= r.subrange(26 * (i - 1), 26 * (i - 1) + 26));
        assert(rest[i - 1] == chunks[i]);
    }
}

/// A buffer is its channel, its session, the number of its chunks and their
/// records, the codec, the sample rate, the number of channels, the size of the
/// samples, and the samples.
pub proof fn law_audio_buffer_layout(b: AudioBufferView, i: int)
    requires
        b.chunks.len() <= u32::MAX,
        b.sample_data.len() <= u16::MAX,
        0 <= i < b.chunks.len(),
    ensures
        ({
            let s = audio_buffer_bytes(b);
            let t = 20 + 26 * b.chunks.len() as int;
            &&& s.len() == t + 8 + b.sample_data.len()
            &&& s.subrange(0, 8) == b.channel.0@
            &&& s.subrange(8, 16) == b.session.0@
            &&& number(s.subrange(16, 20)) == b.chunks.len()
            &&& s.subrange(20 + 26 * i, 46 + 26 * i) == chunk_bytes(b.chunks[i])
            &&& s[t] == b.codec
            &&& number(s.subrange(t + 1, t + 5)) == b.sample_rate
            &&& s[t + 5] == b.num_channels
            &&& number(s.subrange(t + 6, t + 8)) == b.sample_data.len()
            &&& s.skip(t + 8) == b.sample_data
        }),
{
    let s = audio_buffer_bytes(b);
    let n = b.chunks.len() as int;
    let t = 20 + 26 * n;
    let count = be_bytes((b.chunks.len() as u32) as nat, 4);
    let records = all_bytes(b.chunks, |c: Chunk| chunk_bytes(c));
    let rate = be_bytes(b.sample_rate as nat, 4);
    let size = be_bytes((b.sample_data.len() as u16) as nat, 2);
    lemma_pow256_widths();
    lemma_number_of((b.chunks.len() as u32) as nat, 4);
    lemma_number_of(b.sample_rate as nat, 4);
    lemma_number_of((b.sample_data.len() as u16) as nat, 2);
    lemma_one_byte(b.codec);
    lemma_one_byte(b.num_channels);
    lemma_chunks_at(b.chunks, i);
    assert(s.subrange(0, 8) =~= b.channel.0@);
    assert(s.subrange(8, 16) =~= b.session.0@);
    assert(s.subrange(16, 20) =~= count);
    assert(s.subrange(20 + 26 * i, 46 + 26 * i) =~= records.subrange(26 * i, 26 * i + 26));
    assert(s.subrange(t + 1, t + 5) =~= rate);
    assert(s.subrange(t + 6, t + 8) =~= size);
    assert(s.skip(t + 8) =~= b.sample_data);
}

} // verus!
