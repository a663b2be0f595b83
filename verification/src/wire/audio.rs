//! Audio channel control and audio streaming messages.

use vstd::prelude::*;

use crate::wire::codec::{
    be_bytes, be_value, container_bytes, entry_bytes, exactly, fold_entries,
    law_unknown_entries_are_skipped, lemma_be_bytes_len, lemma_be_value_of_bytes, lemma_eight,
    lemma_fold_entry, lemma_parse_i64, lemma_parse_string,
    lemma_parse_u16, lemma_parse_u32, lemma_parse_u64, lemma_parse_u8, lemma_parse_uint_inverse,
    lemma_pow256_widths, owned_bytes, parse_i64, parse_string, parse_u16, parse_u32, parse_u64,
    parse_u8, read_i64, string_bytes, Entries, Error, Reader, Writer,
};
use crate::wire::prefix::{
    lemma_prefix_inverse, lemma_prefix_roundtrip, prefix_bytes, prefix_of, read_prefix,
    write_prefix, Prefix,
};
use crate::wire::types::{
    i64_bytes, lemma_i64_value, lemma_parse_id, parse_id, write_i64_entry, write_id_entry,
    ChannelId, Id, NodeId, SessionId,
};

verus! {

/// Frame magic: ASCII `chnnlsv` + version byte 0x01.
pub const MAGIC: [u8; 8] = [0x63, 0x68, 0x6e, 0x6e, 0x6c, 0x73, 0x76, 0x01];

/// Maximum datagram size, chosen to avoid IP fragmentation.
pub const MAX_MESSAGE_SIZE: usize = 1200;

/// Sender-side payload budget.
pub const MAX_PAYLOAD: usize = 1176;

/// Receivers accept payloads up to this.
pub const MAX_RECV_PAYLOAD: usize = 1180;

/// Sender-side cap on sample bytes per datagram.
pub const SAMPLE_BYTE_CAP: usize = 502;

/// Peer/channel names are truncated to this before transmit.
pub const MAX_NAME: usize = 256;

/// Announcement / request validity, seconds.
pub const TTL_SECONDS: u8 = 5;

/// Announcement nominal period.
pub const ANNOUNCE_PERIOD_MS: u64 = 250;

/// Source re-request period.
pub const REQUEST_PERIOD_MS: u64 = 5000;

/// PCM i16 codec value.
pub const CODEC_PCM_I16: u8 = 1;

/// Wire size of one chunk record.
pub const CHUNK_RECORD_SIZE: usize = 26;

/// Fixed non-chunk bytes of an audio-buffer payload: channel + session +
/// chunk count + codec + rate + channels + byte count.
pub const AUDIO_FIXED_OVERHEAD: usize = 28;

/// Per-chunk frame bound a sender must respect: some receivers stage each
/// chunk in a fixed buffer of this many samples.
pub const V1_MAX_CHUNK_FRAMES: usize = 512;

pub const TYPE_PEER_ANNOUNCEMENT: u8 = 1;

pub const TYPE_CHANNEL_BYES: u8 = 2;

pub const TYPE_PONG: u8 = 3;

pub const TYPE_CHANNEL_REQUEST: u8 = 4;

pub const TYPE_STOP_CHANNEL_REQUEST: u8 = 5;

pub const TYPE_AUDIO_BUFFER: u8 = 6;

/// `sess`: session.
pub const KEY_SESS: u32 = 0x7365_7373;

/// `__pi`: peer info (display name).
pub const KEY_PI: u32 = 0x5f5f_7069;

/// `auca`: channel announcements.
pub const KEY_AUCA: u32 = 0x6175_6361;

/// `aucb`: channel byes.
pub const KEY_AUCB: u32 = 0x6175_6362;

/// `chid`: channel request id.
pub const KEY_CHID: u32 = 0x6368_6964;

/// `__ht`: keepalive ping.
pub const KEY_HT: u32 = 0x5f5f_6874;

// ------------------------------------------------------------- value types

/// One announced channel: display name + stable identifier.
#[derive(Debug, Clone, PartialEq, Eq)]
pub struct ChannelInfo {
    pub name: Vec<u8>,
    pub id: ChannelId,
}

/// The content of a [`ChannelInfo`].
pub struct ChannelInfoView {
    pub name: Seq<u8>,
    pub id: ChannelId,
}

impl View for ChannelInfo {
    type V = ChannelInfoView;

    open spec fn view(&self) -> ChannelInfoView {
        ChannelInfoView { name: self.name@, id: self.id }
    }
}

/// The contents of a list of channels.
pub open spec fn channel_views(channels: Seq<ChannelInfo>) -> Seq<ChannelInfoView> {
    Seq::new(channels.len(), |i: int| channels[i]@)
}

/// One frame-run-to-beat-grid mapping.
#[derive(Debug, Clone, Copy, PartialEq, Eq, Structural)]
pub struct Chunk {
    /// Increases by 1 per chunk the sender creates on this channel; first = 1.
    pub seq: u64,
    /// Frames covered by this chunk.
    pub num_frames: u16,
    /// Session beat time of the chunk's first frame, micro-beats.
    pub begin_beats: i64,
    /// Tempo during this chunk, µs per beat.
    pub tempo: i64,
}

/// The bare audio-buffer structure: not wrapped in a payload container.
#[derive(Debug, Clone, PartialEq, Eq)]
pub struct AudioBuffer {
    pub channel: ChannelId,
    /// The sender's session; the beat mapping is undefined across sessions.
    pub session: SessionId,
    pub chunks: Vec<Chunk>,
    /// Codec value; only [`CODEC_PCM_I16`] is defined.
    pub codec: u8,
    pub sample_rate: u32,
    /// Interleaved channel count.
    pub num_channels: u8,
    /// Encoded sample bytes, exactly as on the wire (big-endian i16 for
    /// codec 1, frame-interleaved).
    pub sample_data: Vec<u8>,
}

/// The content of an [`AudioBuffer`].
pub struct AudioBufferView {
    pub channel: ChannelId,
    pub session: SessionId,
    pub chunks: Seq<Chunk>,
    pub codec: u8,
    pub sample_rate: u32,
    pub num_channels: u8,
    pub sample_data: Seq<u8>,
}

impl View for AudioBuffer {
    type V = AudioBufferView;

    open spec fn view(&self) -> AudioBufferView {
        AudioBufferView {
            channel: self.channel,
            session: self.session,
            chunks: self.chunks@,
            codec: self.codec,
            sample_rate: self.sample_rate,
            num_channels: self.num_channels,
            sample_data: self.sample_data@,
        }
    }
}

/// The frames that a list of chunks covers.
pub open spec fn sum_frames(chunks: Seq<Chunk>) -> nat
    decreases chunks.len(),
{
    if chunks.len() == 0 {
        0
    } else {
        sum_frames(chunks.drop_last()) + chunks.last().num_frames as nat
    }
}

pub proof fn lemma_sum_frames_bound(chunks: Seq<Chunk>)
    ensures
        sum_frames(chunks) <= 65535 * chunks.len(),
    decreases chunks.len(),
{
    if chunks.len() > 0 {
        lemma_sum_frames_bound(chunks.drop_last());
    }
}

pub proof fn lemma_sum_frames_prefix(chunks: Seq<Chunk>, n: int)
    requires
        0 <= n <= chunks.len(),
    ensures
        sum_frames(chunks.take(n)) <= sum_frames(chunks),
    decreases chunks.len(),
{
    if n < chunks.len() {
        lemma_sum_frames_prefix(chunks.drop_last(), n);
        assert(chunks.drop_last().take(n) =~= chunks.take(n));
    } else {
        assert(chunks.take(n) =~= chunks);
    }
}

/// The wire form of one sample.
pub open spec fn sample_bytes(s: i16) -> Seq<u8> {
    be_bytes((s as u16) as nat, 2)
}

/// The sample that two wire bytes hold.
pub open spec fn sample_value(b: Seq<u8>) -> i16 {
    (be_value(b) as u16) as i16
}

/// The samples that wire bytes hold; a last odd byte holds none.
pub open spec fn samples_of(data: Seq<u8>) -> Seq<i16> {
    Seq::new((data.len() / 2) as nat, |i: int| sample_value(data.subrange(2 * i, 2 * i + 2)))
}

/// The concatenated wire forms of a list of items.
pub open spec fn all_bytes<T>(items: Seq<T>, form: spec_fn(T) -> Seq<u8>) -> Seq<u8>
    decreases items.len(),
{
    if items.len() == 0 {
        Seq::empty()
    } else {
        form(items[0]) + all_bytes(items.skip(1), form)
    }
}

pub proof fn lemma_all_bytes_push<T>(items: Seq<T>, item: T, form: spec_fn(T) -> Seq<u8>)
    ensures
        all_bytes(items.push(item), form) == all_bytes(items, form) + form(item),
    decreases items.len(),
{
    let whole = items.push(item);
    if items.len() == 0 {
        reveal_with_fuel(all_bytes, 2);
        assert(whole.skip(1) =~= Seq::<T>::empty());
        assert(all_bytes(whole, form) =~= all_bytes(items, form) + form(item));
    } else {
        assert(whole.skip(1) =~= items.skip(1).push(item));
        lemma_all_bytes_push(items.skip(1), item, form);
        assert(all_bytes(whole, form) =~= all_bytes(items, form) + form(item));
    }
}

/// The wire form of a list of samples.
pub open spec fn samples_bytes(samples: Seq<i16>) -> Seq<u8> {
    all_bytes(samples, |s: i16| sample_bytes(s))
}

impl AudioBuffer {
    /// Total frames covered by the chunk list.
    pub fn total_frames(&self) -> (n: u32)
        requires
            sum_frames(self.chunks@) <= u32::MAX,
        ensures
            n == sum_frames(self.chunks@),
    {
        let mut n: u32 = 0;
        let mut i: usize = 0;
        while i < self.chunks.len()
            invariant
                i <= self.chunks@.len(),
                sum_frames(self.chunks@) <= u32::MAX,
                n == sum_frames(self.chunks@.take(i as int)),
            decreases self.chunks@.len() - i,
        {
            proof {
                lemma_sum_frames_prefix(self.chunks@, i + 1);
                assert(self.chunks@.take(i + 1).drop_last() =~= self.chunks@.take(i as int));
            }
            n = n + self.chunks[i].num_frames as u32;
            i = i + 1;
        }
        proof {
            assert(self.chunks@.take(i as int) =~= self.chunks@);
        }
        n
    }

    /// Decode codec-1 sample data to native-endian samples.
    pub fn samples(&self) -> (v: Vec<i16>)
        ensures
            v@ == samples_of(self.sample_data@),
    {
        let mut out: Vec<i16> = Vec::new();
        let mut r = Reader::new(self.sample_data.as_slice());
        let n = self.sample_data.len() / 2;
        let mut i: usize = 0;
        while i < n
            invariant
                n == self.sample_data@.len() / 2,
                i <= n,
                r@ == self.sample_data@.skip(2 * i),
                out@ =~= samples_of(self.sample_data@).take(i as int),
            decreases n - i,
        {
            let ghost data = self.sample_data@;
            proof {
                assert(data.skip(2 * i).take(2) =~= data.subrange(2 * i, 2 * i + 2));
                assert(data.skip(2 * i).skip(2) =~= data.skip(2 * (i + 1)));
            }
            if let Ok(s) = r.i16() {
                out.push(s);
            }
            i = i + 1;
        }
        out
    }

    /// Encode native-endian samples as codec-1 wire bytes.
    pub fn encode_samples(samples: &[i16]) -> (v: Vec<u8>)
        ensures
            v@ == samples_bytes(samples@),
    {
        let mut w = Writer::new();
        let mut i: usize = 0;
        while i < samples.len()
            invariant
                i <= samples@.len(),
                w@ == samples_bytes(samples@.take(i as int)),
            decreases samples@.len() - i,
        {
            proof {
                lemma_all_bytes_push(
                    samples@.take(i as int),
                    samples@[i as int],
                    |s: i16| sample_bytes(s),
                );
                assert(samples@.take(i + 1) =~= samples@.take(i as int).push(samples@[i as int]));
            }
            w.i16(samples[i]);
            i = i + 1;
        }
        proof {
            assert(samples@.take(i as int) =~= samples@);
        }
        w.into_vec()
    }
}

// ------------------------------------------------------ messages and frames

#[derive(Debug, Clone, PartialEq, Eq)]
pub enum Message {
    /// Unicast peer/channel announcement with optional embedded ping.
    PeerAnnouncement {
        session: SessionId,
        peer_name: Vec<u8>,
        channels: Vec<ChannelInfo>,
        /// `__ht` keepalive ping: sender's local clock µs. Present on exactly
        /// the first announcement of a per-destination round.
        ping: Option<i64>,
    },
    /// Withdraws the listed channels published by the header's sender.
    ChannelByes { channels: Vec<ChannelId> },
    /// Echoes a ping's `__ht` unchanged.
    Pong { host_time: i64 },
    /// Subscribe to a channel for header-`ttl` seconds.
    ChannelRequest { channel: ChannelId },
    /// Immediately withdraw the sender's request; ttl 0.
    StopChannelRequest { channel: ChannelId },
    /// Beat-stamped audio; ttl 0.
    AudioBuffer(AudioBuffer),
}

/// The content of a [`Message`].
pub enum MessageView {
    PeerAnnouncement {
        session: SessionId,
        peer_name: Seq<u8>,
        channels: Seq<ChannelInfoView>,
        ping: Option<i64>,
    },
    ChannelByes { channels: Seq<ChannelId> },
    Pong { host_time: i64 },
    ChannelRequest { channel: ChannelId },
    StopChannelRequest { channel: ChannelId },
    AudioBuffer(AudioBufferView),
}

impl View for Message {
    type V = MessageView;

    open spec fn view(&self) -> MessageView {
        match *self {
            Message::PeerAnnouncement { session, peer_name, channels, ping } =>
                MessageView::PeerAnnouncement {
                session,
                peer_name: peer_name@,
                channels: channel_views(channels@),
                ping,
            },
            Message::ChannelByes { channels } => MessageView::ChannelByes { channels: channels@ },
            Message::Pong { host_time } => MessageView::Pong { host_time },
            Message::ChannelRequest { channel } => MessageView::ChannelRequest { channel },
            Message::StopChannelRequest { channel } => MessageView::StopChannelRequest { channel },
            Message::AudioBuffer(buf) => MessageView::AudioBuffer(buf@),
        }
    }
}

/// One audio datagram.
#[derive(Debug, Clone, PartialEq, Eq)]
pub struct Frame {
    pub ttl: u8,
    /// Always 0 in this version; receivers ignore frames with other values.
    pub group_id: u16,
    /// The sender.
    pub node: NodeId,
    pub message: Message,
}

/// The content of a [`Frame`].
pub struct FrameView {
    pub ttl: u8,
    pub group_id: u16,
    pub node: NodeId,
    pub message: MessageView,
}

impl View for Frame {
    type V = FrameView;

    open spec fn view(&self) -> FrameView {
        FrameView {
            ttl: self.ttl,
            group_id: self.group_id,
            node: self.node,
            message: self.message@,
        }
    }
}

/// The ttl nominally sent with a message.
pub open spec fn nominal_ttl(m: MessageView) -> u8 {
    match m {
        MessageView::StopChannelRequest { .. } => 0,
        MessageView::AudioBuffer(_) => 0,
        _ => TTL_SECONDS,
    }
}

/// The frame nominally sent for a message.
pub open spec fn nominal_frame(node: NodeId, m: MessageView) -> FrameView {
    FrameView { ttl: nominal_ttl(m), group_id: 0, node, message: m }
}

impl Frame {
    /// A frame with the ttl nominally sent for this message type and group 0.
    pub fn new(node: NodeId, message: Message) -> (f: Frame)
        ensures
            f@ == nominal_frame(node, message@),
    {
        let ttl = match &message {
            Message::StopChannelRequest { .. } => 0,
            Message::AudioBuffer(_) => 0,
            _ => TTL_SECONDS,
        };
        Frame { ttl, group_id: 0, node, message }
    }
}

// --------------------------------------------------------------- encoding

pub open spec fn channel_info_bytes(c: ChannelInfoView) -> Seq<u8> {
    string_bytes(c.name) + c.id.0@
}

/// The wire form of a list of channels: its length (the low 32 bits), then
/// the channels.
pub open spec fn channel_list_bytes(channels: Seq<ChannelInfoView>) -> Seq<u8> {
    be_bytes((channels.len() as u32) as nat, 4) + all_bytes(
        channels,
        |c: ChannelInfoView| channel_info_bytes(c),
    )
}

/// The wire form of a list of identifiers.
pub open spec fn id_list_bytes(ids: Seq<Id>) -> Seq<u8> {
    be_bytes((ids.len() as u32) as nat, 4) + all_bytes(ids, |id: Id| id.0@)
}

pub open spec fn chunk_bytes(c: Chunk) -> Seq<u8> {
    be_bytes(c.seq as nat, 8) + be_bytes(c.num_frames as nat, 2) + i64_bytes(c.begin_beats)
        + i64_bytes(c.tempo)
}

/// The wire form of the numbers between the chunks and the samples.
pub open spec fn audio_tail_bytes(codec: u8, sample_rate: u32, num_channels: u8, n: u16) -> Seq<
    u8,
> {
    be_bytes(codec as nat, 1) + be_bytes(sample_rate as nat, 4) + be_bytes(num_channels as nat, 1)
        + be_bytes(n as nat, 2)
}

/// The wire form of an audio buffer.
pub open spec fn audio_buffer_bytes(b: AudioBufferView) -> Seq<u8> {
    b.channel.0@ + (b.session.0@ + (be_bytes((b.chunks.len() as u32) as nat, 4) + (all_bytes(
        b.chunks,
        |c: Chunk| chunk_bytes(c),
    ) + (audio_tail_bytes(b.codec, b.sample_rate, b.num_channels, b.sample_data.len() as u16)
        + b.sample_data))))
}

pub open spec fn ping_entry(ping: Option<i64>) -> Seq<u8> {
    match ping {
        Some(ht) => entry_bytes(KEY_HT, i64_bytes(ht)),
        None => Seq::empty(),
    }
}

/// The payload of an announcement.
pub open spec fn announcement_bytes(
    session: SessionId,
    peer_name: Seq<u8>,
    channels: Seq<ChannelInfoView>,
    ping: Option<i64>,
) -> Seq<u8> {
    entry_bytes(KEY_SESS, session.0@) + (entry_bytes(KEY_PI, string_bytes(peer_name)) + (
    entry_bytes(KEY_AUCA, channel_list_bytes(channels)) + ping_entry(ping)))
}

pub open spec fn type_of(m: MessageView) -> u8 {
    match m {
        MessageView::PeerAnnouncement { .. } => TYPE_PEER_ANNOUNCEMENT,
        MessageView::ChannelByes { .. } => TYPE_CHANNEL_BYES,
        MessageView::Pong { .. } => TYPE_PONG,
        MessageView::ChannelRequest { .. } => TYPE_CHANNEL_REQUEST,
        MessageView::StopChannelRequest { .. } => TYPE_STOP_CHANNEL_REQUEST,
        MessageView::AudioBuffer(_) => TYPE_AUDIO_BUFFER,
    }
}

pub open spec fn payload_bytes(m: MessageView) -> Seq<u8> {
    match m {
        MessageView::PeerAnnouncement { session, peer_name, channels, ping } => announcement_bytes(
            session,
            peer_name,
            channels,
            ping,
        ),
        MessageView::ChannelByes { channels } => entry_bytes(KEY_AUCB, id_list_bytes(channels)),
        MessageView::Pong { host_time } => entry_bytes(KEY_HT, i64_bytes(host_time)),
        MessageView::ChannelRequest { channel } => entry_bytes(KEY_CHID, channel.0@),
        MessageView::StopChannelRequest { channel } => entry_bytes(KEY_CHID, channel.0@),
        MessageView::AudioBuffer(buf) => audio_buffer_bytes(buf),
    }
}

/// The prefix of a frame.
pub open spec fn frame_prefix(f: FrameView) -> Prefix {
    Prefix { msg_type: type_of(f.message), ttl: f.ttl, group_id: f.group_id, node: f.node }
}

/// The datagram of a frame.
pub open spec fn frame_bytes(f: FrameView) -> Seq<u8> {
    prefix_bytes(MAGIC@, frame_prefix(f)) + payload_bytes(f.message)
}

fn write_channel_list(w: &mut Writer, channels: &Vec<ChannelInfo>)
    ensures
        final(w)@ == old(w)@ + channel_list_bytes(channel_views(channels@)),
{
    w.u32(channels.len() as u32);
    let ghost head = w@;
    let ghost views = channel_views(channels@);
    let ghost form = |c: ChannelInfoView| channel_info_bytes(c);
    proof {
        assert(views.take(0) =~= Seq::empty());
        assert(head + all_bytes(views.take(0), form) =~= head);
    }
    let mut i: usize = 0;
    while i < channels.len()
        invariant
            i <= channels@.len(),
            views == channel_views(channels@),
            form == (|c: ChannelInfoView| channel_info_bytes(c)),
            w@ == head + all_bytes(views.take(i as int), form),
        decreases channels@.len() - i,
    {
        let ghost before = w@;
        w.string(channels[i].name.as_slice());
        channels[i].id.write(w);
        proof {
            lemma_all_bytes_push(views.take(i as int), views[i as int], form);
            assert(views.take(i + 1) =~= views.take(i as int).push(views[i as int]));
            assert(w@ =~= before + channel_info_bytes(views[i as int]));
            assert(w@ =~= head + all_bytes(views.take(i + 1), form));
        }
        i = i + 1;
    }
    proof {
        assert(views.take(i as int) =~= views);
        assert(w@ =~= old(w)@ + channel_list_bytes(views));
    }
}

fn write_id_list(w: &mut Writer, ids: &Vec<Id>)
    ensures
        final(w)@ == old(w)@ + id_list_bytes(ids@),
{
    w.u32(ids.len() as u32);
    let ghost head = w@;
    let ghost form = |id: Id| id.0@;
    proof {
        assert(ids@.take(0) =~= Seq::empty());
        assert(head + all_bytes(ids@.take(0), form) =~= head);
    }
    let mut i: usize = 0;
    while i < ids.len()
        invariant
            i <= ids@.len(),
            form == (|id: Id| id.0@),
            w@ == head + all_bytes(ids@.take(i as int), form),
        decreases ids@.len() - i,
    {
        ids[i].write(w);
        proof {
            lemma_all_bytes_push(ids@.take(i as int), ids@[i as int], form);
            assert(ids@.take(i + 1) =~= ids@.take(i as int).push(ids@[i as int]));
            assert(w@ =~= head + all_bytes(ids@.take(i + 1), form));
        }
        i = i + 1;
    }
    proof {
        assert(ids@.take(i as int) =~= ids@);
        assert(w@ =~= old(w)@ + id_list_bytes(ids@));
    }
}

fn write_chunks(w: &mut Writer, chunks: &Vec<Chunk>)
    ensures
        final(w)@ == old(w)@ + all_bytes(chunks@, |c: Chunk| chunk_bytes(c)),
{
    let ghost head = w@;
    let ghost form = |c: Chunk| chunk_bytes(c);
    proof {
        assert(chunks@.take(0) =~= Seq::empty());
        assert(head + all_bytes(chunks@.take(0), form) =~= head);
    }
    let mut i: usize = 0;
    while i < chunks.len()
        invariant
            i <= chunks@.len(),
            form == (|c: Chunk| chunk_bytes(c)),
            w@ == head + all_bytes(chunks@.take(i as int), form),
        decreases chunks@.len() - i,
    {
        let ghost before = w@;
        w.u64(chunks[i].seq);
        w.u16(chunks[i].num_frames);
        w.i64(chunks[i].begin_beats);
        w.i64(chunks[i].tempo);
        proof {
            lemma_all_bytes_push(chunks@.take(i as int), chunks@[i as int], form);
            assert(chunks@.take(i + 1) =~= chunks@.take(i as int).push(chunks@[i as int]));
            assert(w@ =~= before + chunk_bytes(chunks@[i as int]));
            assert(w@ =~= head + all_bytes(chunks@.take(i + 1), form));
        }
        i = i + 1;
    }
    proof {
        assert(chunks@.take(i as int) =~= chunks@);
    }
}

fn write_audio_buffer(w: &mut Writer, buf: &AudioBuffer)
    ensures
        final(w)@ == old(w)@ + audio_buffer_bytes(buf@),
{
    buf.channel.write(w);
    buf.session.write(w);
    w.u32(buf.chunks.len() as u32);
    write_chunks(w, &buf.chunks);
    w.u8(buf.codec);
    w.u32(buf.sample_rate);
    w.u8(buf.num_channels);
    w.u16(buf.sample_data.len() as u16);
    w.bytes(buf.sample_data.as_slice());
    proof {
        assert(w@ =~= old(w)@ + audio_buffer_bytes(buf@));
    }
}

/// Write the entries of an announcement.
fn write_announcement(
    w: &mut Writer,
    session: &SessionId,
    peer_name: &Vec<u8>,
    channels: &Vec<ChannelInfo>,
    ping: &Option<i64>,
)
    ensures
        final(w)@ == old(w)@ + announcement_bytes(
            *session,
            peer_name@,
            channel_views(channels@),
            *ping,
        ),
{
    write_id_entry(w, KEY_SESS, session);
    let ghost w1 = w@;
    let name = |w: &mut Writer|
        ensures
            final(w)@ == old(w)@ + string_bytes(peer_name@),
    {
        w.string(peer_name.as_slice());
    };
    w.entry(KEY_PI, name);
    proof {
        assert(w@ == w1 + entry_bytes(KEY_PI, string_bytes(peer_name@)));
    }
    let ghost w2 = w@;
    let list = |w: &mut Writer|
        ensures
            final(w)@ == old(w)@ + channel_list_bytes(channel_views(channels@)),
    {
        write_channel_list(w, channels);
    };
    w.entry(KEY_AUCA, list);
    proof {
        assert(w@ == w2 + entry_bytes(KEY_AUCA, channel_list_bytes(channel_views(channels@))));
    }
    if let Some(ht) = ping {
        write_i64_entry(w, KEY_HT, *ht);
    }
    proof {
        assert(w@ =~= old(w)@ + announcement_bytes(
            *session,
            peer_name@,
            channel_views(channels@),
            *ping,
        ));
    }
}

fn write_byes(w: &mut Writer, channels: &Vec<ChannelId>)
    ensures
        final(w)@ == old(w)@ + entry_bytes(KEY_AUCB, id_list_bytes(channels@)),
{
    let list = |w: &mut Writer|
        ensures
            final(w)@ == old(w)@ + id_list_bytes(channels@),
    {
        write_id_list(w, channels);
    };
    w.entry(KEY_AUCB, list);
    proof {
        assert(w@ == old(w)@ + entry_bytes(KEY_AUCB, id_list_bytes(channels@)));
    }
}

/// Encode a frame.
pub fn encode(frame: &Frame) -> (v: Vec<u8>)
    ensures
        v@ == frame_bytes(frame@),
{
    let mut w = Writer::new();
    let msg_type = match &frame.message {
        Message::PeerAnnouncement { .. } => TYPE_PEER_ANNOUNCEMENT,
        Message::ChannelByes { .. } => TYPE_CHANNEL_BYES,
        Message::Pong { .. } => TYPE_PONG,
        Message::ChannelRequest { .. } => TYPE_CHANNEL_REQUEST,
        Message::StopChannelRequest { .. } => TYPE_STOP_CHANNEL_REQUEST,
        Message::AudioBuffer(_) => TYPE_AUDIO_BUFFER,
    };
    write_prefix(
        &mut w,
        &MAGIC,
        &Prefix { msg_type, ttl: frame.ttl, group_id: frame.group_id, node: frame.node },
    );
    match &frame.message {
        Message::PeerAnnouncement { session, peer_name, channels, ping } => {
            write_announcement(&mut w, session, peer_name, channels, ping);
        },
        Message::ChannelByes { channels } => {
            write_byes(&mut w, channels);
        },
        Message::Pong { host_time } => {
            write_i64_entry(&mut w, KEY_HT, *host_time);
        },
        Message::ChannelRequest { channel } => {
            write_id_entry(&mut w, KEY_CHID, channel);
        },
        Message::StopChannelRequest { channel } => {
            write_id_entry(&mut w, KEY_CHID, channel);
        },
        Message::AudioBuffer(buf) => {
            write_audio_buffer(&mut w, buf);
        },
    }
    proof {
        assert(w@ =~= frame_bytes(frame@));
    }
    w.into_vec()
}

// --------------------------------------------------------------- decoding

/// What reading up to `n` items makes of `s`, added to `acc`. A list stops at
/// its count or when the bytes run out, whichever comes first.
pub open spec fn parse_list<T>(
    acc: Seq<T>,
    s: Seq<u8>,
    n: nat,
    item: spec_fn(Seq<u8>) -> (Result<T, Error>, Seq<u8>),
) -> (Result<Seq<T>, Error>, Seq<u8>)
    decreases n,
{
    if n == 0 || s.len() == 0 {
        (Ok(acc), s)
    } else {
        match item(s) {
            (Ok(v), rest) => parse_list(acc.push(v), rest, (n - 1) as nat, item),
            (Err(e), rest) => (Err(e), rest),
        }
    }
}

/// What reading a counted list makes of `s`.
pub open spec fn parse_counted<T>(
    s: Seq<u8>,
    item: spec_fn(Seq<u8>) -> (Result<T, Error>, Seq<u8>),
) -> (Result<Seq<T>, Error>, Seq<u8>) {
    match parse_u32(s) {
        (Ok(n), rest) => parse_list(Seq::empty(), rest, n as nat, item),
        (Err(e), rest) => (Err(e), rest),
    }
}

/// What reading one announced channel makes of `s`.
pub open spec fn parse_channel_info(s: Seq<u8>) -> (Result<ChannelInfoView, Error>, Seq<u8>) {
    match parse_string(s) {
        (Err(e), r1) => (Err(e), r1),
        (Ok(name), r1) => match parse_id(r1) {
            (Err(e), r2) => (Err(e), r2),
            (Ok(id), r2) => (Ok(ChannelInfoView { name, id }), r2),
        },
    }
}

pub open spec fn parse_channel_list(s: Seq<u8>) -> (Result<Seq<ChannelInfoView>, Error>, Seq<u8>) {
    parse_counted(s, |b: Seq<u8>| parse_channel_info(b))
}

pub open spec fn parse_id_list(s: Seq<u8>) -> (Result<Seq<Id>, Error>, Seq<u8>) {
    parse_counted(s, |b: Seq<u8>| parse_id(b))
}

/// What reading one chunk record makes of `s`.
pub open spec fn parse_chunk(s: Seq<u8>) -> (Result<Chunk, Error>, Seq<u8>) {
    match parse_u64(s) {
        (Err(e), r1) => (Err(e), r1),
        (Ok(seq), r1) => match parse_u16(r1) {
            (Err(e), r2) => (Err(e), r2),
            (Ok(num_frames), r2) => match parse_i64(r2) {
                (Err(e), r3) => (Err(e), r3),
                (Ok(begin_beats), r3) => match parse_i64(r3) {
                    (Err(e), r4) => (Err(e), r4),
                    (Ok(tempo), r4) => (Ok(Chunk { seq, num_frames, begin_beats, tempo }), r4),
                },
            },
        },
    }
}

/// What reading exactly `n` chunk records makes of `s`, added to `acc`.
pub open spec fn parse_chunks(acc: Seq<Chunk>, s: Seq<u8>, n: nat) -> (
    Result<Seq<Chunk>, Error>,
    Seq<u8>,
)
    decreases n,
{
    if n == 0 {
        (Ok(acc), s)
    } else {
        match parse_chunk(s) {
            (Ok(c), rest) => parse_chunks(acc.push(c), rest, (n - 1) as nat),
            (Err(e), rest) => (Err(e), rest),
        }
    }
}

/// What reading channel, session and chunk count makes of `s`.
pub open spec fn parse_audio_head(s: Seq<u8>) -> (
    Result<(ChannelId, SessionId, u32), Error>,
    Seq<u8>,
) {
    match parse_id(s) {
        (Err(e), r1) => (Err(e), r1),
        (Ok(channel), r1) => match parse_id(r1) {
            (Err(e), r2) => (Err(e), r2),
            (Ok(session), r2) => match parse_u32(r2) {
                (Err(e), r3) => (Err(e), r3),
                (Ok(count), r3) => (Ok((channel, session, count)), r3),
            },
        },
    }
}

/// What reading codec, rate, channel count and byte count makes of `s`.
pub open spec fn parse_audio_tail(s: Seq<u8>) -> (Result<(u8, u32, u8, u16), Error>, Seq<u8>) {
    match parse_u8(s) {
        (Err(e), r1) => (Err(e), r1),
        (Ok(codec), r1) => match parse_u32(r1) {
            (Err(e), r2) => (Err(e), r2),
            (Ok(rate), r2) => match parse_u8(r2) {
                (Err(e), r3) => (Err(e), r3),
                (Ok(num_channels), r3) => match parse_u16(r3) {
                    (Err(e), r4) => (Err(e), r4),
                    (Ok(n), r4) => (Ok((codec, rate, num_channels, n)), r4),
                },
            },
        },
    }
}

/// What an audio-buffer payload decodes to. The chunk list is not empty, the
/// sample bytes extend exactly to the end of the datagram, the codec is the
/// one that is defined, and chunks and sample bytes agree on the frames.
pub open spec fn audio_buffer_of(payload: Seq<u8>) -> Result<AudioBufferView, Error> {
    match parse_audio_head(payload) {
        (Err(e), _) => Err(e),
        (Ok((channel, session, count)), r1) => if count == 0 {
            Err(Error::Malformed("audio buffer with zero chunks"))
        } else {
            match parse_chunks(Seq::empty(), r1, count as nat) {
                (Err(e), _) => Err(e),
                (Ok(chunks), r2) => match parse_audio_tail(r2) {
                    (Err(e), _) => Err(e),
                    (Ok((codec, sample_rate, num_channels, n)), sample_data) => if sample_data.len()
                        != n {
                        Err(Error::Malformed("sample bytes do not fill the datagram"))
                    } else if codec != CODEC_PCM_I16 {
                        Err(Error::Malformed("unsupported codec"))
                    } else if sum_frames(chunks) * num_channels * 2 != n {
                        Err(Error::Malformed("frame count and sample bytes disagree"))
                    } else {
                        Ok(
                            AudioBufferView {
                                channel,
                                session,
                                chunks,
                                codec,
                                sample_rate,
                                num_channels,
                                sample_data,
                            },
                        )
                    },
                },
            }
        },
    }
}

/// The fields of an announcement that entries have set so far.
pub struct AnnouncementFields {
    pub session: Option<SessionId>,
    pub peer_name: Seq<u8>,
    pub channels: Seq<ChannelInfoView>,
    pub ping: Option<i64>,
}

pub open spec fn no_announcement() -> AnnouncementFields {
    AnnouncementFields {
        session: None,
        peer_name: Seq::empty(),
        channels: Seq::empty(),
        ping: None,
    }
}

/// How one entry updates an announcement; unknown keys are skipped.
pub open spec fn announcement_step(acc: AnnouncementFields, key: u32, value: Seq<u8>) -> Result<
    AnnouncementFields,
    Error,
> {
    if key == KEY_SESS {
        match exactly(parse_id(value)) {
            Ok(v) => Ok(AnnouncementFields { session: Some(v), ..acc }),
            Err(e) => Err(e),
        }
    } else if key == KEY_PI {
        match exactly(parse_string(value)) {
            Ok(v) => Ok(AnnouncementFields { peer_name: v, ..acc }),
            Err(e) => Err(e),
        }
    } else if key == KEY_AUCA {
        match exactly(parse_channel_list(value)) {
            Ok(v) => Ok(AnnouncementFields { channels: v, ..acc }),
            Err(e) => Err(e),
        }
    } else if key == KEY_HT {
        match exactly(parse_i64(value)) {
            Ok(v) => Ok(AnnouncementFields { ping: Some(v), ..acc }),
            Err(e) => Err(e),
        }
    } else {
        Ok(acc)
    }
}

pub open spec fn announcement_stepper() -> spec_fn(AnnouncementFields, u32, Seq<u8>) -> Result<
    AnnouncementFields,
    Error,
> {
    |acc: AnnouncementFields, key: u32, value: Seq<u8>| announcement_step(acc, key, value)
}

/// What an announcement payload decodes to.
pub open spec fn announcement_of(payload: Seq<u8>) -> Result<MessageView, Error> {
    match fold_entries(payload, no_announcement(), announcement_stepper()) {
        Ok(a) => match a.session {
            Some(session) => Ok(
                MessageView::PeerAnnouncement {
                    session,
                    peer_name: a.peer_name,
                    channels: a.channels,
                    ping: a.ping,
                },
            ),
            None => Err(Error::Malformed("announcement missing sess")),
        },
        Err(e) => Err(e),
    }
}

/// How one entry updates a list of withdrawn channels.
pub open spec fn byes_stepper() -> spec_fn(Seq<Id>, u32, Seq<u8>) -> Result<Seq<Id>, Error> {
    |acc: Seq<Id>, key: u32, value: Seq<u8>|
        if key == KEY_AUCB {
            exactly(parse_id_list(value))
        } else {
            Ok(acc)
        }
}

/// What a byes payload decodes to.
pub open spec fn byes_of(payload: Seq<u8>) -> Result<MessageView, Error> {
    match fold_entries(payload, Seq::empty(), byes_stepper()) {
        Ok(channels) => Ok(MessageView::ChannelByes { channels }),
        Err(e) => Err(e),
    }
}

/// How one entry updates the host time of a pong.
pub open spec fn pong_stepper() -> spec_fn(Option<i64>, u32, Seq<u8>) -> Result<
    Option<i64>,
    Error,
> {
    |acc: Option<i64>, key: u32, value: Seq<u8>|
        if key == KEY_HT {
            match exactly(parse_i64(value)) {
                Ok(v) => Ok(Some(v)),
                Err(e) => Err(e),
            }
        } else {
            Ok(acc)
        }
}

/// The host time that a pong payload holds.
pub open spec fn pong_time_of(payload: Seq<u8>) -> Result<i64, Error> {
    match fold_entries(payload, None, pong_stepper()) {
        Ok(Some(host_time)) => Ok(host_time),
        Ok(None) => Err(Error::Malformed("pong missing __ht")),
        Err(e) => Err(e),
    }
}

/// How one entry updates the channel of a request.
pub open spec fn request_stepper() -> spec_fn(Option<ChannelId>, u32, Seq<u8>) -> Result<
    Option<ChannelId>,
    Error,
> {
    |acc: Option<ChannelId>, key: u32, value: Seq<u8>|
        if key == KEY_CHID {
            match exactly(parse_id(value)) {
                Ok(v) => Ok(Some(v)),
                Err(e) => Err(e),
            }
        } else {
            Ok(acc)
        }
}

/// The channel that a request payload names.
pub open spec fn request_channel_of(payload: Seq<u8>) -> Result<ChannelId, Error> {
    match fold_entries(payload, None, request_stepper()) {
        Ok(Some(channel)) => Ok(channel),
        Ok(None) => Err(Error::Malformed("request missing chid")),
        Err(e) => Err(e),
    }
}

/// The message of a type and a payload.
pub open spec fn message_of(msg_type: u8, payload: Seq<u8>) -> Result<MessageView, Error> {
    if msg_type == TYPE_PEER_ANNOUNCEMENT {
        announcement_of(payload)
    } else if msg_type == TYPE_CHANNEL_BYES {
        byes_of(payload)
    } else if msg_type == TYPE_PONG {
        match pong_time_of(payload) {
            Ok(host_time) => Ok(MessageView::Pong { host_time }),
            Err(e) => Err(e),
        }
    } else if msg_type == TYPE_CHANNEL_REQUEST {
        match request_channel_of(payload) {
            Ok(channel) => Ok(MessageView::ChannelRequest { channel }),
            Err(e) => Err(e),
        }
    } else if msg_type == TYPE_STOP_CHANNEL_REQUEST {
        match request_channel_of(payload) {
            Ok(channel) => Ok(MessageView::StopChannelRequest { channel }),
            Err(e) => Err(e),
        }
    } else if msg_type == TYPE_AUDIO_BUFFER {
        match audio_buffer_of(payload) {
            Ok(b) => Ok(MessageView::AudioBuffer(b)),
            Err(e) => Err(e),
        }
    } else {
        Err(Error::UnknownMessageType(msg_type))
    }
}

/// What a datagram decodes to.
pub open spec fn decoded(datagram: Seq<u8>) -> Result<FrameView, Error> {
    match prefix_of(MAGIC@, datagram) {
        Ok((p, payload)) => match message_of(p.msg_type, payload) {
            Ok(message) => Ok(
                FrameView { ttl: p.ttl, group_id: p.group_id, node: p.node, message },
            ),
            Err(e) => Err(e),
        },
        Err(e) => Err(e),
    }
}

/// Read a length-prefixed string into bytes of its own.
fn read_name(r: &mut Reader<'_>) -> (res: Result<Vec<u8>, Error>)
    ensures
        match res {
            Ok(v) => parse_string(old(r)@) == (Ok::<_, Error>(v@), final(r)@),
            Err(e) => parse_string(old(r)@) == (Err::<Seq<u8>, _>(e), final(r)@),
        },
{
    let b = r.string()?;
    Ok(owned_bytes(b))
}

fn read_channel_list(r: &mut Reader<'_>) -> (res: Result<Vec<ChannelInfo>, Error>)
    ensures
        match res {
            Ok(v) => parse_channel_list(old(r)@) == (
                Ok::<_, Error>(channel_views(v@)),
                final(r)@,
            ),
            Err(e) => parse_channel_list(old(r)@) == (
                Err::<Seq<ChannelInfoView>, _>(e),
                final(r)@,
            ),
        },
{
    let count = r.u32()?;
    let ghost item = |b: Seq<u8>| parse_channel_info(b);
    let mut out: Vec<ChannelInfo> = Vec::new();
    proof {
        assert(channel_views(out@) =~= Seq::empty());
    }
    let mut i: u32 = 0;
    while i < count && !r.is_empty()
        invariant
            i <= count,
            item == (|b: Seq<u8>| parse_channel_info(b)),
            parse_channel_list(old(r)@) == parse_list(
                channel_views(out@),
                r@,
                (count - i) as nat,
                item,
            ),
        decreases count - i,
    {
        let ghost before = out@;
        let name = owned_bytes(r.string()?);
        let id = ChannelId::read(r)?;
        out.push(ChannelInfo { name, id });
        proof {
            assert(channel_views(out@) =~= channel_views(before).push(
                ChannelInfoView { name: name@, id },
            ));
        }
        i = i + 1;
    }
    Ok(out)
}

fn read_id_list(r: &mut Reader<'_>) -> (res: Result<Vec<Id>, Error>)
    ensures
        match res {
            Ok(v) => parse_id_list(old(r)@) == (Ok::<_, Error>(v@), final(r)@),
            Err(e) => parse_id_list(old(r)@) == (Err::<Seq<Id>, _>(e), final(r)@),
        },
{
    let count = r.u32()?;
    let ghost item = |b: Seq<u8>| parse_id(b);
    let mut out: Vec<Id> = Vec::new();
    let mut i: u32 = 0;
    while i < count && !r.is_empty()
        invariant
            i <= count,
            item == (|b: Seq<u8>| parse_id(b)),
            parse_id_list(old(r)@) == parse_list(out@, r@, (count - i) as nat, item),
        decreases count - i,
    {
        out.push(ChannelId::read(r)?);
        i = i + 1;
    }
    Ok(out)
}

fn read_chunk(r: &mut Reader<'_>) -> (res: Result<Chunk, Error>)
    ensures
        (res, final(r)@) == parse_chunk(old(r)@),
{
    let seq = r.u64()?;
    let num_frames = r.u16()?;
    let begin_beats = r.i64()?;
    let tempo = r.i64()?;
    Ok(Chunk { seq, num_frames, begin_beats, tempo })
}

fn read_chunks(r: &mut Reader<'_>, count: u32) -> (res: Result<Vec<Chunk>, Error>)
    ensures
        match res {
            Ok(v) => parse_chunks(Seq::empty(), old(r)@, count as nat) == (
                Ok::<_, Error>(v@),
                final(r)@,
            ) && v@.len() == count,
            Err(e) => parse_chunks(Seq::empty(), old(r)@, count as nat) == (
                Err::<Seq<Chunk>, _>(e),
                final(r)@,
            ),
        },
{
    let mut out: Vec<Chunk> = Vec::new();
    let mut i: u32 = 0;
    while i < count
        invariant
            i <= count,
            out@.len() == i,
            parse_chunks(Seq::empty(), old(r)@, count as nat) == parse_chunks(
                out@,
                r@,
                (count - i) as nat,
            ),
        decreases count - i,
    {
        out.push(read_chunk(r)?);
        i = i + 1;
    }
    Ok(out)
}

/// The frames that a list of chunks covers.
fn frame_count(chunks: &Vec<Chunk>) -> (n: u64)
    requires
        chunks@.len() <= u32::MAX,
    ensures
        n == sum_frames(chunks@),
        n <= 0xffff_0000_0000,
{
    let mut n: u64 = 0;
    let mut i: usize = 0;
    while i < chunks.len()
        invariant
            i <= chunks@.len(),
            chunks@.len() <= u32::MAX,
            n == sum_frames(chunks@.take(i as int)),
            n <= 65535 * i,
        decreases chunks@.len() - i,
    {
        proof {
            assert(chunks@.take(i + 1).drop_last() =~= chunks@.take(i as int));
        }
        n = n + chunks[i].num_frames as u64;
        i = i + 1;
    }
    proof {
        assert(chunks@.take(i as int) =~= chunks@);
    }
    n
}

/// Decode an audio-buffer payload.
pub fn decode_audio_buffer(payload: &[u8]) -> (res: Result<AudioBuffer, Error>)
    ensures
        match res {
            Ok(b) => audio_buffer_of(payload@) == Ok::<_, Error>(b@),
            Err(e) => audio_buffer_of(payload@) == Err::<AudioBufferView, _>(e),
        },
{
    let mut r = Reader::new(payload);
    let channel = ChannelId::read(&mut r)?;
    let session = SessionId::read(&mut r)?;
    let chunk_count = r.u32()?;
    if chunk_count == 0 {
        return Err(Error::Malformed("audio buffer with zero chunks"));
    }
    let chunks = read_chunks(&mut r, chunk_count)?;
    let codec = r.u8()?;
    let sample_rate = r.u32()?;
    let num_channels = r.u8()?;
    let num_bytes = r.u16()?;
    // The sample data must extend exactly to the end of the datagram.
    if r.remaining() != num_bytes as usize {
        return Err(Error::Malformed("sample bytes do not fill the datagram"));
    }
    let sample_data = owned_bytes(r.rest());
    // Unknown codecs are rejected rather than mis-decoded as PCM.
    if codec != CODEC_PCM_I16 {
        return Err(Error::Malformed("unsupported codec"));
    }
    let frames = frame_count(&chunks);
    proof {
        assert(frames * num_channels <= 0xffff_0000_0000 * 255) by (nonlinear_arith)
            requires
                frames <= 0xffff_0000_0000,
                num_channels <= 255,
        ;
    }
    if frames * num_channels as u64 * 2 != num_bytes as u64 {
        return Err(Error::Malformed("frame count and sample bytes disagree"));
    }
    Ok(AudioBuffer { channel, session, chunks, codec, sample_rate, num_channels, sample_data })
}

fn decode_announcement(payload: &[u8]) -> (res: Result<Message, Error>)
    ensures
        match res {
            Ok(m) => announcement_of(payload@) == Ok::<_, Error>(m@),
            Err(e) => announcement_of(payload@) == Err::<MessageView, _>(e),
        },
{
    let mut session: Option<SessionId> = None;
    let mut peer_name: Vec<u8> = Vec::new();
    let mut channels: Vec<ChannelInfo> = Vec::new();
    let mut ping: Option<i64> = None;
    let mut entries = Entries::new(payload);
    proof {
        assert(channel_views(channels@) =~= Seq::empty());
    }
    loop
        invariant
            fold_entries(payload@, no_announcement(), announcement_stepper()) == fold_entries(
                entries@,
                AnnouncementFields {
                    session,
                    peer_name: peer_name@,
                    channels: channel_views(channels@),
                    ping,
                },
                announcement_stepper(),
            ),
        decreases entries@.len(),
    {
        let entry = match entries.next() {
            Some(entry) => entry?,
            None => {
                return match session {
                    Some(session) => Ok(
                        Message::PeerAnnouncement { session, peer_name, channels, ping },
                    ),
                    None => Err(Error::Malformed("announcement missing sess")),
                };
            },
        };
        if entry.key == KEY_SESS {
            session = Some(entry.decode(SessionId::read)?);
        } else if entry.key == KEY_PI {
            peer_name = entry.decode(read_name)?;
        } else if entry.key == KEY_AUCA {
            channels = entry.decode(read_channel_list)?;
        } else if entry.key == KEY_HT {
            ping = Some(entry.decode(read_i64)?);
        }
    }
}

fn decode_byes(payload: &[u8]) -> (res: Result<Message, Error>)
    ensures
        match res {
            Ok(m) => byes_of(payload@) == Ok::<_, Error>(m@),
            Err(e) => byes_of(payload@) == Err::<MessageView, _>(e),
        },
{
    let mut channels: Vec<ChannelId> = Vec::new();
    let mut entries = Entries::new(payload);
    loop
        invariant
            fold_entries(payload@, Seq::empty(), byes_stepper()) == fold_entries(
                entries@,
                channels@,
                byes_stepper(),
            ),
        decreases entries@.len(),
    {
        let entry = match entries.next() {
            Some(entry) => entry?,
            None => {
                return Ok(Message::ChannelByes { channels });
            },
        };
        if entry.key == KEY_AUCB {
            channels = entry.decode(read_id_list)?;
        }
    }
}

fn decode_pong_time(payload: &[u8]) -> (res: Result<i64, Error>)
    ensures
        res == pong_time_of(payload@),
{
    let mut host_time: Option<i64> = None;
    let mut entries = Entries::new(payload);
    loop
        invariant
            fold_entries(payload@, None, pong_stepper()) == fold_entries(
                entries@,
                host_time,
                pong_stepper(),
            ),
        decreases entries@.len(),
    {
        let entry = match entries.next() {
            Some(entry) => entry?,
            None => {
                return match host_time {
                    Some(host_time) => Ok(host_time),
                    None => Err(Error::Malformed("pong missing __ht")),
                };
            },
        };
        if entry.key == KEY_HT {
            host_time = Some(entry.decode(read_i64)?);
        }
    }
}

fn decode_request_channel(payload: &[u8]) -> (res: Result<ChannelId, Error>)
    ensures
        res == request_channel_of(payload@),
{
    let mut channel: Option<ChannelId> = None;
    let mut entries = Entries::new(payload);
    loop
        invariant
            fold_entries(payload@, None, request_stepper()) == fold_entries(
                entries@,
                channel,
                request_stepper(),
            ),
        decreases entries@.len(),
    {
        let entry = match entries.next() {
            Some(entry) => entry?,
            None => {
                return match channel {
                    Some(channel) => Ok(channel),
                    None => Err(Error::Malformed("request missing chid")),
                };
            },
        };
        if entry.key == KEY_CHID {
            channel = Some(entry.decode(ChannelId::read)?);
        }
    }
}

/// Decode an audio datagram.
pub fn decode(datagram: &[u8]) -> (res: Result<Frame, Error>)
    ensures
        match res {
            Ok(f) => decoded(datagram@) == Ok::<_, Error>(f@),
            Err(e) => decoded(datagram@) == Err::<FrameView, _>(e),
        },
{
    let (p, payload) = read_prefix(&MAGIC, datagram)?;
    let message = if p.msg_type == TYPE_PEER_ANNOUNCEMENT {
        decode_announcement(payload)?
    } else if p.msg_type == TYPE_CHANNEL_BYES {
        decode_byes(payload)?
    } else if p.msg_type == TYPE_PONG {
        Message::Pong { host_time: decode_pong_time(payload)? }
    } else if p.msg_type == TYPE_CHANNEL_REQUEST {
        Message::ChannelRequest { channel: decode_request_channel(payload)? }
    } else if p.msg_type == TYPE_STOP_CHANNEL_REQUEST {
        Message::StopChannelRequest { channel: decode_request_channel(payload)? }
    } else if p.msg_type == TYPE_AUDIO_BUFFER {
        Message::AudioBuffer(decode_audio_buffer(payload)?)
    } else {
        return Err(Error::UnknownMessageType(p.msg_type));
    };
    Ok(Frame { ttl: p.ttl, group_id: p.group_id, node: p.node, message })
}

// ------------------------------------------------------------------- laws

/// Whether an audio buffer is one that a datagram can carry and a receiver
/// accepts.
pub open spec fn is_sound_buffer(b: AudioBufferView) -> bool {
    &&& 0 < b.chunks.len() <= u32::MAX
    &&& b.codec == CODEC_PCM_I16
    &&& b.sample_data.len() <= u16::MAX
    &&& sum_frames(b.chunks) * b.num_channels * 2 == b.sample_data.len()
}

/// Whether the counts and sizes of a message fit their fields on the wire.
pub open spec fn is_sound_message(m: MessageView) -> bool {
    match m {
        MessageView::PeerAnnouncement { peer_name, channels, .. } => {
            &&& string_bytes(peer_name).len() <= u32::MAX
            &&& channel_list_bytes(channels).len() <= u32::MAX
        },
        MessageView::ChannelByes { channels } => id_list_bytes(channels).len() <= u32::MAX,
        MessageView::AudioBuffer(b) => is_sound_buffer(b),
        _ => true,
    }
}

proof fn lemma_parse_list<T>(
    acc: Seq<T>,
    items: Seq<T>,
    form: spec_fn(T) -> Seq<u8>,
    item: spec_fn(Seq<u8>) -> (Result<T, Error>, Seq<u8>),
)
    requires
        forall|i: int, rest: Seq<u8>|
            0 <= i < items.len() ==> #[trigger] item(form(items[i]) + rest) == (
                Ok::<_, Error>(items[i]),
                rest,
            ),
        forall|i: int| 0 <= i < items.len() ==> (#[trigger] form(items[i])).len() > 0,
    ensures
        parse_list(acc, all_bytes(items, form), items.len(), item) == (
            Ok::<_, Error>(acc + items),
            Seq::<u8>::empty(),
        ),
    decreases items.len(),
{
    if items.len() == 0 {
        assert(acc + items =~= acc);
    } else {
        let tail = items.skip(1);
        let rest = all_bytes(tail, form);
        assert(item(form(items[0]) + rest) == (Ok::<_, Error>(items[0]), rest));
        assert(form(items[0]).len() > 0);
        assert forall|i: int, r: Seq<u8>| 0 <= i < tail.len() implies #[trigger] item(
            form(tail[i]) + r,
        ) == (Ok::<_, Error>(tail[i]), r) by {
            assert(tail[i] == items[i + 1]);
        }
        assert forall|i: int| 0 <= i < tail.len() implies (#[trigger] form(tail[i])).len() > 0 by {
            assert(tail[i] == items[i + 1]);
        }
        lemma_parse_list(acc.push(items[0]), tail, form, item);
        assert(acc.push(items[0]) + tail =~= acc + items);
    }
}

proof fn lemma_all_bytes_member<T>(items: Seq<T>, form: spec_fn(T) -> Seq<u8>, i: int)
    requires
        0 <= i < items.len(),
    ensures
        form(items[i]).len() <= all_bytes(items, form).len(),
    decreases items.len(),
{
    if i > 0 {
        lemma_all_bytes_member(items.skip(1), form, i - 1);
        assert(items.skip(1)[i - 1] == items[i]);
    }
}

proof fn lemma_all_bytes_at_least<T>(items: Seq<T>, form: spec_fn(T) -> Seq<u8>, w: nat)
    requires
        forall|i: int| 0 <= i < items.len() ==> (#[trigger] form(items[i])).len() >= w,
    ensures
        all_bytes(items, form).len() >= w * items.len(),
    decreases items.len(),
{
    if items.len() > 0 {
        let tail = items.skip(1);
        assert forall|i: int| 0 <= i < tail.len() implies (#[trigger] form(tail[i])).len() >= w by {
            assert(tail[i] == items[i + 1]);
        }
        lemma_all_bytes_at_least(tail, form, w);
        assert(form(items[0]).len() >= w);
        assert(w * items.len() == w + w * tail.len()) by (nonlinear_arith)
            requires
                items.len() == tail.len() + 1,
        ;
    } else {
        assert(w * items.len() == 0) by (nonlinear_arith)
            requires
                items.len() == 0,
        ;
    }
}

proof fn lemma_channel_list_roundtrip(channels: Seq<ChannelInfoView>)
    requires
        channel_list_bytes(channels).len() <= u32::MAX,
    ensures
        exactly(parse_channel_list(channel_list_bytes(channels))) == Ok::<_, Error>(channels),
{
    let form = |c: ChannelInfoView| channel_info_bytes(c);
    let item = |b: Seq<u8>| parse_channel_info(b);
    let body = all_bytes(channels, form);
    lemma_be_bytes_len((channels.len() as u32) as nat, 4);
    assert forall|i: int| 0 <= i < channels.len() implies (#[trigger] form(channels[i])).len()
        >= 12 by {
        lemma_be_bytes_len((channels[i].name.len() as u32) as nat, 4);
    }
    lemma_all_bytes_at_least(channels, form, 12);
    assert forall|i: int, rest: Seq<u8>| 0 <= i < channels.len() implies #[trigger] item(
        form(channels[i]) + rest,
    ) == (Ok::<_, Error>(channels[i]), rest) by {
        let c = channels[i];
        lemma_all_bytes_member(channels, form, i);
        lemma_be_bytes_len((c.name.len() as u32) as nat, 4);
        assert(form(c) + rest =~= string_bytes(c.name) + (c.id.0@ + rest));
        lemma_parse_string(c.name, c.id.0@ + rest);
        lemma_parse_id(c.id, rest);
    }
    lemma_parse_list(Seq::empty(), channels, form, item);
    assert(Seq::<ChannelInfoView>::empty() + channels =~= channels);
    lemma_parse_u32(channels.len() as u32, body);
}

proof fn lemma_id_list_roundtrip(ids: Seq<Id>)
    requires
        id_list_bytes(ids).len() <= u32::MAX,
    ensures
        exactly(parse_id_list(id_list_bytes(ids))) == Ok::<_, Error>(ids),
{
    let form = |id: Id| id.0@;
    let item = |b: Seq<u8>| parse_id(b);
    lemma_be_bytes_len((ids.len() as u32) as nat, 4);
    lemma_all_bytes_at_least(ids, form, 8);
    assert forall|i: int, rest: Seq<u8>| 0 <= i < ids.len() implies #[trigger] item(
        form(ids[i]) + rest,
    ) == (Ok::<_, Error>(ids[i]), rest) by {
        lemma_parse_id(ids[i], rest);
    }
    lemma_parse_list(Seq::empty(), ids, form, item);
    assert(Seq::<Id>::empty() + ids =~= ids);
    lemma_parse_u32(ids.len() as u32, all_bytes(ids, form));
}

proof fn lemma_parse_chunk(c: Chunk, rest: Seq<u8>)
    ensures
        chunk_bytes(c).len() == CHUNK_RECORD_SIZE,
        parse_chunk(chunk_bytes(c) + rest) == (Ok::<_, Error>(c), rest),
{
    let r3 = i64_bytes(c.tempo) + rest;
    let r2 = i64_bytes(c.begin_beats) + r3;
    let r1 = be_bytes(c.num_frames as nat, 2) + r2;
    assert(chunk_bytes(c) + rest =~= be_bytes(c.seq as nat, 8) + r1);
    lemma_parse_u64(c.seq, r1);
    lemma_parse_u16(c.num_frames, r2);
    lemma_parse_i64(c.begin_beats, r3);
    lemma_parse_i64(c.tempo, rest);
    lemma_be_bytes_len(c.seq as nat, 8);
    lemma_be_bytes_len(c.num_frames as nat, 2);
    lemma_be_bytes_len((c.begin_beats as u64) as nat, 8);
    lemma_be_bytes_len((c.tempo as u64) as nat, 8);
}

proof fn lemma_parse_chunks(acc: Seq<Chunk>, chunks: Seq<Chunk>, rest: Seq<u8>)
    ensures
        all_bytes(chunks, |c: Chunk| chunk_bytes(c)).len() == CHUNK_RECORD_SIZE * chunks.len(),
        parse_chunks(acc, all_bytes(chunks, |c: Chunk| chunk_bytes(c)) + rest, chunks.len()) == (
            Ok::<_, Error>(acc + chunks),
            rest,
        ),
    decreases chunks.len(),
{
    let form = |c: Chunk| chunk_bytes(c);
    let body = all_bytes(chunks, form);
    if chunks.len() == 0 {
        assert(acc + chunks =~= acc);
        assert(body + rest =~= rest);
    } else {
        let tail = all_bytes(chunks.skip(1), form);
        assert(body + rest =~= chunk_bytes(chunks[0]) + (tail + rest));
        lemma_parse_chunk(chunks[0], tail + rest);
        lemma_parse_chunks(acc.push(chunks[0]), chunks.skip(1), rest);
        assert(acc.push(chunks[0]) + chunks.skip(1) =~= acc + chunks);
    }
}

proof fn lemma_parse_audio_tail(codec: u8, rate: u32, num_channels: u8, n: u16, rest: Seq<u8>)
    ensures
        audio_tail_bytes(codec, rate, num_channels, n).len() == 8,
        parse_audio_tail(audio_tail_bytes(codec, rate, num_channels, n) + rest) == (
            Ok::<_, Error>((codec, rate, num_channels, n)),
            rest,
        ),
{
    let r3 = be_bytes(n as nat, 2) + rest;
    let r2 = be_bytes(num_channels as nat, 1) + r3;
    let r1 = be_bytes(rate as nat, 4) + r2;
    assert(audio_tail_bytes(codec, rate, num_channels, n) + rest =~= be_bytes(codec as nat, 1)
        + r1);
    lemma_parse_u8(codec, r1);
    lemma_parse_u32(rate, r2);
    lemma_parse_u8(num_channels, r3);
    lemma_parse_u16(n, rest);
    lemma_be_bytes_len(codec as nat, 1);
    lemma_be_bytes_len(rate as nat, 4);
    lemma_be_bytes_len(num_channels as nat, 1);
    lemma_be_bytes_len(n as nat, 2);
}

/// Decoding the wire form of an audio buffer gives the audio buffer.
pub proof fn law_audio_buffer_roundtrip(b: AudioBufferView)
    requires
        is_sound_buffer(b),
    ensures
        audio_buffer_of(audio_buffer_bytes(b)) == Ok::<_, Error>(b),
{
    let n = b.sample_data.len() as u16;
    let count = b.chunks.len() as u32;
    let r4 = audio_tail_bytes(b.codec, b.sample_rate, b.num_channels, n) + b.sample_data;
    let r3 = all_bytes(b.chunks, |c: Chunk| chunk_bytes(c)) + r4;
    let r2 = be_bytes(count as nat, 4) + r3;
    let r1 = b.session.0@ + r2;
    lemma_parse_id(b.channel, r1);
    lemma_parse_id(b.session, r2);
    lemma_parse_u32(count, r3);
    lemma_parse_chunks(Seq::empty(), b.chunks, r4);
    assert(Seq::<Chunk>::empty() + b.chunks =~= b.chunks);
    lemma_parse_audio_tail(b.codec, b.sample_rate, b.num_channels, n, b.sample_data);
}

proof fn lemma_announcement_roundtrip(
    session: SessionId,
    peer_name: Seq<u8>,
    channels: Seq<ChannelInfoView>,
    ping: Option<i64>,
)
    requires
        string_bytes(peer_name).len() <= u32::MAX,
        channel_list_bytes(channels).len() <= u32::MAX,
    ensures
        announcement_of(announcement_bytes(session, peer_name, channels, ping)) == Ok::<_, Error>(
            MessageView::PeerAnnouncement { session, peer_name, channels, ping },
        ),
{
    let none = Seq::<u8>::empty();
    let step = announcement_stepper();
    let r3 = ping_entry(ping);
    let r2 = entry_bytes(KEY_AUCA, channel_list_bytes(channels)) + r3;
    let r1 = entry_bytes(KEY_PI, string_bytes(peer_name)) + r2;
    let a0 = no_announcement();
    let a1 = AnnouncementFields { session: Some(session), ..a0 };
    let a2 = AnnouncementFields { peer_name, ..a1 };
    let a3 = AnnouncementFields { channels, ..a2 };
    lemma_parse_id(session, none);
    assert(session.0@ + none =~= session.0@);
    lemma_fold_entry(KEY_SESS, session.0@, r1, a0, step);
    lemma_parse_string(peer_name, none);
    assert(string_bytes(peer_name) + none =~= string_bytes(peer_name));
    lemma_fold_entry(KEY_PI, string_bytes(peer_name), r2, a1, step);
    lemma_channel_list_roundtrip(channels);
    lemma_fold_entry(KEY_AUCA, channel_list_bytes(channels), r3, a2, step);
    if let Some(ht) = ping {
        lemma_i64_value(ht);
        assert(r3 + none =~= r3);
        lemma_fold_entry(KEY_HT, i64_bytes(ht), none, a3, step);
    }
}

/// Decoding an encoded frame gives the frame.
pub proof fn law_frame_roundtrip(f: FrameView)
    requires
        is_sound_message(f.message),
    ensures
        decoded(frame_bytes(f)) == Ok::<_, Error>(f),
{
    let none = Seq::<u8>::empty();
    lemma_prefix_roundtrip(MAGIC@, frame_prefix(f), payload_bytes(f.message));
    match f.message {
        MessageView::PeerAnnouncement { session, peer_name, channels, ping } => {
            lemma_announcement_roundtrip(session, peer_name, channels, ping);
        },
        MessageView::ChannelByes { channels } => {
            lemma_id_list_roundtrip(channels);
            lemma_fold_entry(
                KEY_AUCB,
                id_list_bytes(channels),
                none,
                Seq::<Id>::empty(),
                byes_stepper(),
            );
            assert(payload_bytes(f.message) + none =~= payload_bytes(f.message));
        },
        MessageView::Pong { host_time } => {
            lemma_i64_value(host_time);
            lemma_fold_entry(KEY_HT, i64_bytes(host_time), none, None, pong_stepper());
            assert(payload_bytes(f.message) + none =~= payload_bytes(f.message));
        },
        MessageView::ChannelRequest { channel } => {
            lemma_request_roundtrip(channel);
        },
        MessageView::StopChannelRequest { channel } => {
            lemma_request_roundtrip(channel);
        },
        MessageView::AudioBuffer(b) => {
            law_audio_buffer_roundtrip(b);
        },
    }
}

proof fn lemma_request_roundtrip(channel: ChannelId)
    ensures
        request_channel_of(entry_bytes(KEY_CHID, channel.0@)) == Ok::<_, Error>(channel),
{
    let none = Seq::<u8>::empty();
    lemma_parse_id(channel, none);
    assert(channel.0@ + none =~= channel.0@);
    lemma_fold_entry(KEY_CHID, channel.0@, none, None, request_stepper());
    assert(entry_bytes(KEY_CHID, channel.0@) + none =~= entry_bytes(KEY_CHID, channel.0@));
}

proof fn lemma_chunk_inverse(s: Seq<u8>)
    ensures
        parse_chunk(s) matches (Ok(c), rest) ==> s == chunk_bytes(c) + rest,
{
    if let (Ok(c), rest) = parse_chunk(s) {
        lemma_pow256_widths();
        let r1 = parse_u64(s).1;
        let r2 = parse_u16(r1).1;
        let r3 = parse_i64(r2).1;
        lemma_parse_uint_inverse(s, 8);
        lemma_parse_uint_inverse(r1, 2);
        lemma_i64_inverse(r2);
        lemma_i64_inverse(r3);
        assert(s =~= chunk_bytes(c) + rest);
    }
}

proof fn lemma_i64_inverse(s: Seq<u8>)
    ensures
        parse_i64(s) matches (Ok(v), rest) ==> s == i64_bytes(v) + rest,
{
    if let (Ok(v), rest) = parse_i64(s) {
        lemma_pow256_widths();
        lemma_parse_uint_inverse(s, 8);
        let u = parse_u64(s).0->Ok_0;
        assert((u as i64) as u64 == u) by (bit_vector);
    }
}

proof fn lemma_id_inverse(s: Seq<u8>)
    ensures
        parse_id(s) matches (Ok(id), rest) ==> s == id.0@ + rest,
{
    if let (Ok(id), rest) = parse_id(s) {
        lemma_eight(s.take(8));
        assert(s =~= s.take(8) + s.skip(8));
    }
}

proof fn lemma_chunks_inverse(acc: Seq<Chunk>, s: Seq<u8>, n: nat)
    ensures
        parse_chunks(acc, s, n) matches (Ok(all), rest) ==> {
            &&& all.len() == acc.len() + n
            &&& acc == all.take(acc.len() as int)
            &&& s == all_bytes(all.skip(acc.len() as int), |c: Chunk| chunk_bytes(c)) + rest
        },
    decreases n,
{
    let form = |c: Chunk| chunk_bytes(c);
    if n == 0 {
        assert(acc.take(acc.len() as int) =~= acc);
        assert(acc.skip(acc.len() as int) =~= Seq::<Chunk>::empty());
        assert(all_bytes(Seq::<Chunk>::empty(), form) + s =~= s);
    } else if let (Ok(c), rest) = parse_chunk(s) {
        lemma_chunk_inverse(s);
        lemma_chunks_inverse(acc.push(c), rest, (n - 1) as nat);
        if let (Ok(all), tail) = parse_chunks(acc, s, n) {
            let k = acc.len() as int;
            let more = all.skip(k);
            assert(all[k] == all.take(k + 1)[k]);
            assert(acc =~= all.take(k)) by {
                assert forall|i: int| 0 <= i < k implies acc[i] == all.take(k)[i] by {
                    assert(acc.push(c)[i] == all.take(k + 1)[i]);
                }
            }
            assert(more.skip(1) =~= all.skip(k + 1));
            assert(more[0] == c);
            assert(s =~= all_bytes(more, form) + tail);
        }
    }
}

/// An audio buffer that is accepted re-encodes to the bytes it came from.
pub proof fn law_audio_buffer_reencodes(payload: Seq<u8>)
    ensures
        audio_buffer_of(payload) matches Ok(b) ==> audio_buffer_bytes(b) == payload
            && is_sound_buffer(b),
{
    if let Ok(b) = audio_buffer_of(payload) {
        lemma_pow256_widths();
        let (head, r1) = parse_audio_head(payload);
        let (channel, session, count) = head->Ok_0;
        let p1 = parse_id(payload).1;
        let p2 = parse_id(p1).1;
        lemma_id_inverse(payload);
        lemma_id_inverse(p1);
        lemma_parse_uint_inverse(p2, 4);
        lemma_chunks_inverse(Seq::empty(), r1, count as nat);
        let r2 = parse_chunks(Seq::empty(), r1, count as nat).1;
        assert(b.chunks.skip(0) =~= b.chunks);
        let t1 = parse_u8(r2).1;
        let t2 = parse_u32(t1).1;
        let t3 = parse_u8(t2).1;
        lemma_parse_uint_inverse(r2, 1);
        lemma_parse_uint_inverse(t1, 4);
        lemma_parse_uint_inverse(t2, 1);
        lemma_parse_uint_inverse(t3, 2);
        let n = b.sample_data.len() as u16;
        assert(r2 =~= audio_tail_bytes(b.codec, b.sample_rate, b.num_channels, n) + b.sample_data);
        assert(payload =~= audio_buffer_bytes(b));
    }
}

/// An audio-buffer datagram that is accepted re-encodes byte for byte.
pub proof fn law_audio_datagram_reencodes(datagram: Seq<u8>)
    ensures
        decoded(datagram) matches Ok(f) ==> f.message is AudioBuffer ==> frame_bytes(f) == datagram,
{
    if let Ok(f) = decoded(datagram) {
        if f.message is AudioBuffer {
            lemma_prefix_inverse(MAGIC@, datagram);
            let (p, payload) = prefix_of(MAGIC@, datagram)->Ok_0;
            law_audio_buffer_reencodes(payload);
        }
    }
}

/// Size on the wire of an audio datagram: the prefix, the fixed overhead, one
/// record for each chunk, the samples.
pub proof fn law_audio_datagram_size(f: FrameView)
    ensures
        f.message matches MessageView::AudioBuffer(b) ==> frame_bytes(f).len() == 20
            + AUDIO_FIXED_OVERHEAD + CHUNK_RECORD_SIZE * b.chunks.len() + b.sample_data.len(),
{
    lemma_prefix_roundtrip(MAGIC@, frame_prefix(f), payload_bytes(f.message));
    if let MessageView::AudioBuffer(b) = f.message {
        lemma_be_bytes_len((b.chunks.len() as u32) as nat, 4);
        lemma_parse_chunks(Seq::empty(), b.chunks, Seq::empty());
        lemma_parse_audio_tail(
            b.codec,
            b.sample_rate,
            b.num_channels,
            b.sample_data.len() as u16,
            Seq::empty(),
        );
    }
}

/// Samples come back from their wire bytes.
pub proof fn law_samples_roundtrip(samples: Seq<i16>)
    ensures
        samples_bytes(samples).len() == 2 * samples.len(),
        samples_of(samples_bytes(samples)) == samples,
    decreases samples.len(),
{
    let bytes = samples_bytes(samples);
    if samples.len() > 0 {
        let tail = samples.skip(1);
        let rest = samples_bytes(tail);
        law_samples_roundtrip(tail);
        let s = samples[0];
        lemma_be_bytes_len((s as u16) as nat, 2);
        lemma_pow256_widths();
        lemma_be_value_of_bytes((s as u16) as nat, 2);
        assert((s as u16) as i16 == s) by (bit_vector);
        assert(bytes == sample_bytes(s) + rest);
        let back = samples_of(bytes);
        assert forall|i: int| 0 <= i < samples.len() implies back[i] == samples[i] by {
            if i == 0 {
                assert(bytes.subrange(0, 2) =~= sample_bytes(s));
            } else {
                assert(bytes.subrange(2 * i, 2 * i + 2) =~= rest.subrange(
                    2 * (i - 1),
                    2 * (i - 1) + 2,
                ));
                assert(samples_of(rest)[i - 1] == tail[i - 1]);
            }
        }
        assert(back =~= samples);
    } else {
        assert(samples_of(bytes) =~= samples);
    }
}

/// Which field of an announcement an entry sets: 0 is none.
pub open spec fn announcement_field(key: u32) -> int {
    if key == KEY_SESS {
        1
    } else if key == KEY_PI {
        2
    } else if key == KEY_AUCA {
        3
    } else if key == KEY_HT {
        4
    } else {
        0
    }
}

/// Entries that a message has no use for are skipped, wherever they stand.
pub proof fn law_unknown_audio_entries_are_skipped(entries: Seq<(u32, Seq<u8>)>)
    requires
        forall|i: int| 0 <= i < entries.len() ==> (#[trigger] entries[i]).1.len() <= u32::MAX,
    ensures
        announcement_of(container_bytes(entries)) == announcement_of(
            container_bytes(entries.filter(|e: (u32, Seq<u8>)| announcement_field(e.0) != 0)),
        ),
        byes_of(container_bytes(entries)) == byes_of(
            container_bytes(entries.filter(|e: (u32, Seq<u8>)| e.0 == KEY_AUCB)),
        ),
        pong_time_of(container_bytes(entries)) == pong_time_of(
            container_bytes(entries.filter(|e: (u32, Seq<u8>)| e.0 == KEY_HT)),
        ),
        request_channel_of(container_bytes(entries)) == request_channel_of(
            container_bytes(entries.filter(|e: (u32, Seq<u8>)| e.0 == KEY_CHID)),
        ),
{
    law_unknown_entries_are_skipped(
        entries,
        no_announcement(),
        announcement_stepper(),
        |e: (u32, Seq<u8>)| announcement_field(e.0) != 0,
    );
    law_unknown_entries_are_skipped(
        entries,
        Seq::empty(),
        byes_stepper(),
        |e: (u32, Seq<u8>)| e.0 == KEY_AUCB,
    );
    law_unknown_entries_are_skipped(
        entries,
        None,
        pong_stepper(),
        |e: (u32, Seq<u8>)| e.0 == KEY_HT,
    );
    law_unknown_entries_are_skipped(
        entries,
        None,
        request_stepper(),
        |e: (u32, Seq<u8>)| e.0 == KEY_CHID,
    );
}

/// The order of an announcement's entries carries no meaning: two neighbours
/// that set different fields can change places, if both values decode.
pub proof fn law_announcement_order_is_free(
    k1: u32,
    v1: Seq<u8>,
    k2: u32,
    v2: Seq<u8>,
    rest: Seq<u8>,
    acc: AnnouncementFields,
)
    requires
        v1.len() <= u32::MAX,
        v2.len() <= u32::MAX,
        announcement_field(k1) != announcement_field(k2),
        announcement_step(no_announcement(), k1, v1) is Ok,
        announcement_step(no_announcement(), k2, v2) is Ok,
    ensures
        fold_entries(
            entry_bytes(k1, v1) + (entry_bytes(k2, v2) + rest),
            acc,
            announcement_stepper(),
        ) == fold_entries(
            entry_bytes(k2, v2) + (entry_bytes(k1, v1) + rest),
            acc,
            announcement_stepper(),
        ),
{
    let step = announcement_stepper();
    lemma_fold_entry(k1, v1, entry_bytes(k2, v2) + rest, acc, step);
    lemma_fold_entry(k2, v2, entry_bytes(k1, v1) + rest, acc, step);
    if let Ok(a1) = announcement_step(acc, k1, v1) {
        lemma_fold_entry(k2, v2, rest, a1, step);
    }
    if let Ok(a2) = announcement_step(acc, k2, v2) {
        lemma_fold_entry(k1, v1, rest, a2, step);
    }
}

} // verus!
