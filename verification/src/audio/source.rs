//! The receiving end of a subscribed channel.

use vstd::prelude::*;

use crate::audio::sink::{frame_samples, next_number};
use crate::math::{offset_wrapped, session_offset, wrap64, wrapping_sum};
use crate::wire::audio::{
    is_sound_buffer, samples_of, sum_frames, AudioBuffer, AudioBufferView, Chunk,
};
use crate::wire::types::Timeline;

verus! {

/// Cap on undelivered chunks buffered per source.
pub const INBOX_LIMIT: usize = 256;

/// A source is "receiving" while buffers arrived within this window.
pub const RECEIVING_WINDOW: i64 = 1_000_000;

/// When a source that never received a buffer received its last one: half of
/// the clock's range ago.
pub const NEVER: i64 = -0x4000_0000_0000_0000;

/// One delivered chunk: frames plus their position on the local beat grid.
#[derive(Debug, Clone)]
pub struct ReceivedChunk {
    /// Interleaved native-endian samples.
    pub samples: Vec<i16>,
    /// Local application beat of the first frame, µbeats.
    pub begin_app_beat: i64,
    pub tempo_micros_per_beat: i64,
    pub sample_rate: u32,
    pub channels: u8,
    pub seq: u64,
}

/// The content of a [`ReceivedChunk`].
pub struct ReceivedChunkView {
    pub samples: Seq<i16>,
    pub begin_app_beat: i64,
    pub tempo_micros_per_beat: i64,
    pub sample_rate: u32,
    pub channels: u8,
    pub seq: u64,
}

impl View for ReceivedChunk {
    type V = ReceivedChunkView;

    open spec fn view(&self) -> ReceivedChunkView {
        ReceivedChunkView {
            samples: self.samples@,
            begin_app_beat: self.begin_app_beat,
            tempo_micros_per_beat: self.tempo_micros_per_beat,
            sample_rate: self.sample_rate,
            channels: self.channels,
            seq: self.seq,
        }
    }
}

pub open spec fn chunk_views(inbox: Seq<ReceivedChunk>) -> Seq<ReceivedChunkView> {
    Seq::new(inbox.len(), |i: int| inbox[i]@)
}

/// The receiving end of a subscribed channel.
pub struct Source {
    /// Quantum of the local beat grid, µbeats.
    pub quantum: i64,
    pub last_request_at: i64,
    pub last_buffer_at: i64,
    pub inbox: Vec<ReceivedChunk>,
    /// Next chunk sequence number expected; `None` until the first chunk
    /// arrives (a mid-stream subscription is not counted as loss).
    pub next_seq_expected: Option<u64>,
    /// Chunks detected lost from sequence gaps.
    pub lost_chunks: u64,
}

/// The content of a [`Source`].
pub struct SourceView {
    pub quantum: i64,
    pub last_request_at: i64,
    pub last_buffer_at: i64,
    pub inbox: Seq<ReceivedChunkView>,
    pub next_seq_expected: Option<u64>,
    pub lost_chunks: u64,
}

impl View for Source {
    type V = SourceView;

    open spec fn view(&self) -> SourceView {
        SourceView {
            quantum: self.quantum,
            last_request_at: self.last_request_at,
            last_buffer_at: self.last_buffer_at,
            inbox: chunk_views(self.inbox@),
            next_seq_expected: self.next_seq_expected,
            lost_chunks: self.lost_chunks,
        }
    }
}

/// A source that was just subscribed.
pub open spec fn fresh_source(quantum: i64, now: i64) -> SourceView {
    SourceView {
        quantum,
        last_request_at: now,
        last_buffer_at: NEVER,
        inbox: Seq::empty(),
        next_seq_expected: None,
        lost_chunks: 0,
    }
}

impl Source {
    pub fn new(quantum: i64, now: i64) -> (s: Source)
        ensures
            s@ == fresh_source(quantum, now),
    {
        let s = Source {
            quantum,
            last_request_at: now,
            last_buffer_at: NEVER,
            inbox: Vec::new(),
            next_seq_expected: None,
            lost_chunks: 0,
        };
        proof {
            assert(s@.inbox =~= Seq::empty());
        }
        s
    }
}

/// The sum of two counters modulo 2^64.
pub open spec fn counted(a: u64, n: u64) -> u64 {
    if a + n > u64::MAX {
        (a + n - 0x1_0000_0000_0000_0000) as u64
    } else {
        (a + n) as u64
    }
}

/// What the arrival of chunk `seq` makes of a source's loss count: a gap is
/// counted lost, and a chunk that arrives after its gap was counted is taken
/// off again.
pub open spec fn with_arrival(s: SourceView, seq: u64) -> SourceView {
    match s.next_seq_expected {
        None => SourceView { next_seq_expected: Some(next_number(seq)), ..s },
        Some(expected) => if seq >= expected {
            SourceView {
                next_seq_expected: Some(next_number(seq)),
                lost_chunks: counted(s.lost_chunks, (seq - expected) as u64),
                ..s
            }
        } else {
            SourceView {
                lost_chunks: if s.lost_chunks == 0 {
                    0
                } else {
                    (s.lost_chunks - 1) as u64
                },
                ..s
            }
        },
    }
}

/// Where the samples of a chunk end that begin at `at`.
pub open spec fn chunk_end(at: nat, c: Chunk, ch: nat, len: nat) -> nat {
    if at + c.num_frames * ch <= len {
        at + c.num_frames as nat * ch
    } else {
        len
    }
}

/// The delivered form of a chunk.
pub open spec fn delivered_chunk(
    c: Chunk,
    samples: Seq<i16>,
    buf: AudioBufferView,
    delta: i64,
) -> ReceivedChunkView {
    ReceivedChunkView {
        samples,
        begin_app_beat: wrap64(c.begin_beats + delta),
        tempo_micros_per_beat: c.tempo,
        sample_rate: buf.sample_rate,
        channels: buf.num_channels,
        seq: c.seq,
    }
}

/// Deliver `chunks` one by one; their samples begin at `at`.
pub open spec fn deliver_on(
    s: SourceView,
    chunks: Seq<Chunk>,
    at: nat,
    buf: AudioBufferView,
    delta: i64,
) -> SourceView
    decreases chunks.len(),
{
    if chunks.len() == 0 {
        s
    } else {
        let samples = samples_of(buf.sample_data);
        let c = chunks[0];
        let end = chunk_end(at, c, frame_samples(buf.num_channels), samples.len());
        let noted = with_arrival(s, c.seq);
        deliver_on(
            SourceView {
                inbox: noted.inbox.push(
                    delivered_chunk(c, samples.subrange(at as int, end as int), buf, delta),
                ),
                ..noted
            },
            chunks.skip(1),
            end,
            buf,
            delta,
        )
    }
}

/// The newest chunks of an inbox, as many as may wait.
pub open spec fn newest(inbox: Seq<ReceivedChunkView>) -> Seq<ReceivedChunkView> {
    if inbox.len() > INBOX_LIMIT {
        inbox.skip(inbox.len() - INBOX_LIMIT)
    } else {
        inbox
    }
}

/// What delivering a buffer makes of a source.
pub open spec fn delivered(
    s: SourceView,
    buf: AudioBufferView,
    timeline: Timeline,
    now: i64,
) -> SourceView {
    let d = deliver_on(s, buf.chunks, 0, buf, offset_wrapped(timeline, s.quantum));
    SourceView { inbox: newest(d.inbox), last_buffer_at: now, ..d }
}

/// Deliver a buffer: each chunk as a separate unit, mapped onto the local beat
/// grid. Nothing reports loss to the sender, so gaps in the numbering are
/// surfaced here.
pub fn deliver(source: &mut Source, buf: &AudioBuffer, timeline: &Timeline, now: i64)
    requires
        timeline.tempo > 0,
    ensures
        final(source)@ == delivered(old(source)@, buf@, *timeline, now),
{
    let delta = session_offset(timeline, source.quantum);
    let samples = buf.samples();
    let ch: usize = if buf.num_channels == 0 {
        1
    } else {
        buf.num_channels as usize
    };
    let ghost before = source@;
    let ghost goal = deliver_on(before, buf@.chunks, 0, buf@, delta);
    let mut at: usize = 0;
    let mut i: usize = 0;
    proof {
        assert(buf@.chunks.skip(0) =~= buf@.chunks);
        assert(buf.sample_data.len() == buf.sample_data@.len());
    }
    while i < buf.chunks.len()
        invariant
            i <= buf.chunks@.len(),
            at <= samples@.len(),
            samples@ == samples_of(buf@.sample_data),
            samples@.len() <= usize::MAX / 2,
            ch == frame_samples(buf.num_channels),
            0 < ch <= 255,
            goal == deliver_on(source@, buf@.chunks.skip(i as int), at as nat, buf@, delta),
        decreases buf.chunks@.len() - i,
    {
        let c = buf.chunks[i];
        let ghost s0 = source@;
        proof {
            assert(buf@.chunks.skip(i as int)[0] == c);
            assert(buf@.chunks.skip(i as int).skip(1) =~= buf@.chunks.skip(i + 1));
            assert(c.num_frames * ch <= 65535 * 255) by (nonlinear_arith)
                requires
                    c.num_frames <= 65535,
                    ch <= 255,
            ;
        }
        match source.next_seq_expected {
            None => {
                source.next_seq_expected = Some(c.seq.wrapping_add(1));
            },
            Some(expected) => {
                if c.seq >= expected {
                    source.lost_chunks = source.lost_chunks.wrapping_add(c.seq - expected);
                    source.next_seq_expected = Some(c.seq.wrapping_add(1));
                } else {
                    source.lost_chunks = source.lost_chunks.saturating_sub(1);
                }
            },
        }
        let ghost s1 = source@;
        proof {
            assert(s1 == with_arrival(s0, c.seq));
        }
        let wanted: usize = at + c.num_frames as usize * ch;
        let end: usize = if wanted <= samples.len() {
            wanted
        } else {
            samples.len()
        };
        let part = vstd::slice::slice_subrange(samples.as_slice(), at, end);
        source.inbox.push(
            ReceivedChunk {
                samples: vstd::slice::slice_to_vec(part),
                begin_app_beat: wrapping_sum(c.begin_beats, delta),
                tempo_micros_per_beat: c.tempo,
                sample_rate: buf.sample_rate,
                channels: buf.num_channels,
                seq: c.seq,
            },
        );
        proof {
            assert(source@.inbox =~= s1.inbox.push(
                delivered_chunk(c, samples@.subrange(at as int, end as int), buf@, delta),
            ));
        }
        at = end;
        i = i + 1;
    }
    let ghost full = source@;
    while source.inbox.len() > INBOX_LIMIT
        invariant
            source@ == (SourceView { inbox: source@.inbox, ..full }),
            newest(source@.inbox) == newest(full.inbox),
        decreases source.inbox@.len(),
    {
        let ghost inbox = source@.inbox;
        source.inbox.remove(0);
        proof {
            assert(source@.inbox =~= inbox.skip(1));
            assert(newest(inbox.skip(1)) =~= newest(inbox));
        }
    }
    source.last_buffer_at = now;
}

/// Delivering touches neither the request timer nor the quantum.
pub proof fn lemma_deliver_keeps(
    s: SourceView,
    chunks: Seq<Chunk>,
    at: nat,
    buf: AudioBufferView,
    delta: i64,
)
    ensures
        deliver_on(s, chunks, at, buf, delta).last_request_at == s.last_request_at,
        deliver_on(s, chunks, at, buf, delta).quantum == s.quantum,
    decreases chunks.len(),
{
    if chunks.len() > 0 {
        let samples = samples_of(buf.sample_data);
        let c = chunks[0];
        let end = chunk_end(at, c, frame_samples(buf.num_channels), samples.len());
        let noted = with_arrival(s, c.seq);
        let unit = delivered_chunk(c, samples.subrange(at as int, end as int), buf, delta);
        let next = SourceView { inbox: noted.inbox.push(unit), ..noted };
        lemma_deliver_keeps(next, chunks.skip(1), end, buf, delta);
    }
}

// -------------------------------------------------------------------- laws

/// All samples of some delivered chunks in order.
pub open spec fn delivered_samples(inbox: Seq<ReceivedChunkView>) -> Seq<i16>
    decreases inbox.len(),
{
    if inbox.len() == 0 {
        Seq::empty()
    } else {
        inbox[0].samples + delivered_samples(inbox.skip(1))
    }
}

/// No more chunks wait than may wait.
pub proof fn law_inbox_is_bounded(
    s: SourceView,
    buf: AudioBufferView,
    timeline: Timeline,
    now: i64,
)
    ensures
        delivered(s, buf, timeline, now).inbox.len() <= INBOX_LIMIT,
        delivered(s, buf, timeline, now).last_buffer_at == now,
{
}

proof fn lemma_deliver_units(
    s: SourceView,
    chunks: Seq<Chunk>,
    at: nat,
    buf: AudioBufferView,
    delta: i64,
)
    requires
        at <= samples_of(buf.sample_data).len(),
        buf.num_channels * front_frames(chunks) + at == samples_of(buf.sample_data).len(),
    ensures
        ({
            let d = deliver_on(s, chunks, at, buf, delta);
            let n = s.inbox.len() as int;
            &&& d.inbox.len() == n + chunks.len()
            &&& d.inbox.take(n) == s.inbox
            &&& forall|i: int|
                0 <= i < chunks.len() ==> {
                    &&& (#[trigger] d.inbox[n + i]).seq == chunks[i].seq
                    &&& d.inbox[n + i].samples.len() == chunks[i].num_frames * buf.num_channels
                    &&& d.inbox[n + i].begin_app_beat == wrap64(chunks[i].begin_beats + delta)
                    &&& d.inbox[n + i].tempo_micros_per_beat == chunks[i].tempo
                    &&& d.inbox[n + i].sample_rate == buf.sample_rate
                    &&& d.inbox[n + i].channels == buf.num_channels
                }
            &&& delivered_samples(d.inbox.skip(n)) == samples_of(buf.sample_data).skip(at as int)
        }),
    decreases chunks.len(),
{
    let d = deliver_on(s, chunks, at, buf, delta);
    let n = s.inbox.len() as int;
    let samples = samples_of(buf.sample_data);
    let ch = buf.num_channels as nat;
    if chunks.len() == 0 {
        assert(ch * 0 == 0) by (nonlinear_arith);
        assert(d.inbox.take(n) =~= s.inbox);
        assert(d.inbox.skip(n) =~= Seq::empty());
        assert(samples.skip(at as int) =~= Seq::<i16>::empty());
    } else {
        let c = chunks[0];
        let rest = chunks.skip(1);
        assert(ch * (c.num_frames + front_frames(rest)) == c.num_frames * ch + ch * front_frames(
            rest,
        )) by (nonlinear_arith);
        assert(ch * front_frames(rest) >= 0) by (nonlinear_arith);
        assert(c.num_frames * ch >= 0) by (nonlinear_arith);
        assert(ch == 0 ==> ch * front_frames(rest) == 0 && c.num_frames * ch == 0)
            by (nonlinear_arith);
        let end = chunk_end(at, c, frame_samples(buf.num_channels), samples.len());
        assert(end == at + c.num_frames * ch);
        let noted = with_arrival(s, c.seq);
        let unit = delivered_chunk(c, samples.subrange(at as int, end as int), buf, delta);
        let s1 = SourceView { inbox: noted.inbox.push(unit), ..noted };
        lemma_deliver_units(s1, rest, end, buf, delta);
        assert(d.inbox[n] == unit) by {
            assert(d.inbox.take(n + 1)[n] == s1.inbox[n]);
        }
        assert(d.inbox.take(n) =~= s.inbox) by {
            assert forall|i: int| 0 <= i < n implies d.inbox[i] == s.inbox[i] by {
                assert(d.inbox.take(n + 1)[i] == s1.inbox[i]);
            }
        }
        assert forall|i: int| 0 <= i < chunks.len() implies {
            &&& (#[trigger] d.inbox[n + i]).seq == chunks[i].seq
            &&& d.inbox[n + i].samples.len() == chunks[i].num_frames * ch
            &&& d.inbox[n + i].begin_app_beat == wrap64(chunks[i].begin_beats + delta)
            &&& d.inbox[n + i].tempo_micros_per_beat == chunks[i].tempo
            &&& d.inbox[n + i].sample_rate == buf.sample_rate
            &&& d.inbox[n + i].channels == buf.num_channels
        } by {
            if i > 0 {
                let j = i - 1;
                assert(d.inbox[n + 1 + j].seq == rest[j].seq);
                assert(rest[j] == chunks[i]);
            }
        }
        assert(d.inbox.skip(n)[0] == unit);
        assert(d.inbox.skip(n).skip(1) =~= d.inbox.skip(n + 1));
        assert(unit.samples + samples.skip(end as int) =~= samples.skip(at as int));
    }
}

/// The frames that a list of chunks covers, counted from the front.
pub open spec fn front_frames(chunks: Seq<Chunk>) -> nat
    decreases chunks.len(),
{
    if chunks.len() == 0 {
        0
    } else {
        chunks[0].num_frames as nat + front_frames(chunks.skip(1))
    }
}

proof fn lemma_front_frames(chunks: Seq<Chunk>)
    ensures
        front_frames(chunks) == sum_frames(chunks),
    decreases chunks.len(),
{
    if chunks.len() == 1 {
        reveal_with_fuel(front_frames, 2);
        reveal_with_fuel(sum_frames, 2);
    } else if chunks.len() > 1 {
        let mid = chunks.skip(1).drop_last();
        lemma_front_frames(chunks.skip(1));
        lemma_front_frames(chunks.drop_last());
        assert(chunks.drop_last().skip(1) =~= mid);
        lemma_front_frames(mid);
    }
}

/// Each chunk of an accepted buffer is delivered as one unit, in order, with
/// its number, its whole samples, its beat and tempo, and the format of the
/// buffer it came in; together the units hold the samples of the buffer. (Then
/// the oldest units beyond the cap go.)
pub proof fn law_each_chunk_is_one_unit(s: SourceView, buf: AudioBufferView, delta: i64)
    requires
        is_sound_buffer(buf),
    ensures
        ({
            let d = deliver_on(s, buf.chunks, 0, buf, delta);
            let n = s.inbox.len() as int;
            &&& d.inbox.len() == n + buf.chunks.len()
            &&& d.inbox.take(n) == s.inbox
            &&& forall|i: int|
                0 <= i < buf.chunks.len() ==> {
                    &&& (#[trigger] d.inbox[n + i]).seq == buf.chunks[i].seq
                    &&& d.inbox[n + i].samples.len() == buf.chunks[i].num_frames
                        * buf.num_channels
                    &&& d.inbox[n + i].begin_app_beat == wrap64(
                        buf.chunks[i].begin_beats + delta,
                    )
                    &&& d.inbox[n + i].tempo_micros_per_beat == buf.chunks[i].tempo
                    &&& d.inbox[n + i].sample_rate == buf.sample_rate
                    &&& d.inbox[n + i].channels == buf.num_channels
                }
            &&& delivered_samples(d.inbox.skip(n)) == samples_of(buf.sample_data)
        }),
{
    let frames = sum_frames(buf.chunks) as int;
    lemma_front_frames(buf.chunks);
    assert(frames * buf.num_channels * 2 == 2 * (buf.num_channels * frames)) by (nonlinear_arith);
    lemma_deliver_units(s, buf.chunks, 0, buf, delta);
    assert(samples_of(buf.sample_data).skip(0) =~= samples_of(buf.sample_data));
}

/// Whether chunks come in order, none of them late.
pub open spec fn in_order(chunks: Seq<Chunk>, expected: nat) -> bool
    decreases chunks.len(),
{
    chunks.len() == 0 || {
        &&& chunks[0].seq >= expected
        &&& in_order(chunks.skip(1), chunks[0].seq as nat + 1)
    }
}

/// Of a stream that arrives in order, what is counted lost is exactly what did
/// not arrive: of the numbers passed, those without a chunk. (The counter is
/// modulo 2^64, and the last number has none after it.)
pub proof fn law_loss_is_what_did_not_arrive(
    s: SourceView,
    chunks: Seq<Chunk>,
    at: nat,
    buf: AudioBufferView,
    delta: i64,
)
    requires
        s.next_seq_expected is Some,
        in_order(chunks, s.next_seq_expected->0 as nat),
        forall|i: int| 0 <= i < chunks.len() ==> (#[trigger] chunks[i]).seq < u64::MAX,
    ensures
        ({
            let d = deliver_on(s, chunks, at, buf, delta);
            let missing = d.next_seq_expected->0 - s.next_seq_expected->0 - chunks.len();
            &&& d.next_seq_expected is Some
            &&& missing >= 0
            &&& d.lost_chunks == counted(s.lost_chunks, missing as u64)
        }),
    decreases chunks.len(),
{
    if chunks.len() > 0 {
        let c = chunks[0];
        let rest = chunks.skip(1);
        let samples = samples_of(buf.sample_data);
        let end = chunk_end(at, c, frame_samples(buf.num_channels), samples.len());
        let noted = with_arrival(s, c.seq);
        let s1 = SourceView {
            inbox: noted.inbox.push(
                delivered_chunk(c, samples.subrange(at as int, end as int), buf, delta),
            ),
            ..noted
        };
        assert(c.seq < u64::MAX);
        assert forall|i: int| 0 <= i < rest.len() implies (#[trigger] rest[i]).seq < u64::MAX by {
            assert(rest[i] == chunks[i + 1]);
        }
        law_loss_is_what_did_not_arrive(s1, rest, end, buf, delta);
    }
}

/// The first chunk that a source sees is no loss, wherever in the stream it
/// stands; a late one takes its loss back.
pub proof fn law_first_and_late_chunks(s: SourceView, seq: u64)
    ensures
        s.next_seq_expected is None ==> with_arrival(s, seq).lost_chunks == s.lost_chunks,
        s.next_seq_expected matches Some(e) ==> seq < e ==> s.lost_chunks > 0 ==> with_arrival(
            s,
            seq,
        ).lost_chunks == s.lost_chunks - 1 && with_arrival(s, seq).next_seq_expected
            == s.next_seq_expected,
{
}

/// Of more than 256 units the newest 256 wait; what is beyond goes oldest first,
/// and what waits keeps its order. Delivering notes the time and touches neither
/// the quantum nor the request timer.
pub proof fn law_newest_units_wait(
    s: SourceView,
    buf: AudioBufferView,
    timeline: Timeline,
    now: i64,
    k: int,
)
    ensures
        ({
            let all = deliver_on(s, buf.chunks, 0, buf, offset_wrapped(timeline, s.quantum));
            let t = delivered(s, buf, timeline, now);
            let n = all.inbox.len() as int;
            let m = t.inbox.len() as int;
            &&& m == if n <= 256 {
                n
            } else {
                256
            }
            &&& 0 <= k < m ==> t.inbox[k] == all.inbox[n - m + k]
            &&& t.last_buffer_at == now
            &&& t.quantum == s.quantum
            &&& t.last_request_at == s.last_request_at
            &&& t.next_seq_expected == all.next_seq_expected
            &&& t.lost_chunks == all.lost_chunks
        }),
{
    lemma_deliver_keeps(s, buf.chunks, 0, buf, offset_wrapped(timeline, s.quantum));
}

/// A gap before a chunk counts as many lost as it spans, and the chunk after it
/// is expected next; the first chunk of a source sets what is expected.
pub proof fn law_gap_counts_what_it_spans(s: SourceView, seq: u64)
    requires
        seq < u64::MAX,
    ensures
        ({
            let t = with_arrival(s, seq);
            &&& t.inbox == s.inbox
            &&& s.next_seq_expected is None ==> t.next_seq_expected == Some((seq + 1) as u64)
                && t.lost_chunks == s.lost_chunks
            &&& s.next_seq_expected matches Some(e) ==> seq >= e ==> {
                &&& t.next_seq_expected == Some((seq + 1) as u64)
                &&& s.lost_chunks + (seq - e) <= u64::MAX ==> t.lost_chunks == s.lost_chunks + (seq
                    - e)
            }
            &&& s.next_seq_expected matches Some(e) ==> seq < e ==> {
                &&& t.next_seq_expected == Some(e)
                &&& s.lost_chunks == 0 ==> t.lost_chunks == 0
                &&& s.lost_chunks > 0 ==> t.lost_chunks == s.lost_chunks - 1
            }
        }),
{
}

/// Chunks are counted one by one, in the order in which they stand.
pub proof fn law_chunks_are_counted_one_by_one(
    s: SourceView,
    chunks: Seq<Chunk>,
    c: Chunk,
    at: nat,
    buf: AudioBufferView,
    delta: i64,
)
    ensures
        ({
            let before = deliver_on(s, chunks, at, buf, delta);
            let after = deliver_on(s, chunks.push(c), at, buf, delta);
            &&& after.next_seq_expected == with_arrival(before, c.seq).next_seq_expected
            &&& after.lost_chunks == with_arrival(before, c.seq).lost_chunks
        }),
    decreases chunks.len(),
{
    let more = chunks.push(c);
    if chunks.len() == 0 {
        reveal_with_fuel(deliver_on, 2);
        assert(more.skip(1).len() == 0);
    } else {
        let samples = samples_of(buf.sample_data);
        let end = chunk_end(at, chunks[0], frame_samples(buf.num_channels), samples.len());
        let noted = with_arrival(s, chunks[0].seq);
        let s1 = SourceView {
            inbox: noted.inbox.push(
                delivered_chunk(chunks[0], samples.subrange(at as int, end as int), buf, delta),
            ),
            ..noted
        };
        assert(more.skip(1) =~= chunks.skip(1).push(c));
        law_chunks_are_counted_one_by_one(s1, chunks.skip(1), c, end, buf, delta);
    }
}

} // verus!
