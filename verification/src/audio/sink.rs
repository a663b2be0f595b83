//! The transmitting end of a published channel.

use vstd::prelude::*;

use crate::math::{round_div, rounded, wrap64, wrapping_sum};
use crate::table::Table;
use crate::wire::audio::{
    decoded, frame_bytes, is_sound_buffer, law_audio_datagram_size, law_frame_roundtrip,
    law_samples_roundtrip, nominal_frame, samples_bytes, sum_frames, AudioBuffer, AudioBufferView,
    Chunk, MessageView, AUDIO_FIXED_OVERHEAD, CHUNK_RECORD_SIZE, CODEC_PCM_I16, MAX_PAYLOAD,
    SAMPLE_BYTE_CAP, V1_MAX_CHUNK_FRAMES,
};
use crate::wire::codec::Error;
use crate::wire::types::{ChannelId, NodeId, SessionId};

verus! {

// ------------------------------------------------------------------- types

/// One pending run of contiguous beat-stamped material on a sink.
pub struct Segment {
    /// Wire (session) beat time of the first pending frame, µbeats.
    pub begin: i64,
    /// Tempo of this material, µs/beat.
    pub tempo: i64,
    pub samples: Vec<i16>,
}

/// The content of a [`Segment`].
#[verifier::ext_equal]
pub struct SegmentView {
    pub begin: i64,
    pub tempo: i64,
    pub samples: Seq<i16>,
}

impl View for Segment {
    type V = SegmentView;

    open spec fn view(&self) -> SegmentView {
        SegmentView { begin: self.begin, tempo: self.tempo, samples: self.samples@ }
    }
}

pub open spec fn segment_views(segments: Seq<Segment>) -> Seq<SegmentView> {
    Seq::new(segments.len(), |i: int| segments[i]@)
}

/// The transmitting end of a published channel.
pub struct Sink {
    pub id: ChannelId,
    pub name: Vec<u8>,
    /// Requesting peer → request expiry deadline.
    pub requesters: Table<NodeId, i64>,
    /// Next chunk sequence number; the first chunk is 1.
    pub next_seq: u64,
    pub segments: Vec<Segment>,
    /// Sample rate and channel count of the pending material.
    pub format: Option<(u32, u8)>,
}

/// The content of a [`Sink`].
pub struct SinkView {
    pub id: ChannelId,
    pub name: Seq<u8>,
    pub requesters: Seq<(NodeId, i64)>,
    pub next_seq: u64,
    pub segments: Seq<SegmentView>,
    pub format: Option<(u32, u8)>,
}

impl View for Sink {
    type V = SinkView;

    open spec fn view(&self) -> SinkView {
        SinkView {
            id: self.id,
            name: self.name@,
            requesters: self.requesters@,
            next_seq: self.next_seq,
            segments: segment_views(self.segments@),
            format: self.format,
        }
    }
}

// -------------------------------------------------------------- beat length

/// Duration of `frames` at `rate` and `tempo`, in µbeats.
pub open spec fn micro_beats(frames: int, rate: u32, tempo: i64) -> int {
    rounded(frames * 1_000_000_000_000, rate * tempo)
}

/// Duration of `frames` at `rate`/`tempo`, in µbeats; the low 64 bits are
/// kept.
pub fn frames_to_micro_beats(frames: i64, rate: u32, tempo: i64) -> (r: i64)
    requires
        rate > 0,
        tempo > 0,
    ensures
        r == wrap64(micro_beats(frames as int, rate, tempo)),
{
    proof {
        assert(0 < rate * tempo <= 0xffff_ffff * 0x7fff_ffff_ffff_ffff) by (nonlinear_arith)
            requires
                0 < rate <= 0xffff_ffff,
                0 < tempo <= 0x7fff_ffff_ffff_ffff,
        ;
    }
    round_div(frames as i128 * 1_000_000_000_000, rate as i128 * tempo as i128)
}

// ---------------------------------------------------------------- planning

/// How a datagram's bytes may be spent.
#[derive(Clone, Copy)]
pub struct Sizing {
    /// Bytes to spend.
    pub budget: usize,
    /// Bytes that each chunk costs besides its samples.
    pub record_cost: usize,
    /// Frames that a chunk may hold.
    pub chunk_cap: usize,
}

/// Default sizing: a flat sample-byte budget, chunk records uncounted. Fill
/// sizing: the payload budget, chunk records counted and chunks bounded.
pub open spec fn sizing_of(fill: bool) -> Sizing {
    if fill {
        Sizing {
            budget: (MAX_PAYLOAD - AUDIO_FIXED_OVERHEAD) as usize,
            record_cost: CHUNK_RECORD_SIZE,
            chunk_cap: V1_MAX_CHUNK_FRAMES,
        }
    } else {
        Sizing { budget: SAMPLE_BYTE_CAP, record_cost: 0, chunk_cap: usize::MAX }
    }
}

fn sizing(fill: bool) -> (s: Sizing)
    ensures
        s == sizing_of(fill),
{
    if fill {
        Sizing {
            budget: MAX_PAYLOAD - AUDIO_FIXED_OVERHEAD,
            record_cost: CHUNK_RECORD_SIZE,
            chunk_cap: V1_MAX_CHUNK_FRAMES,
        }
    } else {
        Sizing { budget: SAMPLE_BYTE_CAP, record_cost: 0, chunk_cap: usize::MAX }
    }
}

/// Samples per frame; a stream of no channels is treated as one of one.
pub open spec fn frame_samples(num_channels: u8) -> nat {
    if num_channels == 0 {
        1
    } else {
        num_channels as nat
    }
}

/// Whole frames that a segment holds.
pub open spec fn frames_in(seg: SegmentView, ch: nat) -> nat {
    seg.samples.len() / ch
}

/// A plan for one datagram: how many frames each chunk takes, in order, from
/// the leading segments.
#[verifier::ext_equal]
pub struct Plan {
    pub takes: Seq<nat>,
    /// Bytes of the budget left over.
    pub left: nat,
    /// Whether material was left for want of room.
    pub exhausted: bool,
}

/// The frames that the next chunk takes of `frames` when `left` bytes are
/// left.
pub open spec fn next_take(frames: nat, left: nat, ch: nat, s: Sizing) -> nat {
    let room = ((left - s.record_cost) as nat) / (2 * ch);
    let a = if frames <= s.chunk_cap {
        frames
    } else {
        s.chunk_cap as nat
    };
    if a <= room {
        a
    } else {
        room
    }
}

/// Go on with a plan: `frames` are left of the current segment, `rest` are
/// the segments after it.
pub open spec fn plan_on(
    takes: Seq<nat>,
    frames: nat,
    rest: Seq<SegmentView>,
    left: nat,
    ch: nat,
    s: Sizing,
) -> Plan
    decreases rest.len(), frames,
    when ch > 0 && s.chunk_cap > 0
    via plan_on_decreases
{
    if frames == 0 {
        if rest.len() == 0 {
            Plan { takes, left, exhausted: false }
        } else {
            plan_on(takes, frames_in(rest[0], ch), rest.skip(1), left, ch, s)
        }
    } else if left < s.record_cost + 2 * ch {
        Plan { takes, left, exhausted: true }
    } else {
        let take = next_take(frames, left, ch, s);
        plan_on(
            takes.push(take),
            (frames - take) as nat,
            rest,
            (left - s.record_cost - take * (2 * ch)) as nat,
            ch,
            s,
        )
    }
}

#[via_fn]
proof fn plan_on_decreases(
    takes: Seq<nat>,
    frames: nat,
    rest: Seq<SegmentView>,
    left: nat,
    ch: nat,
    s: Sizing,
) {
    if frames > 0 && left >= s.record_cost + 2 * ch {
        lemma_next_take(frames, left, ch, s);
    }
}

proof fn lemma_next_take(frames: nat, left: nat, ch: nat, s: Sizing)
    requires
        frames > 0,
        ch > 0,
        s.chunk_cap > 0,
        left >= s.record_cost + 2 * ch,
    ensures
        1 <= next_take(frames, left, ch, s) <= frames,
        next_take(frames, left, ch, s) <= s.chunk_cap,
        s.record_cost + next_take(frames, left, ch, s) * (2 * ch) <= left,
        next_take(frames, left, ch, s) <= left,
        next_take(frames, left, ch, s) < frames && next_take(frames, left, ch, s) < s.chunk_cap
            ==> left - s.record_cost - next_take(frames, left, ch, s) * (2 * ch) < 2 * ch,
{
    let avail = (left - s.record_cost) as int;
    let fb = (2 * ch) as int;
    let room = avail / fb;
    let take = next_take(frames, left, ch, s) as int;
    vstd::arithmetic::div_mod::lemma_fundamental_div_mod(avail, fb);
    vstd::arithmetic::div_mod::lemma_mod_bound(avail, fb);
    vstd::arithmetic::div_mod::lemma_div_is_ordered(fb, avail, fb);
    vstd::arithmetic::div_mod::lemma_div_by_self(fb);
    assert(room >= 1);
    assert(take * fb <= room * fb) by (nonlinear_arith)
        requires
            take <= room,
            fb > 0,
    ;
    assert(fb * room == room * fb) by (nonlinear_arith);
    assert(take <= take * fb) by (nonlinear_arith)
        requires
            take >= 0,
            fb >= 1,
    ;
}

/// The plan for one datagram.
pub open spec fn plan(segments: Seq<SegmentView>, ch: nat, s: Sizing) -> Plan {
    plan_on(Seq::empty(), 0, segments, s.budget as nat, ch, s)
}

/// Whether a plan fills its datagram: a partial one waits for more material.
pub open spec fn is_full(p: Plan, ch: nat, s: Sizing) -> bool {
    p.takes.len() > 0 && (p.exhausted || p.left < s.record_cost + 2 * ch)
}

/// The takes of a plan as executable numbers, and whether it fills the
/// datagram.
fn make_plan(segments: &Vec<Segment>, ch: usize, s: Sizing) -> (r: (Vec<usize>, bool))
    requires
        0 < ch <= 255,
        s.chunk_cap > 0,
        s.record_cost <= 1000,
    ensures
        r.0@.map_values(|t: usize| t as nat) == plan(segment_views(segments@), ch as nat, s).takes,
        r.1 == is_full(plan(segment_views(segments@), ch as nat, s), ch as nat, s),
        forall|i: int| 0 <= i < r.0@.len() ==> 1 <= #[trigger] r.0@[i] <= s.budget,
{
    let ghost segs = segment_views(segments@);
    let ghost whole = plan(segs, ch as nat, s);
    let frame_bytes: usize = 2 * ch;
    let mut takes: Vec<usize> = Vec::new();
    let mut left: usize = s.budget;
    let mut exhausted: bool = false;
    let mut frames: usize = 0;
    let mut i: usize = 0;
    proof {
        assert(takes@.map_values(|t: usize| t as nat) =~= Seq::empty());
        assert(segs.skip(0) =~= segs);
    }
    while !exhausted && (frames > 0 || i < segments.len())
        invariant
            0 < ch <= 255,
            frame_bytes == 2 * ch,
            s.chunk_cap > 0,
            s.record_cost <= 1000,
            segs == segment_views(segments@),
            i <= segments@.len(),
            left <= s.budget,
            forall|j: int| 0 <= j < takes@.len() ==> 1 <= #[trigger] takes@[j] <= s.budget,
            !exhausted ==> whole == plan_on(
                takes@.map_values(|t: usize| t as nat),
                frames as nat,
                segs.skip(i as int),
                left as nat,
                ch as nat,
                s,
            ),
            exhausted ==> whole == (Plan {
                takes: takes@.map_values(|t: usize| t as nat),
                left: left as nat,
                exhausted: true,
            }),
        decreases segments@.len() - i, frames, (if exhausted {
            0int
        } else {
            1
        }),
    {
        if frames == 0 {
            proof {
                assert(segs.skip(i as int)[0] == segs[i as int]);
                assert(segs.skip(i as int).skip(1) =~= segs.skip(i + 1));
            }
            frames = segments[i].samples.len() / ch;
            i = i + 1;
        } else if left < s.record_cost + frame_bytes {
            exhausted = true;
        } else {
            let room: usize = (left - s.record_cost) / frame_bytes;
            let capped: usize = if frames <= s.chunk_cap {
                frames
            } else {
                s.chunk_cap
            };
            let take: usize = if capped <= room {
                capped
            } else {
                room
            };
            proof {
                assert(take == next_take(frames as nat, left as nat, ch as nat, s));
                lemma_next_take(frames as nat, left as nat, ch as nat, s);
                assert(takes@.push(take).map_values(|t: usize| t as nat) =~= takes@.map_values(
                    |t: usize| t as nat,
                ).push(take as nat));
            }
            takes.push(take);
            left = left - (s.record_cost + take * frame_bytes);
            frames = frames - take;
        }
    }
    let full = takes.len() > 0 && (exhausted || left < s.record_cost + frame_bytes);
    (takes, full)
}

// --------------------------------------------------------------- consuming

/// The segments from the first one on that holds a whole frame.
pub open spec fn without_residue(segments: Seq<SegmentView>, ch: nat) -> Seq<SegmentView>
    decreases segments.len(),
{
    if segments.len() > 0 && segments[0].samples.len() < ch {
        without_residue(segments.skip(1), ch)
    } else {
        segments
    }
}

/// What is left of `segments` when `take` frames leave the first of them.
pub open spec fn after_take(segments: Seq<SegmentView>, take: nat, ch: nat, rate: u32) -> Seq<
    SegmentView,
> {
    let seg = segments[0];
    let samples = seg.samples.skip((take * ch) as int);
    if samples.len() == 0 {
        segments.skip(1)
    } else {
        segments.update(
            0,
            SegmentView {
                begin: wrap64(seg.begin + wrap64(micro_beats(take as int, rate, seg.tempo))),
                tempo: seg.tempo,
                samples,
            },
        )
    }
}

/// Chunks and samples taken so far, what is still pending, and the next
/// sequence number.
#[verifier::ext_equal]
pub struct Taken {
    pub chunks: Seq<Chunk>,
    pub data: Seq<i16>,
    pub segments: Seq<SegmentView>,
    pub next_seq: u64,
}

/// Take one chunk of `take` frames.
pub open spec fn take_chunk(t: Taken, take: nat, ch: nat, rate: u32) -> Taken {
    let segments = without_residue(t.segments, ch);
    let seg = segments[0];
    Taken {
        chunks: t.chunks.push(
            Chunk {
                seq: t.next_seq,
                num_frames: take as u16,
                begin_beats: seg.begin,
                tempo: seg.tempo,
            },
        ),
        data: t.data + seg.samples.take((take * ch) as int),
        segments: after_take(segments, take, ch, rate),
        next_seq: next_number(t.next_seq),
    }
}

/// The sequence number after `n`; the last one is followed by the first.
pub open spec fn next_number(n: u64) -> u64 {
    if n == u64::MAX {
        0
    } else {
        (n + 1) as u64
    }
}

/// The number `i` steps after `n`, where the last one is followed by the first.
pub open spec fn nth_number(n: u64, i: int) -> int {
    (n + i) % 0x1_0000_0000_0000_0000
}

/// Take one chunk after the other.
pub open spec fn take_all(t: Taken, takes: Seq<nat>, ch: nat, rate: u32) -> Taken
    decreases takes.len(),
{
    if takes.len() == 0 {
        t
    } else {
        take_all(take_chunk(t, takes[0], ch, rate), takes.skip(1), ch, rate)
    }
}

/// Whether chunks of the given frames can be taken one after the other.
pub open spec fn can_take(segments: Seq<SegmentView>, takes: Seq<nat>, ch: nat, rate: u32) -> bool
    decreases takes.len(),
{
    takes.len() == 0 || {
        let segs = without_residue(segments, ch);
        &&& segs.len() > 0
        &&& takes[0] > 0
        &&& takes[0] * ch <= segs[0].samples.len()
        &&& can_take(after_take(segs, takes[0], ch, rate), takes.skip(1), ch, rate)
    }
}

/// Samples pending in all segments.
pub open spec fn pending_samples(segments: Seq<SegmentView>) -> nat
    decreases segments.len(),
{
    if segments.len() == 0 {
        0
    } else {
        segments[0].samples.len() + pending_samples(segments.skip(1))
    }
}

proof fn lemma_frames_after(len: nat, take: nat, ch: nat)
    requires
        ch > 0,
        take <= len / ch,
    ensures
        take * ch <= len,
        (len - take * ch) / (ch as int) == len / ch - take,
{
    vstd::arithmetic::div_mod::lemma_fundamental_div_mod(len as int, ch as int);
    assert(take * ch <= (len / ch) * ch) by (nonlinear_arith)
        requires
            take <= len / ch,
    ;
    assert(ch * (len / ch) == (len / ch) * ch) by (nonlinear_arith);
    vstd::arithmetic::div_mod::lemma_hoist_over_denominator(
        (len - take * ch) as int,
        take as int,
        ch,
    );
}

proof fn lemma_holds_frame(len: nat, ch: nat)
    requires
        ch > 0,
    ensures
        (len / ch > 0) == (len >= ch),
{
    if len >= ch {
        vstd::arithmetic::div_mod::lemma_div_is_ordered(ch as int, len as int, ch as int);
        vstd::arithmetic::div_mod::lemma_div_by_self(ch as int);
    } else {
        vstd::arithmetic::div_mod::lemma_basic_div(len as int, ch as int);
    }
}

/// What a plan goes on to take can be taken from `cur`, the segments of which
/// `frames` are left in the first.
proof fn lemma_plan_can_take(
    cur: Seq<SegmentView>,
    takes: Seq<nat>,
    frames: nat,
    rest: Seq<SegmentView>,
    left: nat,
    ch: nat,
    s: Sizing,
    rate: u32,
)
    requires
        ch > 0,
        s.chunk_cap > 0,
        frames == 0 ==> without_residue(cur, ch) == without_residue(rest, ch),
        frames > 0 ==> cur.len() > 0 && frames_in(cur[0], ch) == frames && cur.skip(1) == rest,
    ensures
        takes.len() <= plan_on(takes, frames, rest, left, ch, s).takes.len(),
        plan_on(takes, frames, rest, left, ch, s).takes.take(takes.len() as int) == takes,
        can_take(
            cur,
            plan_on(takes, frames, rest, left, ch, s).takes.skip(takes.len() as int),
            ch,
            rate,
        ),
    decreases rest.len(), frames,
{
    let p = plan_on(takes, frames, rest, left, ch, s);
    let n = takes.len() as int;
    if frames == 0 {
        if rest.len() > 0 {
            let f = frames_in(rest[0], ch);
            lemma_holds_frame(rest[0].samples.len(), ch);
            lemma_plan_can_take(rest, takes, f, rest.skip(1), left, ch, s, rate);
            lemma_can_take_residue(cur, rest, p.takes.skip(n), ch, rate);
        } else {
            assert(p.takes.take(n) =~= takes);
        }
    } else if left < s.record_cost + 2 * ch {
        assert(p.takes.take(n) =~= takes);
    } else {
        let take = next_take(frames, left, ch, s);
        lemma_next_take(frames, left, ch, s);
        let len = cur[0].samples.len();
        lemma_frames_after(len, take, ch);
        lemma_holds_frame(len, ch);
        lemma_holds_frame((len - take * ch) as nat, ch);
        let next = after_take(cur, take, ch, rate);
        let more = (frames - take) as nat;
        if len - take * ch == 0 {
            vstd::arithmetic::div_mod::lemma_basic_div(0, ch as int);
        } else {
            assert(next[0].samples.len() == len - take * ch);
            assert(next.skip(1) =~= rest);
        }
        let left2 = (left - s.record_cost - take * (2 * ch)) as nat;
        lemma_plan_can_take(next, takes.push(take), more, rest, left2, ch, s, rate);
        let all = p.takes;
        assert(all.take(n + 1) == takes.push(take));
        assert(all.take(n) =~= takes) by {
            assert forall|i: int| 0 <= i < n implies all[i] == takes[i] by {
                assert(all.take(n + 1)[i] == takes.push(take)[i]);
            }
        }
        assert(all[n] == take) by {
            assert(all.take(n + 1)[n] == takes.push(take)[n]);
        }
        assert(all.skip(n).skip(1) =~= all.skip(n + 1));
    }
}

/// Leading residue makes no difference to what can be taken.
proof fn lemma_can_take_residue(
    a: Seq<SegmentView>,
    b: Seq<SegmentView>,
    takes: Seq<nat>,
    ch: nat,
    rate: u32,
)
    requires
        without_residue(a, ch) == without_residue(b, ch),
        can_take(b, takes, ch, rate),
    ensures
        can_take(a, takes, ch, rate),
{
}

pub proof fn lemma_plan_is_possible(segments: Seq<SegmentView>, ch: nat, s: Sizing, rate: u32)
    requires
        ch > 0,
        s.chunk_cap > 0,
    ensures
        can_take(segments, plan(segments, ch, s).takes, ch, rate),
{
    lemma_plan_can_take(segments, Seq::empty(), 0, segments, s.budget as nat, ch, s, rate);
    let takes = plan(segments, ch, s).takes;
    assert(takes.skip(0) =~= takes);
}

proof fn lemma_residue_pending(segments: Seq<SegmentView>, ch: nat)
    ensures
        pending_samples(without_residue(segments, ch)) <= pending_samples(segments),
    decreases segments.len(),
{
    if segments.len() > 0 && segments[0].samples.len() < ch {
        lemma_residue_pending(segments.skip(1), ch);
    }
}

proof fn lemma_after_take_pending(segments: Seq<SegmentView>, take: nat, ch: nat, rate: u32)
    requires
        segments.len() > 0,
        take * ch <= segments[0].samples.len(),
    ensures
        pending_samples(after_take(segments, take, ch, rate)) == pending_samples(segments) - take
            * ch,
{
    let next = after_take(segments, take, ch, rate);
    if segments[0].samples.len() != take * ch {
        assert(next.skip(1) =~= segments.skip(1));
    }
}

/// Taking leaves less pending.
proof fn lemma_take_all_pending(t: Taken, takes: Seq<nat>, ch: nat, rate: u32)
    requires
        ch > 0,
        can_take(t.segments, takes, ch, rate),
    ensures
        pending_samples(take_all(t, takes, ch, rate).segments) <= pending_samples(t.segments),
        takes.len() > 0 ==> pending_samples(take_all(t, takes, ch, rate).segments)
            < pending_samples(t.segments),
    decreases takes.len(),
{
    if takes.len() > 0 {
        let segs = without_residue(t.segments, ch);
        lemma_residue_pending(t.segments, ch);
        lemma_after_take_pending(segs, takes[0], ch, rate);
        assert(takes[0] * ch > 0) by (nonlinear_arith)
            requires
                takes[0] > 0,
                ch > 0,
        ;
        lemma_take_all_pending(take_chunk(t, takes[0], ch, rate), takes.skip(1), ch, rate);
    }
}

// ----------------------------------------------------------------- draining

/// Datagrams packed so far, what is still pending, the next sequence number.
#[verifier::ext_equal]
pub struct Drained {
    pub out: Seq<(Seq<Chunk>, Seq<i16>)>,
    pub segments: Seq<SegmentView>,
    pub next_seq: u64,
}

/// The chunks and samples of the next datagram, and what is left.
pub open spec fn next_datagram(
    segments: Seq<SegmentView>,
    next_seq: u64,
    ch: nat,
    rate: u32,
    s: Sizing,
) -> Taken {
    take_all(
        Taken { chunks: Seq::empty(), data: Seq::empty(), segments, next_seq },
        plan(segments, ch, s).takes,
        ch,
        rate,
    )
}

/// Pack datagrams as long as they get full.
pub open spec fn drain_on(d: Drained, ch: nat, rate: u32, s: Sizing) -> Drained
    decreases pending_samples(d.segments),
    when ch > 0 && s.chunk_cap > 0
    via drain_on_decreases
{
    if is_full(plan(d.segments, ch, s), ch, s) {
        let t = next_datagram(d.segments, d.next_seq, ch, rate, s);
        drain_on(
            Drained {
                out: d.out.push((t.chunks, t.data)),
                segments: t.segments,
                next_seq: t.next_seq,
            },
            ch,
            rate,
            s,
        )
    } else {
        d
    }
}

#[via_fn]
proof fn drain_on_decreases(d: Drained, ch: nat, rate: u32, s: Sizing) {
    lemma_next_datagram_pending(d.segments, d.next_seq, ch, rate, s);
}

proof fn lemma_next_datagram_pending(
    segments: Seq<SegmentView>,
    next_seq: u64,
    ch: nat,
    rate: u32,
    s: Sizing,
)
    requires
        ch > 0,
        s.chunk_cap > 0,
    ensures
        is_full(plan(segments, ch, s), ch, s) ==> pending_samples(
            next_datagram(segments, next_seq, ch, rate, s).segments,
        ) < pending_samples(segments),
{
    lemma_plan_is_possible(segments, ch, s, rate);
    lemma_take_all_pending(
        Taken { chunks: Seq::empty(), data: Seq::empty(), segments, next_seq },
        plan(segments, ch, s).takes,
        ch,
        rate,
    );
}

/// What draining a sink's pending segments gives.
pub open spec fn drained(
    segments: Seq<SegmentView>,
    next_seq: u64,
    num_channels: u8,
    rate: u32,
    fill: bool,
) -> Drained {
    drain_on(
        Drained { out: Seq::empty(), segments, next_seq },
        frame_samples(num_channels),
        rate,
        sizing_of(fill),
    )
}

/// The audio buffer of one packed datagram.
pub open spec fn packed_buffer(
    packed: (Seq<Chunk>, Seq<i16>),
    channel: ChannelId,
    session: SessionId,
    rate: u32,
    num_channels: u8,
) -> AudioBufferView {
    AudioBufferView {
        channel,
        session,
        chunks: packed.0,
        codec: CODEC_PCM_I16,
        sample_rate: rate,
        num_channels,
        sample_data: samples_bytes(packed.1),
    }
}

/// Whether there is material for a full datagram.
pub open spec fn has_datagram(segments: Seq<SegmentView>, num_channels: u8, fill: bool) -> bool {
    let ch = frame_samples(num_channels);
    is_full(plan(segments, ch, sizing_of(fill)), ch, sizing_of(fill))
}

/// Whether there is material for a full datagram.
pub fn packs_datagram(segments: &Vec<Segment>, num_channels: u8, fill: bool) -> (r: bool)
    ensures
        r == has_datagram(segment_views(segments@), num_channels, fill),
{
    let ch: usize = if num_channels == 0 {
        1
    } else {
        num_channels as usize
    };
    make_plan(segments, ch, sizing(fill)).1
}

/// Whether every segment has a tempo that beats can be counted at.
pub open spec fn have_tempo(segments: Seq<SegmentView>) -> bool {
    forall|i: int| 0 <= i < segments.len() ==> (#[trigger] segments[i]).tempo > 0
}

/// Take one chunk of `take` frames from a sink.
fn take_from_sink(
    sink: &mut Sink,
    chunks: &mut Vec<Chunk>,
    data: &mut Vec<i16>,
    take: usize,
    ch: usize,
    rate: u32,
)
    requires
        0 < ch <= 255,
        rate > 0,
        0 < take <= 65535,
        have_tempo(old(sink)@.segments),
        can_take(old(sink)@.segments, seq![take as nat], ch as nat, rate),
    ensures
        ({
            let t = take_chunk(
                Taken {
                    chunks: old(chunks)@,
                    data: old(data)@,
                    segments: old(sink)@.segments,
                    next_seq: old(sink)@.next_seq,
                },
                take as nat,
                ch as nat,
                rate,
            );
            &&& final(chunks)@ == t.chunks
            &&& final(data)@ == t.data
            &&& final(sink)@ == (SinkView {
                segments: t.segments,
                next_seq: t.next_seq,
                ..old(sink)@
            })
        }),
        have_tempo(final(sink)@.segments),
{
    let ghost before = sink@;
    let ghost goal = without_residue(before.segments, ch as nat);
    proof {
        assert(seq![take as nat][0] == take);
    }
    // The planner skips sub-frame residue (a segment shorter than one frame);
    // it is dropped here so that the two stay aligned.
    while sink.segments.len() > 0 && sink.segments[0].samples.len() < ch
        invariant
            goal == without_residue(sink@.segments, ch as nat),
            sink@ == (SinkView { segments: sink@.segments, ..before }),
            have_tempo(sink@.segments),
            goal.len() > 0,
        decreases sink.segments@.len(),
    {
        let ghost now = sink@.segments;
        sink.segments.remove(0);
        proof {
            assert(sink@.segments =~= now.skip(1));
        }
    }
    let ghost segs = sink@.segments;
    let n: usize = take * ch;
    let begin = sink.segments[0].begin;
    let tempo = sink.segments[0].tempo;
    proof {
        assert(segs[0].tempo > 0);
        assert(take * ch <= 65535 * 255) by (nonlinear_arith)
            requires
                take <= 65535,
                ch <= 255,
        ;
    }
    chunks.push(Chunk { seq: sink.next_seq, num_frames: take as u16, begin_beats: begin, tempo });
    sink.next_seq = sink.next_seq.wrapping_add(1);
    let tail = sink.segments[0].samples.split_off(n);
    let ghost head = sink.segments@[0].samples@;
    data.append(&mut sink.segments[0].samples);
    if tail.len() == 0 {
        sink.segments.remove(0);
        proof {
            assert(sink@.segments =~= segs.skip(1));
        }
    } else {
        let advance = frames_to_micro_beats(take as i64, rate, tempo);
        sink.segments[0].samples = tail;
        sink.segments[0].begin = wrapping_sum(begin, advance);
        proof {
            assert(sink@.segments =~~= after_take(segs, take as nat, ch as nat, rate));
        }
    }
    proof {
        assert(head =~= segs[0].samples.take(n as int));
        assert(segs[0].samples.skip(n as int) =~= tail@);
    }
}

/// Take the chunks of a plan from a sink.
fn take_planned(sink: &mut Sink, takes: &Vec<usize>, ch: usize, rate: u32) -> (r: (
    Vec<Chunk>,
    Vec<i16>,
))
    requires
        0 < ch <= 255,
        rate > 0,
        have_tempo(old(sink)@.segments),
        forall|i: int| 0 <= i < takes@.len() ==> 1 <= #[trigger] takes@[i] <= 65535,
        can_take(
            old(sink)@.segments,
            takes@.map_values(|t: usize| t as nat),
            ch as nat,
            rate,
        ),
    ensures
        ({
            let t = take_all(
                Taken {
                    chunks: Seq::empty(),
                    data: Seq::empty(),
                    segments: old(sink)@.segments,
                    next_seq: old(sink)@.next_seq,
                },
                takes@.map_values(|t: usize| t as nat),
                ch as nat,
                rate,
            );
            &&& r.0@ == t.chunks
            &&& r.1@ == t.data
            &&& final(sink)@ == (SinkView {
                segments: t.segments,
                next_seq: t.next_seq,
                ..old(sink)@
            })
        }),
        have_tempo(final(sink)@.segments),
{
    let ghost all = takes@.map_values(|t: usize| t as nat);
    let ghost before = sink@;
    let ghost start = Taken {
        chunks: Seq::empty(),
        data: Seq::empty(),
        segments: before.segments,
        next_seq: before.next_seq,
    };
    let mut chunks: Vec<Chunk> = Vec::new();
    let mut data: Vec<i16> = Vec::new();
    let mut i: usize = 0;
    proof {
        assert(all.skip(0) =~= all);
    }
    while i < takes.len()
        invariant
            i <= takes@.len(),
            0 < ch <= 255,
            rate > 0,
            all == takes@.map_values(|t: usize| t as nat),
            forall|i: int| 0 <= i < takes@.len() ==> 1 <= #[trigger] takes@[i] <= 65535,
            have_tempo(sink@.segments),
            can_take(sink@.segments, all.skip(i as int), ch as nat, rate),
            sink@ == (SinkView {
                segments: sink@.segments,
                next_seq: sink@.next_seq,
                ..before
            }),
            take_all(start, all, ch as nat, rate) == take_all(
                Taken {
                    chunks: chunks@,
                    data: data@,
                    segments: sink@.segments,
                    next_seq: sink@.next_seq,
                },
                all.skip(i as int),
                ch as nat,
                rate,
            ),
        decreases takes@.len() - i,
    {
        let ghost left = all.skip(i as int);
        proof {
            assert(left[0] == all[i as int]);
            assert(left.skip(1) =~= all.skip(i + 1));
            let one = seq![takes@[i as int] as nat];
            assert(one.skip(1) =~= Seq::empty());
            reveal_with_fuel(can_take, 2);
        }
        take_from_sink(sink, &mut chunks, &mut data, takes[i], ch, rate);
        i = i + 1;
    }
    (chunks, data)
}

/// Pack full datagrams from a sink's pending segments and consume the packed
/// material; a partial datagram's worth stays pending.
///
/// Default sizing is a flat 502-byte sample budget per datagram, chunk records
/// uncounted. Fill mode packs each datagram toward the 1176-byte payload
/// budget instead, counting real chunk-record overhead and keeping every chunk
/// within 512 frames: fewer datagrams for the same audio.
///
/// Packed material has a length in beats, so it needs a sample rate and tempi.
pub fn drain_datagrams(
    sink: &mut Sink,
    channel: ChannelId,
    session: SessionId,
    sample_rate: u32,
    num_channels: u8,
    fill: bool,
) -> (r: Vec<AudioBuffer>)
    requires
        has_datagram(old(sink)@.segments, num_channels, fill) ==> sample_rate > 0 && have_tempo(
            old(sink)@.segments,
        ),
    ensures
        ({
            let d = drained(
                old(sink)@.segments,
                old(sink)@.next_seq,
                num_channels,
                sample_rate,
                fill,
            );
            &&& final(sink)@ == (SinkView {
                segments: d.segments,
                next_seq: d.next_seq,
                ..old(sink)@
            })
            &&& r@.len() == d.out.len()
            &&& forall|i: int|
                0 <= i < r@.len() ==> (#[trigger] r@[i])@ == packed_buffer(
                    d.out[i],
                    channel,
                    session,
                    sample_rate,
                    num_channels,
                )
        }),
        have_tempo(old(sink)@.segments) ==> have_tempo(final(sink)@.segments),
{
    let ch: usize = if num_channels == 0 {
        1
    } else {
        num_channels as usize
    };
    let s = sizing(fill);
    let ghost before = sink@;
    let ghost goal = drained(
        before.segments,
        before.next_seq,
        num_channels,
        sample_rate,
        fill,
    );
    let ghost mut packed: Seq<(Seq<Chunk>, Seq<i16>)> = Seq::empty();
    let mut out: Vec<AudioBuffer> = Vec::new();
    loop
        invariant
            has_datagram(sink@.segments, num_channels, fill) ==> sample_rate > 0 && have_tempo(
                sink@.segments,
            ),
            have_tempo(before.segments) ==> have_tempo(sink@.segments),
            0 < ch <= 255,
            ch == frame_samples(num_channels),
            s == sizing_of(fill),
            before == old(sink)@,
            goal == drained(
                before.segments,
                before.next_seq,
                num_channels,
                sample_rate,
                fill,
            ),
            sink@ == (SinkView {
                segments: sink@.segments,
                next_seq: sink@.next_seq,
                ..before
            }),
            goal == drain_on(
                Drained {
                    out: packed,
                    segments: sink@.segments,
                    next_seq: sink@.next_seq,
                },
                ch as nat,
                sample_rate,
                s,
            ),
            out@.len() == packed.len(),
            forall|i: int|
                0 <= i < out@.len() ==> (#[trigger] out@[i])@ == packed_buffer(
                    packed[i],
                    channel,
                    session,
                    sample_rate,
                    num_channels,
                ),
        decreases pending_samples(sink@.segments),
    {
        let (takes, full) = make_plan(&sink.segments, ch, s);
        if !full {
            return out;
        }
        proof {
            lemma_plan_is_possible(sink@.segments, ch as nat, s, sample_rate);
            lemma_next_datagram_pending(
                sink@.segments,
                sink@.next_seq,
                ch as nat,
                sample_rate,
                s,
            );
        }
        let (chunks, data) = take_planned(sink, &takes, ch, sample_rate);
        let buffer = AudioBuffer {
            channel,
            session,
            chunks,
            codec: CODEC_PCM_I16,
            sample_rate,
            num_channels,
            sample_data: AudioBuffer::encode_samples(data.as_slice()),
        };
        proof {
            packed = packed.push((chunks@, data@));
        }
        out.push(buffer);
    }
}

// -------------------------------------------------------------------- laws

/// Frames that a plan takes.
pub open spec fn total(takes: Seq<nat>) -> nat
    decreases takes.len(),
{
    if takes.len() == 0 {
        0
    } else {
        takes[0] + total(takes.skip(1))
    }
}

proof fn lemma_total_push(takes: Seq<nat>, take: nat)
    ensures
        total(takes.push(take)) == total(takes) + take,
    decreases takes.len(),
{
    let all = takes.push(take);
    if takes.len() == 0 {
        reveal_with_fuel(total, 2);
        assert(all.skip(1) =~= Seq::empty());
    } else {
        assert(all.skip(1) =~= takes.skip(1).push(take));
        lemma_total_push(takes.skip(1), take);
    }
}

/// Bytes of the budget that a plan spends.
pub open spec fn cost(takes: Seq<nat>, ch: nat, s: Sizing) -> int {
    s.record_cost * takes.len() + 2 * ch * total(takes)
}

proof fn lemma_cost_push(takes: Seq<nat>, take: nat, ch: nat, s: Sizing)
    ensures
        cost(takes.push(take), ch, s) == cost(takes, ch, s) + s.record_cost + take * (2 * ch),
{
    lemma_total_push(takes, take);
    let n = takes.len() as int;
    let a = total(takes) as int;
    let c = s.record_cost as int;
    assert(c * (n + 1) == c * n + c) by (nonlinear_arith);
    assert(2 * ch * (a + take) == 2 * ch * a + take * (2 * ch)) by (nonlinear_arith);
}

proof fn lemma_plan_budget(
    takes: Seq<nat>,
    frames: nat,
    rest: Seq<SegmentView>,
    left: nat,
    ch: nat,
    s: Sizing,
)
    requires
        ch > 0,
        s.chunk_cap > 0,
        forall|i: int| 0 <= i < takes.len() ==> 1 <= #[trigger] takes[i] <= s.chunk_cap,
    ensures
        ({
            let p = plan_on(takes, frames, rest, left, ch, s);
            &&& cost(p.takes, ch, s) + p.left == cost(takes, ch, s) + left
            &&& forall|i: int|
                0 <= i < p.takes.len() ==> 1 <= #[trigger] p.takes[i] <= s.chunk_cap
            &&& p.exhausted ==> p.left < s.record_cost + 2 * ch
        }),
    decreases rest.len(), frames,
{
    if frames == 0 {
        if rest.len() > 0 {
            lemma_plan_budget(takes, frames_in(rest[0], ch), rest.skip(1), left, ch, s);
        }
    } else if left >= s.record_cost + 2 * ch {
        let take = next_take(frames, left, ch, s);
        lemma_next_take(frames, left, ch, s);
        lemma_cost_push(takes, take, ch, s);
        lemma_plan_budget(
            takes.push(take),
            (frames - take) as nat,
            rest,
            (left - s.record_cost - take * (2 * ch)) as nat,
            ch,
            s,
        );
    }
}

proof fn lemma_sum_frames_push(chunks: Seq<Chunk>, c: Chunk)
    ensures
        sum_frames(chunks.push(c)) == sum_frames(chunks)
            + c.num_frames,
{
    assert(chunks.push(c).drop_last() =~= chunks);
}

/// What taking makes of the counts: one chunk for each take, its frames, its
/// samples, and consecutive numbers.
proof fn lemma_take_all_counts(t: Taken, takes: Seq<nat>, ch: nat, rate: u32)
    requires
        ch > 0,
        can_take(t.segments, takes, ch, rate),
        forall|i: int| 0 <= i < takes.len() ==> 1 <= #[trigger] takes[i] <= 65535,
    ensures
        ({
            let r = take_all(t, takes, ch, rate);
            &&& r.chunks.len() == t.chunks.len() + takes.len()
            &&& r.chunks.take(t.chunks.len() as int) == t.chunks
            &&& forall|i: int|
                0 <= i < takes.len() ==> {
                    &&& (#[trigger] r.chunks[t.chunks.len() + i]).seq == nth_number(t.next_seq, i)
                    &&& r.chunks[t.chunks.len() + i].num_frames == takes[i]
                }
            &&& r.next_seq == nth_number(t.next_seq, takes.len() as int)
            &&& r.data.len() == t.data.len() + ch * total(takes)
            &&& sum_frames(r.chunks) == sum_frames(t.chunks)
                + total(takes)
        }),
    decreases takes.len(),
{
    let r = take_all(t, takes, ch, rate);
    let k = t.chunks.len() as int;
    if takes.len() == 0 {
        assert(r.chunks.take(k) =~= t.chunks);
        assert(ch * 0 == 0) by (nonlinear_arith);
    } else {
        let t1 = take_chunk(t, takes[0], ch, rate);
        let rest = takes.skip(1);
        assert(takes[0] <= 65535);
        assert forall|i: int| 0 <= i < rest.len() implies 1 <= #[trigger] rest[i] <= 65535 by {
            assert(rest[i] == takes[i + 1]);
        }
        lemma_take_all_counts(t1, rest, ch, rate);
        lemma_sum_frames_push(t.chunks, t1.chunks[k]);
        assert(ch * (takes[0] + total(rest)) == takes[0] * ch + ch * total(rest))
            by (nonlinear_arith);
        assert(r.chunks[k] == t1.chunks[k]) by {
            assert(r.chunks.take(k + 1)[k] == t1.chunks[k]);
        }
        assert(r.chunks.take(k) =~= t.chunks) by {
            assert forall|i: int| 0 <= i < k implies r.chunks[i] == t.chunks[i] by {
                assert(r.chunks.take(k + 1)[i] == t1.chunks[i]);
            }
        }
        assert forall|i: int| 0 <= i < takes.len() implies {
            &&& (#[trigger] r.chunks[k + i]).seq == nth_number(t.next_seq, i)
            &&& r.chunks[k + i].num_frames == takes[i]
        } by {
            if i > 0 {
                let j = i - 1;
                assert(r.chunks[t1.chunks.len() + j].seq == nth_number(t1.next_seq, j));
                assert(rest[j] == takes[i]);
            }
        }
    }
}

/// What one packed datagram is: it spends the budget down to less than one
/// more frame, chunks and samples agree, and no chunk is longer than allowed.
pub open spec fn well_packed(packed: (Seq<Chunk>, Seq<i16>), ch: nat, s: Sizing) -> bool {
    let spent = s.record_cost * packed.0.len() + 2 * packed.1.len();
    &&& packed.0.len() > 0
    &&& spent <= s.budget < spent + s.record_cost + 2 * ch
    &&& packed.1.len() == ch * sum_frames(packed.0)
    &&& forall|i: int|
        0 <= i < packed.0.len() ==> 1 <= (#[trigger] packed.0[i]).num_frames <= s.chunk_cap
}

/// The chunks of all datagrams in order.
pub open spec fn packed_chunks(out: Seq<(Seq<Chunk>, Seq<i16>)>) -> Seq<Chunk>
    decreases out.len(),
{
    if out.len() == 0 {
        Seq::empty()
    } else {
        out[0].0 + packed_chunks(out.skip(1))
    }
}

/// Draining does not look at the datagrams packed before.
proof fn lemma_drain_on_out(d: Drained, ch: nat, rate: u32, s: Sizing)
    requires
        ch > 0,
        s.chunk_cap > 0,
    ensures
        ({
            let r = drain_on(d, ch, rate, s);
            let q = drain_on(Drained { out: Seq::empty(), ..d }, ch, rate, s);
            r == (Drained { out: d.out + q.out, ..q })
        }),
    decreases pending_samples(d.segments),
{
    let e = Drained { out: Seq::empty(), ..d };
    if is_full(plan(d.segments, ch, s), ch, s) {
        let t = next_datagram(d.segments, d.next_seq, ch, rate, s);
        let x = (t.chunks, t.data);
        let d1 = Drained { out: d.out.push(x), segments: t.segments, next_seq: t.next_seq };
        let e1 = Drained { out: e.out.push(x), segments: t.segments, next_seq: t.next_seq };
        lemma_next_datagram_pending(d.segments, d.next_seq, ch, rate, s);
        lemma_drain_on_out(d1, ch, rate, s);
        lemma_drain_on_out(e1, ch, rate, s);
        let q = drain_on(Drained { out: Seq::empty(), ..d1 }, ch, rate, s);
        assert(d.out.push(x) + q.out =~= d.out + (e.out.push(x) + q.out));
    } else {
        assert(d.out + e.out =~= d.out);
    }
}

/// The first datagram, then what draining goes on to give.
proof fn lemma_drain_first(
    segments: Seq<SegmentView>,
    next_seq: u64,
    ch: nat,
    rate: u32,
    s: Sizing,
)
    requires
        ch > 0,
        s.chunk_cap > 0,
        is_full(plan(segments, ch, s), ch, s),
    ensures
        ({
            let t = next_datagram(segments, next_seq, ch, rate, s);
            let r = drain_on(Drained { out: Seq::empty(), segments, next_seq }, ch, rate, s);
            let q = drain_on(
                Drained { out: Seq::empty(), segments: t.segments, next_seq: t.next_seq },
                ch,
                rate,
                s,
            );
            &&& r == (Drained { out: seq![(t.chunks, t.data)] + q.out, ..q })
            &&& r.out[0] == (t.chunks, t.data)
            &&& r.out.skip(1) == q.out
        }),
{
    let t = next_datagram(segments, next_seq, ch, rate, s);
    let x = (t.chunks, t.data);
    let none = Seq::<(Seq<Chunk>, Seq<i16>)>::empty();
    let d1 = Drained { out: none.push(x), segments: t.segments, next_seq: t.next_seq };
    lemma_drain_on_out(d1, ch, rate, s);
    assert(none.push(x) =~= seq![x]);
    let q = drain_on(Drained { out: Seq::empty(), ..d1 }, ch, rate, s);
    assert((seq![x] + q.out).skip(1) =~= q.out);
}

#[verifier::rlimit(40)]
proof fn lemma_drain_packs(
    segments: Seq<SegmentView>,
    next_seq: u64,
    ch: nat,
    rate: u32,
    s: Sizing,
)
    requires
        0 < ch,
        s.chunk_cap > 0,
        s.budget <= 65535,
    ensures
        ({
            let d = drain_on(Drained { out: Seq::empty(), segments, next_seq }, ch, rate, s);
            let chunks = packed_chunks(d.out);
            &&& forall|k: int| 0 <= k < d.out.len() ==> well_packed(#[trigger] d.out[k], ch, s)
            &&& !is_full(plan(d.segments, ch, s), ch, s)
            &&& forall|i: int|
                0 <= i < chunks.len() ==> (#[trigger] chunks[i]).seq == nth_number(next_seq, i)
            &&& d.next_seq == nth_number(next_seq, chunks.len() as int)
        }),
    decreases pending_samples(segments),
{
    let p = plan(segments, ch, s);
    if is_full(p, ch, s) {
        let d = drain_on(Drained { out: Seq::empty(), segments, next_seq }, ch, rate, s);
        let start = Taken { chunks: Seq::empty(), data: Seq::empty(), segments, next_seq };
        let t = next_datagram(segments, next_seq, ch, rate, s);
        lemma_next_datagram_pending(segments, next_seq, ch, rate, s);
        lemma_drain_first(segments, next_seq, ch, rate, s);
        lemma_plan_is_possible(segments, ch, s, rate);
        lemma_plan_budget(Seq::empty(), 0, segments, s.budget as nat, ch, s);
        assert(cost(Seq::<nat>::empty(), ch, s) == 0) by {
            assert(s.record_cost * 0 == 0) by (nonlinear_arith);
            assert(2 * ch * 0 == 0) by (nonlinear_arith);
        }
        assert forall|i: int| 0 <= i < p.takes.len() implies 1 <= #[trigger] p.takes[i]
            <= 65535 by {
            lemma_take_within_cost(p.takes, i, ch, s);
        }
        lemma_take_all_counts(start, p.takes, ch, rate);
        assert(2 * ch * total(p.takes) == 2 * (ch * total(p.takes))) by (nonlinear_arith);
        let n = t.chunks.len() as int;
        assert(n == p.takes.len());
        assert forall|i: int| 0 <= i < n implies {
            &&& (#[trigger] t.chunks[i]).seq == nth_number(next_seq, i)
            &&& 1 <= t.chunks[i].num_frames <= s.chunk_cap
        } by {
            assert(t.chunks[start.chunks.len() + i].seq == nth_number(next_seq, i));
            assert(p.takes[i] <= s.chunk_cap);
        }
        assert(well_packed((t.chunks, t.data), ch, s));
        lemma_drain_packs(t.segments, t.next_seq, ch, rate, s);
        let rest = d.out.skip(1);
        assert forall|k: int| 0 <= k < d.out.len() implies well_packed(
            #[trigger] d.out[k],
            ch,
            s,
        ) by {
            if k > 0 {
                assert(d.out[k] == rest[k - 1]);
            }
        }
        let chunks = packed_chunks(d.out);
        assert forall|i: int| 0 <= i < chunks.len() implies (#[trigger] chunks[i]).seq
            == nth_number(next_seq, i) by {
            if i >= n {
                assert(chunks[i] == packed_chunks(rest)[i - n]);
            } else {
                assert(chunks[i] == t.chunks[i]);
            }
        }
    }
}

proof fn lemma_take_within_cost(takes: Seq<nat>, i: int, ch: nat, s: Sizing)
    requires
        0 <= i < takes.len(),
        ch > 0,
    ensures
        takes[i] <= cost(takes, ch, s),
{
    lemma_take_within_total(takes, i);
    let a = total(takes) as int;
    assert(a <= 2 * ch * a) by (nonlinear_arith)
        requires
            a >= 0,
            ch >= 1,
    ;
    assert(s.record_cost * takes.len() >= 0) by (nonlinear_arith);
}

proof fn lemma_take_within_total(takes: Seq<nat>, i: int)
    requires
        0 <= i < takes.len(),
    ensures
        takes[i] <= total(takes),
    decreases takes.len(),
{
    if i > 0 {
        lemma_take_within_total(takes.skip(1), i - 1);
        assert(takes.skip(1)[i - 1] == takes[i]);
    }
}

/// Only full datagrams are packed, and a partial one's worth stays pending.
/// Each datagram keeps to its size: with default sizing at most 502 sample
/// bytes and less than a frame short of that; with fill sizing a payload of at
/// most 1176 bytes, less than a chunk of one frame short of it, of chunks of at
/// most 512 frames.
pub proof fn law_drain_packs_full_datagrams(
    segments: Seq<SegmentView>,
    next_seq: u64,
    num_channels: u8,
    rate: u32,
    fill: bool,
)
    ensures
        ({
            let d = drained(segments, next_seq, num_channels, rate, fill);
            let ch = frame_samples(num_channels);
            let s = sizing_of(fill);
            &&& forall|k: int| 0 <= k < d.out.len() ==> well_packed(#[trigger] d.out[k], ch, s)
            &&& !is_full(plan(d.segments, ch, s), ch, s)
        }),
{
    lemma_drain_packs(
        segments,
        next_seq,
        frame_samples(num_channels),
        rate,
        sizing_of(fill),
    );
}

/// Chunks are numbered one after the other from the sink's next number, across
/// datagrams, and the sink goes on with the number after the last: consecutively
/// for as long as the numbers last, then from zero again.
pub proof fn law_drain_numbers_chunks(
    segments: Seq<SegmentView>,
    next_seq: u64,
    num_channels: u8,
    rate: u32,
    fill: bool,
)
    ensures
        ({
            let d = drained(segments, next_seq, num_channels, rate, fill);
            let chunks = packed_chunks(d.out);
            &&& forall|i: int|
                0 <= i < chunks.len() ==> (#[trigger] chunks[i]).seq == nth_number(next_seq, i)
            &&& d.next_seq == nth_number(next_seq, chunks.len() as int)
            &&& next_seq + chunks.len() <= u64::MAX ==> {
                &&& forall|i: int|
                    0 <= i < chunks.len() ==> (#[trigger] chunks[i]).seq == next_seq + i
                &&& d.next_seq == next_seq + chunks.len()
            }
        }),
{
    lemma_drain_packs(
        segments,
        next_seq,
        frame_samples(num_channels),
        rate,
        sizing_of(fill),
    );
}

/// All pending samples in order.
pub open spec fn pending(segments: Seq<SegmentView>) -> Seq<i16>
    decreases segments.len(),
{
    if segments.len() == 0 {
        Seq::empty()
    } else {
        segments[0].samples + pending(segments.skip(1))
    }
}

/// All packed samples in order.
pub open spec fn packed_samples(out: Seq<(Seq<Chunk>, Seq<i16>)>) -> Seq<i16>
    decreases out.len(),
{
    if out.len() == 0 {
        Seq::empty()
    } else {
        out[0].1 + packed_samples(out.skip(1))
    }
}

/// Whether every segment ends on a frame boundary.
pub open spec fn whole_frames(segments: Seq<SegmentView>, ch: nat) -> bool {
    forall|i: int| 0 <= i < segments.len() ==> (#[trigger] segments[i]).samples.len() % ch == 0
}

proof fn lemma_residue_is_empty(segments: Seq<SegmentView>, ch: nat)
    requires
        ch > 0,
        whole_frames(segments, ch),
    ensures
        pending(without_residue(segments, ch)) == pending(segments),
        whole_frames(without_residue(segments, ch), ch),
    decreases segments.len(),
{
    if segments.len() > 0 && segments[0].samples.len() < ch {
        let rest = segments.skip(1);
        vstd::arithmetic::div_mod::lemma_small_mod(segments[0].samples.len(), ch);
        assert(whole_frames(rest, ch)) by {
            assert forall|i: int| 0 <= i < rest.len() implies (#[trigger] rest[i]).samples.len()
                % ch == 0 by {
                assert(rest[i] == segments[i + 1]);
            }
        }
        lemma_residue_is_empty(rest, ch);
        assert(pending(segments) =~= pending(rest));
    }
}

proof fn lemma_take_keeps_samples(segments: Seq<SegmentView>, take: nat, ch: nat, rate: u32)
    requires
        ch > 0,
        whole_frames(segments, ch),
        segments.len() > 0,
        take * ch <= segments[0].samples.len(),
    ensures
        segments[0].samples.take((take * ch) as int) + pending(
            after_take(segments, take, ch, rate),
        ) == pending(segments),
        whole_frames(after_take(segments, take, ch, rate), ch),
{
    let next = after_take(segments, take, ch, rate);
    let all = segments[0].samples;
    let n = (take * ch) as int;
    let rest = segments.skip(1);
    assert(all =~= all.take(n) + all.skip(n));
    if all.len() == n {
        assert(all.take(n) + pending(rest) =~= pending(segments));
        assert forall|i: int| 0 <= i < next.len() implies (#[trigger] next[i]).samples.len() % ch
            == 0 by {
            assert(next[i] == segments[i + 1]);
        }
    } else {
        assert(next.skip(1) =~= rest);
        assert(all.take(n) + (all.skip(n) + pending(rest)) =~= pending(segments));
        assert forall|i: int| 0 <= i < next.len() implies (#[trigger] next[i]).samples.len() % ch
            == 0 by {
            if i == 0 {
                assert(segments[0].samples.len() % ch == 0);
                assert((all.len() - take * ch) as int == (-(take as int)) * ch + all.len())
                    by (nonlinear_arith);
                vstd::arithmetic::div_mod::lemma_mod_multiples_vanish(
                    -(take as int),
                    all.len() as int,
                    ch as int,
                );
                assert((ch as int) * (-(take as int)) == (-(take as int)) * ch) by (nonlinear_arith);
            } else {
                assert(next[i] == segments[i]);
            }
        }
    }
}

proof fn lemma_take_all_keeps_samples(t: Taken, takes: Seq<nat>, ch: nat, rate: u32)
    requires
        ch > 0,
        whole_frames(t.segments, ch),
        can_take(t.segments, takes, ch, rate),
    ensures
        ({
            let r = take_all(t, takes, ch, rate);
            &&& r.data + pending(r.segments) == t.data + pending(t.segments)
            &&& whole_frames(r.segments, ch)
        }),
    decreases takes.len(),
{
    if takes.len() > 0 {
        let segs = without_residue(t.segments, ch);
        lemma_residue_is_empty(t.segments, ch);
        lemma_take_keeps_samples(segs, takes[0], ch, rate);
        let t1 = take_chunk(t, takes[0], ch, rate);
        lemma_take_all_keeps_samples(t1, takes.skip(1), ch, rate);
        let head = segs[0].samples.take((takes[0] * ch) as int);
        assert(t.data + head + pending(t1.segments) =~= t.data + (head + pending(t1.segments)));
    }
}

proof fn lemma_drain_keeps_samples(
    segments: Seq<SegmentView>,
    next_seq: u64,
    ch: nat,
    rate: u32,
    s: Sizing,
)
    requires
        ch > 0,
        s.chunk_cap > 0,
        whole_frames(segments, ch),
    ensures
        ({
            let d = drain_on(Drained { out: Seq::empty(), segments, next_seq }, ch, rate, s);
            packed_samples(d.out) + pending(d.segments) == pending(segments)
        }),
    decreases pending_samples(segments),
{
    let d = drain_on(Drained { out: Seq::empty(), segments, next_seq }, ch, rate, s);
    if is_full(plan(segments, ch, s), ch, s) {
        let start = Taken { chunks: Seq::empty(), data: Seq::empty(), segments, next_seq };
        let t = next_datagram(segments, next_seq, ch, rate, s);
        lemma_next_datagram_pending(segments, next_seq, ch, rate, s);
        lemma_drain_first(segments, next_seq, ch, rate, s);
        lemma_plan_is_possible(segments, ch, s, rate);
        lemma_take_all_keeps_samples(start, plan(segments, ch, s).takes, ch, rate);
        lemma_drain_keeps_samples(t.segments, t.next_seq, ch, rate, s);
        assert(start.data + pending(segments) =~= pending(segments));
        assert(packed_samples(d.out) + pending(d.segments) =~= t.data + (packed_samples(
            d.out.skip(1),
        ) + pending(d.segments)));
    } else {
        assert(packed_samples(d.out) + pending(d.segments) =~= pending(segments));
    }
}

/// No sample is lost, repeated or reordered: the packed samples followed by
/// those still pending are the samples that were pending. (A segment that ends
/// inside a frame loses that part of a frame.)
pub proof fn law_drain_keeps_every_sample(
    segments: Seq<SegmentView>,
    next_seq: u64,
    num_channels: u8,
    rate: u32,
    fill: bool,
)
    requires
        whole_frames(segments, frame_samples(num_channels)),
    ensures
        ({
            let d = drained(segments, next_seq, num_channels, rate, fill);
            packed_samples(d.out) + pending(d.segments) == pending(segments)
        }),
{
    lemma_drain_keeps_samples(
        segments,
        next_seq,
        frame_samples(num_channels),
        rate,
        sizing_of(fill),
    );
}

proof fn lemma_sum_frames_at_least(chunks: Seq<Chunk>)
    requires
        forall|i: int| 0 <= i < chunks.len() ==> (#[trigger] chunks[i]).num_frames >= 1,
    ensures
        sum_frames(chunks) >= chunks.len(),
    decreases chunks.len(),
{
    if chunks.len() > 0 {
        let front = chunks.drop_last();
        assert forall|i: int| 0 <= i < front.len() implies (#[trigger] front[i]).num_frames >= 1 by {
            assert(front[i] == chunks[i]);
        }
        lemma_sum_frames_at_least(front);
        assert(chunks[chunks.len() - 1].num_frames >= 1);
    }
}

/// A well packed datagram is one that a receiver accepts, and with fill sizing
/// it never exceeds the datagram limit.
pub proof fn law_packed_datagram_is_accepted(
    packed: (Seq<Chunk>, Seq<i16>),
    node: NodeId,
    channel: ChannelId,
    session: SessionId,
    rate: u32,
    num_channels: u8,
    fill: bool,
)
    requires
        num_channels > 0,
        well_packed(packed, frame_samples(num_channels), sizing_of(fill)),
    ensures
        ({
            let f = nominal_frame(
                node,
                MessageView::AudioBuffer(
                    packed_buffer(packed, channel, session, rate, num_channels),
                ),
            );
            &&& decoded(frame_bytes(f)) == Ok::<_, Error>(f)
            &&& fill ==> frame_bytes(f).len() <= 20 + MAX_PAYLOAD
        }),
{
    let buffer = packed_buffer(packed, channel, session, rate, num_channels);
    let f = nominal_frame(node, MessageView::AudioBuffer(buffer));
    let s = sizing_of(fill);
    let n = packed.0.len() as int;
    let frames = sum_frames(packed.0) as int;
    law_samples_roundtrip(packed.1);
    assert forall|i: int| 0 <= i < packed.0.len() implies (#[trigger] packed.0[i]).num_frames
        >= 1 by {
        assert(1 <= packed.0[i].num_frames <= s.chunk_cap);
    }
    lemma_sum_frames_at_least(packed.0);
    assert(frames <= num_channels * frames) by (nonlinear_arith)
        requires
            frames >= 0,
            num_channels >= 1,
    ;
    assert(frames * num_channels * 2 == 2 * (num_channels * frames)) by (nonlinear_arith);
    assert(s.record_cost * n >= 0) by (nonlinear_arith)
        requires
            n >= 0,
    ;
    assert(is_sound_buffer(buffer));
    law_frame_roundtrip(f);
    law_audio_datagram_size(f);
}

/// Taking more leaves the chunks taken before.
proof fn lemma_take_all_prefix(t: Taken, takes: Seq<nat>, ch: nat, rate: u32)
    ensures
        t.chunks.is_prefix_of(take_all(t, takes, ch, rate).chunks),
    decreases takes.len(),
{
    if takes.len() > 0 {
        lemma_take_all_prefix(take_chunk(t, takes[0], ch, rate), takes.skip(1), ch, rate);
    }
}

/// Audio is stamped with the beat it was written at: the first chunk that
/// leaves carries the beat and the tempo of the first pending run that holds a
/// frame.
pub proof fn law_first_chunk_carries_the_beat(
    segments: Seq<SegmentView>,
    next_seq: u64,
    num_channels: u8,
    rate: u32,
    fill: bool,
)
    requires
        drained(segments, next_seq, num_channels, rate, fill).out.len() > 0,
    ensures
        ({
            let run = without_residue(segments, frame_samples(num_channels))[0];
            let first = drained(segments, next_seq, num_channels, rate, fill).out[0].0;
            &&& first.len() > 0
            &&& first[0].begin_beats == run.begin
            &&& first[0].tempo == run.tempo
            &&& first[0].seq == next_seq
        }),
{
    let ch = frame_samples(num_channels);
    let s = sizing_of(fill);
    let takes = plan(segments, ch, s).takes;
    lemma_drain_first(segments, next_seq, ch, rate, s);
    let t = Taken { chunks: Seq::empty(), data: Seq::empty(), segments, next_seq };
    let one = take_chunk(t, takes[0], ch, rate);
    assert(one.chunks[0].begin_beats == without_residue(segments, ch)[0].begin);
    lemma_take_all_prefix(one, takes.skip(1), ch, rate);
}

// ---------------------------------------------------------------- positions

/// The length of frames in beats is right to the nearest micro-beat: at a tempo
/// of so many microseconds a beat, and so many frames a second.
pub proof fn law_length_in_beats_is_nearest(frames: int, rate: u32, tempo: i64)
    requires
        rate > 0,
        tempo > 0,
    ensures
        2 * (micro_beats(frames, rate, tempo) * (rate * tempo) - frames * 1_000_000_000_000) <= rate
            * tempo,
        2 * (frames * 1_000_000_000_000 - micro_beats(frames, rate, tempo) * (rate * tempo)) <= rate
            * tempo,
{
    assert(rate * tempo > 0) by (nonlinear_arith)
        requires
            rate > 0,
            tempo > 0,
    ;
    crate::math::law_rounded_is_nearest(frames * 1_000_000_000_000, rate * tempo);
}

/// The beat at which a chunk ends.
pub open spec fn end_of(c: Chunk, rate: u32) -> i64 {
    wrap64(c.begin_beats + wrap64(micro_beats(c.num_frames as int, rate, c.tempo)))
}

/// Whether each chunk begins at the beat at which the one before it ends, at
/// the same tempo.
pub open spec fn is_unbroken(chunks: Seq<Chunk>, rate: u32) -> bool {
    forall|i: int, j: int|
        0 <= i && j == i + 1 && j < chunks.len() ==> (#[trigger] chunks[j]).begin_beats == end_of(
            #[trigger] chunks[i],
            rate,
        ) && chunks[j].tempo == chunks[i].tempo
}

/// Whether what is pending goes on where the last chunk ends.
pub open spec fn goes_on(chunks: Seq<Chunk>, segments: Seq<SegmentView>, rate: u32) -> bool {
    chunks.len() > 0 && segments.len() > 0 ==> segments[0].begin == end_of(chunks.last(), rate)
        && segments[0].tempo == chunks.last().tempo
}

proof fn lemma_take_all_unbroken(t: Taken, takes: Seq<nat>, ch: nat, rate: u32)
    requires
        ch > 0,
        t.segments.len() <= 1,
        can_take(t.segments, takes, ch, rate),
        forall|i: int| 0 <= i < takes.len() ==> 1 <= #[trigger] takes[i] <= 65535,
        is_unbroken(t.chunks, rate),
        goes_on(t.chunks, t.segments, rate),
    ensures
        ({
            let r = take_all(t, takes, ch, rate);
            &&& r.segments.len() <= 1
            &&& is_unbroken(r.chunks, rate)
            &&& goes_on(r.chunks, r.segments, rate)
        }),
    decreases takes.len(),
{
    if takes.len() > 0 {
        let segs = without_residue(t.segments, ch);
        assert(segs == t.segments) by {
            reveal_with_fuel(without_residue, 2);
        }
        let t1 = take_chunk(t, takes[0], ch, rate);
        let rest = takes.skip(1);
        assert(takes[0] <= 65535);
        assert forall|i: int| 0 <= i < rest.len() implies 1 <= #[trigger] rest[i] <= 65535 by {
            assert(rest[i] == takes[i + 1]);
        }
        assert forall|i: int, j: int|
            0 <= i && j == i + 1 && j < t1.chunks.len() implies (
        #[trigger] t1.chunks[j]).begin_beats == end_of(#[trigger] t1.chunks[i], rate)
            && t1.chunks[j].tempo == t1.chunks[i].tempo by {
            if j < t.chunks.len() {
                assert(t1.chunks[i] == t.chunks[i]);
                assert(t1.chunks[j] == t.chunks[j]);
            } else {
                assert(t1.chunks[i] == t.chunks.last());
            }
        }
        lemma_take_all_unbroken(t1, rest, ch, rate);
    }
}

#[verifier::rlimit(40)]
proof fn lemma_drain_unbroken(
    segments: Seq<SegmentView>,
    next_seq: u64,
    ch: nat,
    rate: u32,
    s: Sizing,
)
    requires
        0 < ch,
        s.chunk_cap > 0,
        s.budget <= 65535,
        segments.len() <= 1,
    ensures
        ({
            let d = drain_on(Drained { out: Seq::empty(), segments, next_seq }, ch, rate, s);
            let chunks = packed_chunks(d.out);
            &&& is_unbroken(chunks, rate)
            &&& d.segments.len() <= 1
            &&& goes_on(chunks, d.segments, rate)
            &&& chunks.len() == 0 ==> d.segments == segments
            &&& chunks.len() > 0 ==> segments.len() == 1 && chunks[0].begin_beats
                == segments[0].begin && chunks[0].tempo == segments[0].tempo
        }),
    decreases pending_samples(segments),
{
    let p = plan(segments, ch, s);
    let d = drain_on(Drained { out: Seq::empty(), segments, next_seq }, ch, rate, s);
    if is_full(p, ch, s) {
        let start = Taken { chunks: Seq::empty(), data: Seq::empty(), segments, next_seq };
        let t = next_datagram(segments, next_seq, ch, rate, s);
        lemma_next_datagram_pending(segments, next_seq, ch, rate, s);
        lemma_drain_first(segments, next_seq, ch, rate, s);
        lemma_plan_is_possible(segments, ch, s, rate);
        lemma_plan_budget(Seq::empty(), 0, segments, s.budget as nat, ch, s);
        assert(cost(Seq::<nat>::empty(), ch, s) == 0) by {
            assert(s.record_cost * 0 == 0) by (nonlinear_arith);
            assert(2 * ch * 0 == 0) by (nonlinear_arith);
        }
        assert forall|i: int| 0 <= i < p.takes.len() implies 1 <= #[trigger] p.takes[i]
            <= 65535 by {
            lemma_take_within_cost(p.takes, i, ch, s);
        }
        lemma_take_all_unbroken(start, p.takes, ch, rate);
        lemma_take_all_counts(start, p.takes, ch, rate);
        let one = take_chunk(start, p.takes[0], ch, rate);
        lemma_take_all_prefix(one, p.takes.skip(1), ch, rate);
        assert(without_residue(segments, ch) == segments) by {
            reveal_with_fuel(without_residue, 2);
        }
        assert(t.chunks[0] == one.chunks[0]);
        lemma_drain_unbroken(t.segments, t.next_seq, ch, rate, s);
        let rest = packed_chunks(d.out.skip(1));
        let chunks = packed_chunks(d.out);
        let n = t.chunks.len() as int;
        assert(chunks == t.chunks + rest);
        assert forall|i: int, j: int|
            0 <= i && j == i + 1 && j < chunks.len() implies (#[trigger] chunks[j]).begin_beats
            == end_of(#[trigger] chunks[i], rate) && chunks[j].tempo == chunks[i].tempo by {
            if j < n {
                assert(chunks[i] == t.chunks[i]);
                assert(chunks[j] == t.chunks[j]);
            } else if j == n {
                assert(chunks[i] == t.chunks.last());
                assert(chunks[j] == rest[0]);
            } else {
                assert(chunks[i] == rest[i - n]);
                assert(chunks[j] == rest[j - n]);
            }
        }
        if rest.len() > 0 {
            assert(chunks.last() == rest.last());
        } else {
            assert(chunks.last() == t.chunks.last());
        }
        assert(chunks[0] == t.chunks[0]);
    }
}

/// A run of audio is packed without gap or overlap in beats: its first chunk
/// begins at the beat at which the run was written, each other one where the
/// one before it ends, at the same tempo, across datagrams; what stays pending
/// goes on from there, and so will the next chunk.
pub proof fn law_run_is_packed_without_gaps(
    seg: SegmentView,
    next_seq: u64,
    num_channels: u8,
    rate: u32,
    fill: bool,
)
    ensures
        ({
            let d = drained(seq![seg], next_seq, num_channels, rate, fill);
            let chunks = packed_chunks(d.out);
            &&& chunks.len() > 0 ==> chunks[0].begin_beats == seg.begin && chunks[0].tempo
                == seg.tempo
            &&& is_unbroken(chunks, rate)
            &&& goes_on(chunks, d.segments, rate)
            &&& chunks.len() == 0 ==> d.segments == seq![seg]
            &&& d.segments.len() <= 1
        }),
{
    lemma_drain_unbroken(
        seq![seg],
        next_seq,
        frame_samples(num_channels),
        rate,
        sizing_of(fill),
    );
}

/// Of several runs the first that holds a whole frame is packed first: the next
/// chunk is stamped with its beat and tempo, and holds the first samples of it;
/// what is left of the run begins where the chunk ends, and the runs after it
/// are as they were.
pub proof fn law_runs_are_packed_in_order(t: Taken, take: nat, ch: nat, rate: u32, i: int)
    requires
        ch > 0,
        0 < take <= 65535,
        without_residue(t.segments, ch).len() > 0,
        take * ch <= without_residue(t.segments, ch)[0].samples.len(),
    ensures
        ({
            let runs = without_residue(t.segments, ch);
            let r = take_chunk(t, take, ch, rate);
            let c = r.chunks.last();
            &&& r.chunks.len() == t.chunks.len() + 1
            &&& c.begin_beats == runs[0].begin
            &&& c.tempo == runs[0].tempo
            &&& c.num_frames == take
            &&& c.seq == t.next_seq
            &&& r.data == t.data + runs[0].samples.take((take * ch) as int)
            &&& take * ch == runs[0].samples.len() ==> r.segments == runs.skip(1)
            &&& take * ch < runs[0].samples.len() ==> {
                &&& r.segments.len() == runs.len()
                &&& r.segments[0].begin == end_of(c, rate)
                &&& r.segments[0].tempo == runs[0].tempo
                &&& r.segments[0].samples == runs[0].samples.skip((take * ch) as int)
                &&& 0 < i < runs.len() ==> r.segments[i] == runs[i]
            }
        }),
{
}

} // verus!
