//! What an application does with audio.

use vstd::prelude::*;

use crate::audio::outbound::{byes_sent, lemma_byes_sent, request_sent, send_byes, send_request};
use crate::audio::sink::{Sink, SinkView};
use crate::audio::source::{fresh_source, Source, RECEIVING_WINDOW};
use crate::audio::state::{
    audio_ok, cap_name, capped_name, fresh_audio, sink_ok, source_ok, AudioState, AudioView,
};
use crate::engine::Engine;
use crate::engine::send::broadcast_scheduled;
use crate::engine::state::{is_clock, state_ok, State, StateView};
use crate::random::{random_id, NoRandomness};
use crate::table::{lemma_place, lookup, place, with, without, Table};
use crate::wire::types::ChannelId;

verus! {

/// The channels that a list of sinks publishes.
pub open spec fn sink_ids(sinks: Seq<SinkView>) -> Seq<ChannelId> {
    Seq::new(sinks.len(), |i: int| sinks[i].id)
}

/// The state after all published channels were withdrawn and audio ended.
pub open spec fn audio_shut(s: StateView) -> StateView {
    match s.audio {
        Some(a) => StateView { audio: None, ..byes_sent(s, sink_ids(a.sinks)) },
        None => s,
    }
}

/// Withdraw all published channels before the messenger goes away.
pub fn shutdown(st: &mut State)
    ensures
        final(st)@ == audio_shut(old(st)@),
        state_ok(old(st)@) ==> state_ok(final(st)@),
{
    let ghost s = st@;
    let mut ids: Vec<ChannelId> = Vec::new();
    if let Some(audio) = &st.audio {
        let mut i: usize = 0;
        while i < audio.sinks.len()
            invariant
                i <= audio.sinks@.len(),
                ids@ =~= sink_ids(audio@.sinks).take(i as int),
            decreases audio.sinks@.len() - i,
        {
            ids.push(audio.sinks[i].id);
            i = i + 1;
        }
        proof {
            assert(ids@ =~= sink_ids(audio@.sinks));
        }
    } else {
        return;
    }
    send_byes(st, ids.as_slice());
    proof {
        lemma_byes_sent(s, ids@);
    }
    st.audio = None;
}

/// The state after audio was enabled: the advertisement of the audio endpoint
/// switches on with the next gossip.
pub open spec fn audio_enabled(s: StateView, peer_name: Seq<u8>, now: i64) -> StateView {
    if s.audio is None {
        broadcast_scheduled(StateView { audio: Some(fresh_audio(peer_name)), ..s }, now)
    } else {
        s
    }
}

/// Enable audio under a display name.
pub fn enable(eng: &Engine, st: &mut State, peer_name: &str, now: i64)
    requires
        is_clock(now),
        state_ok(old(st)@),
    ensures
        final(st)@ == audio_enabled(old(st)@, vstd::utf8::encode_utf8(peer_name@), now),
        state_ok(final(st)@),
{
    if st.audio.is_none() {
        st.audio = Some(AudioState::new(peer_name));
        eng.schedule_broadcast(st, now);
    }
}

/// The state after audio was disabled: peer state without an audio endpoint
/// clears it remotely.
pub open spec fn audio_disabled(s: StateView, now: i64) -> StateView {
    if s.audio is Some {
        broadcast_scheduled(audio_shut(s), now)
    } else {
        s
    }
}

/// Disable audio: withdraw all channels and stop advertising the endpoint.
pub fn disable(eng: &Engine, st: &mut State, now: i64)
    requires
        is_clock(now),
        state_ok(old(st)@),
    ensures
        final(st)@ == audio_disabled(old(st)@, now),
        state_ok(final(st)@),
{
    if st.audio.is_some() {
        shutdown(st);
        eng.schedule_broadcast(st, now);
    }
}

/// A sink just published.
pub open spec fn fresh_sink(id: ChannelId, name: Seq<u8>) -> SinkView {
    SinkView {
        id,
        name: capped_name(name),
        requesters: Seq::empty(),
        next_seq: 1,
        segments: Seq::empty(),
        format: None,
    }
}

/// The state after a channel was published under the given identifier. It is
/// announced promptly rather than when the period is over.
pub open spec fn channel_published(s: StateView, name: Seq<u8>, id: ChannelId) -> StateView {
    match s.audio {
        Some(a) => StateView {
            audio: Some(
                AudioView { sinks: a.sinks.push(fresh_sink(id, name)), last_announce_at: 0, ..a },
            ),
            ..s
        },
        None => s,
    }
}

/// Publish a channel under the given identifier, if audio is enabled.
pub fn publish_as(st: &mut State, name: &str, id: ChannelId) -> (r: Option<ChannelId>)
    requires
        state_ok(old(st)@),
    ensures
        final(st)@ == channel_published(old(st)@, vstd::utf8::encode_utf8(name@), id),
        r == if old(st)@.audio is Some {
            Some(id)
        } else {
            None
        },
        state_ok(final(st)@),
{
    let mut audio = match st.audio.take() {
        Some(audio) => audio,
        None => {
            return None;
        },
    };
    let ghost a = audio@;
    let sink = Sink {
        id,
        name: cap_name(name),
        requesters: Table::new(),
        next_seq: 1,
        segments: Vec::new(),
        format: None,
    };
    let ghost new = fresh_sink(id, vstd::utf8::encode_utf8(name@));
    proof {
        assert(sink@.segments =~= Seq::empty());
        assert(sink@ == new);
        assert(sink_ok(new));
    }
    audio.sinks.push(sink);
    audio.last_announce_at = 0;
    proof {
        assert(audio@.sinks =~= a.sinks.push(new));
        assert forall|i: int| 0 <= i < audio@.sinks.len() implies sink_ok(
            #[trigger] audio@.sinks[i],
        ) by {
            if i < a.sinks.len() {
                assert(audio@.sinks[i] == a.sinks[i]);
            }
        }
    }
    st.audio = Some(audio);
    Some(id)
}

/// Publish a channel; returns its fresh identifier, or nothing if audio is not
/// enabled.
pub fn publish(st: &mut State, name: &str) -> (r: Result<Option<ChannelId>, NoRandomness>)
    requires
        state_ok(old(st)@),
    ensures
        old(st)@.audio is None ==> r == Ok::<Option<ChannelId>, NoRandomness>(None)
            && final(st)@ == old(st)@,
        old(st)@.audio is Some ==> match r {
            Ok(Some(id)) => final(st)@ == channel_published(
                old(st)@,
                vstd::utf8::encode_utf8(name@),
                id,
            ),
            Ok(None) => false,
            Err(_) => final(st)@ == old(st)@,
        },
        state_ok(final(st)@),
{
    if st.audio.is_none() {
        return Ok(None);
    }
    let id = random_id()?;
    Ok(publish_as(st, name, id))
}

/// The state after a channel was withdrawn.
pub open spec fn channel_withdrawn(s: StateView, channel: ChannelId) -> StateView {
    match s.audio {
        Some(a) => {
            let kept = a.sinks.filter(|k: SinkView| k.id != channel);
            let rest = StateView { audio: Some(AudioView { sinks: kept, ..a }), ..s };
            if kept.len() != a.sinks.len() {
                byes_sent(rest, seq![channel])
            } else {
                rest
            }
        },
        None => s,
    }
}

fn remove_sinks(audio: &mut AudioState, channel: ChannelId)
    requires
        audio_ok(old(audio)@),
    ensures
        final(audio)@ == (AudioView {
            sinks: old(audio)@.sinks.filter(|k: SinkView| k.id != channel),
            ..old(audio)@
        }),
        audio_ok(final(audio)@),
{
    let ghost a = audio@;
    let ghost all = a.sinks;
    let ghost keep = |k: SinkView| k.id != channel;
    let total = audio.sinks.len();
    let mut done: usize = 0;
    let mut i: usize = 0;
    proof {
        assert(all.take(0).filter(keep) =~= Seq::empty()) by {
            reveal(Seq::filter);
        }
    }
    while done < total
        invariant
            done <= total == all.len(),
            i <= done,
            all == a.sinks,
            keep == (|k: SinkView| k.id != channel),
            audio@ == (AudioView { sinks: audio@.sinks, ..a }),
            audio@.sinks.len() == i + (total - done),
            forall|j: int| i <= j < audio@.sinks.len() ==> #[trigger] audio@.sinks[j] == all[j - i
                + done],
            audio@.sinks.take(i as int) == all.take(done as int).filter(keep),
        decreases total - done,
    {
        let ghost now = audio@.sinks;
        proof {
            reveal(Seq::filter);
            assert(now[i as int] == all[done as int]);
            assert(all.take(done + 1).drop_last() =~= all.take(done as int));
        }
        if audio.sinks[i].id != channel {
            i = i + 1;
            proof {
                assert(audio@.sinks.take(i as int) =~= now.take(i - 1).push(all[done as int]));
            }
        } else {
            audio.sinks.remove(i);
            proof {
                assert(audio@.sinks =~= now.remove(i as int));
                assert(audio@.sinks.take(i as int) =~= now.take(i as int));
            }
        }
        done = done + 1;
    }
    proof {
        assert(all.take(total as int) =~= all);
        assert(audio@.sinks.take(i as int) =~= audio@.sinks);
        let kept = all.filter(keep);
        assert forall|j: int| 0 <= j < kept.len() implies sink_ok(#[trigger] kept[j]) by {
            assert(kept.contains(kept[j]));
            all.lemma_filter_contains_rev(keep, kept[j]);
        }
    }
}

/// Withdraw a published channel.
pub fn unpublish(st: &mut State, channel: ChannelId)
    requires
        state_ok(old(st)@),
    ensures
        final(st)@ == channel_withdrawn(old(st)@, channel),
        state_ok(final(st)@),
{
    let mut audio = match st.audio.take() {
        Some(audio) => audio,
        None => {
            return;
        },
    };
    let before = audio.sinks.len();
    remove_sinks(&mut audio, channel);
    let after = audio.sinks.len();
    st.audio = Some(audio);
    let ghost rest = st@;
    if after != before {
        let mut ids: Vec<ChannelId> = Vec::new();
        ids.push(channel);
        send_byes(st, ids.as_slice());
        proof {
            assert(ids@ =~= seq![channel]);
            lemma_byes_sent(rest, ids@);
        }
    }
}

/// The state after a channel was subscribed: its publisher is asked at once. A
/// subscription that there is stays as it is.
pub open spec fn channel_subscribed(
    s: StateView,
    channel: ChannelId,
    quantum: i64,
    now: i64,
) -> StateView {
    match s.audio {
        Some(a) => {
            let b = if lookup(a.sources, channel) is Some {
                a
            } else {
                AudioView { sources: with(a.sources, channel, fresh_source(quantum, now)), ..a }
            };
            request_sent(StateView { audio: Some(b), ..s }, b, channel, false)
        },
        None => s,
    }
}

/// Subscribe to a remote channel.
pub fn subscribe(st: &mut State, channel: ChannelId, quantum: i64, now: i64)
    requires
        is_clock(now),
        state_ok(old(st)@),
    ensures
        final(st)@ == channel_subscribed(old(st)@, channel, quantum, now),
        state_ok(final(st)@),
{
    let mut audio = match st.audio.take() {
        Some(audio) => audio,
        None => {
            return;
        },
    };
    let ghost a = audio@;
    if audio.sources.get(&channel).is_none() {
        audio.sources.insert(channel, Source::new(quantum, now));
        proof {
            lemma_place(a.sources, channel);
            assert forall|j: int| 0 <= j < audio@.sources.len() implies source_ok(
                (#[trigger] audio@.sources[j]).1,
            ) by {
                if j < a.sources.len() {
                    assert(audio@.sources[j] == a.sources[j]);
                }
            }
        }
    }
    send_request(st, &audio, channel, false);
    st.audio = Some(audio);
}

/// The state after a subscription was dropped.
pub open spec fn channel_unsubscribed(s: StateView, channel: ChannelId) -> StateView {
    match s.audio {
        Some(a) => {
            let b = AudioView { sources: without(a.sources, channel), ..a };
            let rest = StateView { audio: Some(b), ..s };
            if lookup(a.sources, channel) is Some {
                request_sent(rest, b, channel, true)
            } else {
                rest
            }
        },
        None => s,
    }
}

/// Drop a subscription.
pub fn unsubscribe(st: &mut State, channel: ChannelId)
    requires
        state_ok(old(st)@),
    ensures
        final(st)@ == channel_unsubscribed(old(st)@, channel),
        state_ok(final(st)@),
{
    let mut audio = match st.audio.take() {
        Some(audio) => audio,
        None => {
            return;
        },
    };
    let ghost a = audio@;
    let was = audio.sources.remove(&channel);
    proof {
        lemma_place(a.sources, channel);
        let p = place(a.sources, channel);
        assert forall|j: int| 0 <= j < audio@.sources.len() implies source_ok(
            (#[trigger] audio@.sources[j]).1,
        ) by {
            if p < a.sources.len() {
                assert(audio@.sources[j] == a.sources[if j < p {
                    j
                } else {
                    j + 1
                }]);
            }
        }
    }
    if was {
        send_request(st, &audio, channel, true);
    }
    st.audio = Some(audio);
}

/// Whether subscribed audio arrived within the receiving window.
pub open spec fn receiving(s: StateView, channel: ChannelId, now: i64) -> bool {
    match s.audio {
        Some(a) => match lookup(a.sources, channel) {
            Some(source) => now - source.last_buffer_at <= RECEIVING_WINDOW,
            None => false,
        },
        None => false,
    }
}

/// True while subscribed audio arrived within the receiving window.
pub fn is_receiving(st: &State, channel: ChannelId, now: i64) -> (r: bool)
    requires
        is_clock(now),
        state_ok(st@),
    ensures
        r == receiving(st@, channel, now),
{
    match &st.audio {
        Some(audio) => {
            let n = audio.sources.index_of(&channel);
            if n < audio.sources.items.len() {
                proof {
                    assert(source_ok(audio@.sources[n as int].1));
                }
                now - audio.sources.items[n].1.last_buffer_at <= RECEIVING_WINDOW
            } else {
                false
            }
        },
        None => false,
    }
}

} // verus!
