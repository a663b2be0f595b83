//! A peer driven by lines of text, with one channel of its own.
//!
//! The words of a line, the tempo in beats per minute and the tone that is
//! published are the caller's; which command a word names, which channel is
//! published or followed, how many frames are due and what is reported is
//! decided here.

use vstd::prelude::*;
use vstd::utf8::encode_utf8;

use crate::audio::ops::{
    audio_disabled, audio_enabled, channel_published, channel_subscribed, channel_unsubscribed,
    receiving,
};
use crate::audio::outbound::is_requested;
use crate::audio::source::fresh_source;
use crate::channels::{listing, VisibleChannelView};
use crate::engine::state::{is_clock, state_ok, StateView};
use crate::link::{app_beat, peer_count, Link};
use crate::random::NoRandomness;
use crate::table::{law_with, law_without, lookup, with};
use crate::wire::codec::same_bytes;
use crate::wire::types::Id;

verus! {

/// The quantum of the console, four beats.
pub const QUANTUM: i64 = 4_000_000;

/// The sample rate of the published channel.
pub const SAMPLE_RATE: u32 = 48_000;

/// No more than a tenth of a second is published at once.
pub const MAX_FRAMES: u64 = 4_800;

/// The least time between two reports of the same content, in microseconds.
pub const STATUS_PERIOD: u64 = 400_000;

// ----------------------------------------------------------------- commands

/// What the first word of a line asks for.
#[derive(Debug, Clone, Copy, PartialEq, Eq, Structural)]
pub enum Verb {
    Enable,
    Disable,
    Tempo,
    Start,
    Stop,
    StartStopSync,
    AudioEnable,
    AudioDisable,
    AudioSubscribe,
    AudioUnsubscribe,
    Quit,
    /// Unknown commands are ignored.
    Unknown,
}

/// The command of a name.
pub open spec fn verb_named(word: Seq<char>) -> Verb {
    if word == "enable"@ {
        Verb::Enable
    } else if word == "disable"@ {
        Verb::Disable
    } else if word == "tempo"@ {
        Verb::Tempo
    } else if word == "start"@ {
        Verb::Start
    } else if word == "stop"@ {
        Verb::Stop
    } else if word == "startstop-sync"@ {
        Verb::StartStopSync
    } else if word == "audio-enable"@ {
        Verb::AudioEnable
    } else if word == "audio-disable"@ {
        Verb::AudioDisable
    } else if word == "audio-subscribe"@ {
        Verb::AudioSubscribe
    } else if word == "audio-unsubscribe"@ {
        Verb::AudioUnsubscribe
    } else if word == "quit"@ {
        Verb::Quit
    } else {
        Verb::Unknown
    }
}

fn same_word(a: &str, b: &str) -> (r: bool)
    ensures
        r == (a@ == b@),
{
    proof {
        vstd::utf8::encode_utf8_decode_utf8(a@);
        vstd::utf8::encode_utf8_decode_utf8(b@);
    }
    same_bytes(a.as_bytes(), b.as_bytes())
}

/// The command that a word names.
pub fn verb(word: &str) -> (r: Verb)
    ensures
        r == verb_named(word@),
{
    if same_word(word, "enable") {
        Verb::Enable
    } else if same_word(word, "disable") {
        Verb::Disable
    } else if same_word(word, "tempo") {
        Verb::Tempo
    } else if same_word(word, "start") {
        Verb::Start
    } else if same_word(word, "stop") {
        Verb::Stop
    } else if same_word(word, "startstop-sync") {
        Verb::StartStopSync
    } else if same_word(word, "audio-enable") {
        Verb::AudioEnable
    } else if same_word(word, "audio-disable") {
        Verb::AudioDisable
    } else if same_word(word, "audio-subscribe") {
        Verb::AudioSubscribe
    } else if same_word(word, "audio-unsubscribe") {
        Verb::AudioUnsubscribe
    } else if same_word(word, "quit") {
        Verb::Quit
    } else {
        Verb::Unknown
    }
}

/// Whether the word of a switch turns it on.
pub fn is_on(word: &str) -> (r: bool)
    ensures
        r == (word@ == "1"@),
{
    same_word(word, "1")
}

// -------------------------------------------------------------------- audio

/// The channel that the console publishes and the one that it follows.
#[derive(Debug, Clone, Copy, PartialEq, Eq)]
pub struct AudioCtl {
    pub published: Option<[u8; 8]>,
    pub subscribed: Option<[u8; 8]>,
}

impl Default for AudioCtl {
    fn default() -> (ctl: AudioCtl)
        ensures
            ctl == (AudioCtl { published: None, subscribed: None }),
    {
        AudioCtl { published: None, subscribed: None }
    }
}

/// The channels that a peer lists.
pub open spec fn visible(s: StateView) -> Seq<VisibleChannelView> {
    match s.audio {
        Some(a) => listing(a.known),
        None => Seq::empty(),
    }
}

/// The state after the console's subscription was dropped, if it has one.
pub open spec fn unfollowed(s: StateView, subscribed: Option<[u8; 8]>) -> StateView {
    match subscribed {
        Some(id) => channel_unsubscribed(s, Id(id)),
        None => s,
    }
}

impl AudioCtl {
    /// Enable audio and publish the console's channel, unless it is published.
    pub fn enable(&mut self, link: &mut Link, now: i64) -> (r: Result<(), NoRandomness>)
        requires
            is_clock(now),
            state_ok(old(link).st@),
        ensures
            ({
                let on = audio_enabled(old(link).st@, encode_utf8("tactus-peer"@), now);
                if old(self).published is Some {
                    r is Ok && *final(self) == *old(self) && final(link).st@ == on
                } else {
                    match r {
                        Ok(()) => {
                            &&& final(self).published is Some
                            &&& final(self).subscribed == old(self).subscribed
                            &&& final(link).st@ == channel_published(
                                on,
                                encode_utf8("tactus"@),
                                Id(final(self).published->0),
                            )
                        },
                        Err(_) => *final(self) == *old(self) && final(link).st@ == on,
                    }
                }
            }),
            final(link).eng == old(link).eng,
            state_ok(final(link).st@),
    {
        link.enable_audio("tactus-peer", now);
        if self.published.is_none() {
            match link.publish_channel("tactus") {
                Ok(id) => {
                    self.published = id;
                },
                Err(e) => {
                    return Err(e);
                },
            }
        }
        Ok(())
    }

    /// Disable audio, and forget what was published and followed.
    pub fn disable(&mut self, link: &mut Link, now: i64)
        requires
            is_clock(now),
            state_ok(old(link).st@),
        ensures
            *final(self) == (AudioCtl { published: None, subscribed: None }),
            final(link).st@ == audio_disabled(old(link).st@, now),
            final(link).eng == old(link).eng,
            state_ok(final(link).st@),
    {
        self.published = None;
        self.subscribed = None;
        link.disable_audio(now);
    }

    /// Follow the channel at a place of the listing in place of the one
    /// followed so far. Beyond the listing nothing happens.
    pub fn subscribe(&mut self, link: &mut Link, index: usize, now: i64)
        requires
            is_clock(now),
            state_ok(old(link).st@),
        ensures
            ({
                let s = old(link).st@;
                let list = visible(s);
                if index < list.len() {
                    let id = list[index as int].id;
                    &&& final(self).published == old(self).published
                    &&& final(self).subscribed == Some(id)
                    &&& final(link).st@ == channel_subscribed(
                        unfollowed(s, old(self).subscribed),
                        Id(id),
                        QUANTUM,
                        now,
                    )
                } else {
                    *final(self) == *old(self) && final(link).st@ == s
                }
            }),
            final(link).eng == old(link).eng,
            state_ok(final(link).st@),
    {
        let channels = link.visible_channels();
        if index < channels.len() {
            let id = channels[index].id;
            self.unsubscribe(link);
            link.subscribe_channel(id, QUANTUM, now);
            self.subscribed = Some(id);
        }
    }

    /// Stop following.
    pub fn unsubscribe(&mut self, link: &mut Link)
        requires
            state_ok(old(link).st@),
        ensures
            *final(self) == (AudioCtl { subscribed: None, ..*old(self) }),
            final(link).st@ == unfollowed(old(link).st@, old(self).subscribed),
            final(link).eng == old(link).eng,
            state_ok(final(link).st@),
    {
        if let Some(id) = self.subscribed.take() {
            link.unsubscribe_channel(id);
        }
    }
}

// --------------------------------------------------------------------- pump

/// Counts the frames that the published channel was given, against those that
/// have passed in real time.
#[derive(Debug, Clone, Copy, PartialEq, Eq)]
pub struct Pump {
    pub generated: u64,
}

/// The frames to publish when so many have passed in real time.
pub open spec fn frames_due(generated: u64, target: u64, publishing: bool) -> int {
    if !publishing {
        0
    } else if target - generated <= MAX_FRAMES {
        target - generated
    } else {
        MAX_FRAMES as int
    }
}

impl Pump {
    /// The frames to publish now that `target` frames have passed: those since
    /// the last call, up to [`MAX_FRAMES`]; what is beyond is skipped. While
    /// nothing is published, none are due.
    pub fn due(&mut self, target: u64, publishing: bool) -> (frames: u64)
        requires
            old(self).generated <= target,
        ensures
            final(self).generated == target,
            frames == frames_due(old(self).generated, target, publishing),
            frames == if !publishing {
                0
            } else if target - old(self).generated <= MAX_FRAMES {
                target - old(self).generated
            } else {
                MAX_FRAMES as int
            },
    {
        let passed = target - self.generated;
        self.generated = target;
        if !publishing {
            0
        } else if passed <= MAX_FRAMES {
            passed
        } else {
            MAX_FRAMES
        }
    }
}

// ------------------------------------------------------------------- status

/// What the console reports.
#[derive(Debug, Clone, Copy, PartialEq, Eq)]
pub struct Status {
    pub peers: usize,
    pub tempo: i64,
    pub playing: bool,
    /// The application beat at [`QUANTUM`].
    pub beat: i64,
    pub audio: bool,
    /// The number of visible channels.
    pub channels: usize,
    /// Whether audio arrives on the channel that is followed.
    pub receiving: bool,
    /// Whether anyone asks for the channel that is published.
    pub publishing: bool,
}

/// The report on a peer at one moment.
pub open spec fn status_of(s: StateView, ctl: AudioCtl, now: i64) -> Status {
    Status {
        peers: peer_count(s) as usize,
        tempo: s.timeline.tempo,
        playing: s.app_playing,
        beat: app_beat(s, now, QUANTUM),
        audio: s.audio is Some,
        channels: visible(s).len() as usize,
        receiving: match ctl.subscribed {
            Some(id) => receiving(s, Id(id), now),
            None => false,
        },
        publishing: match ctl.published {
            Some(id) => is_requested(s, Id(id), now),
            None => false,
        },
    }
}

impl Status {
    /// The report on a peer at one moment.
    pub fn of(link: &Link, ctl: &AudioCtl, now: i64) -> (r: Status)
        requires
            is_clock(now),
            state_ok(link.st@),
        ensures
            r == status_of(link.st@, *ctl, now),
            r.peers == peer_count(link.st@),
            r.channels == visible(link.st@).len(),
    {
        Status {
            peers: link.num_peers(),
            tempo: link.tempo(),
            playing: link.is_playing(),
            beat: link.beat_at_time(now, QUANTUM),
            audio: link.is_audio_enabled(),
            channels: link.visible_channels().len(),
            receiving: match ctl.subscribed {
                Some(id) => link.is_receiving(id, now),
                None => false,
            },
            publishing: match ctl.published {
                Some(id) => link.has_requesters(id, now),
                None => false,
            },
        }
    }

    /// Whether the report is due: at once when what it says besides the beat
    /// has changed, else after [`STATUS_PERIOD`].
    pub fn is_due(changed: bool, elapsed: u64) -> (r: bool)
        ensures
            r == (changed || elapsed >= STATUS_PERIOD),
    {
        changed || elapsed >= STATUS_PERIOD
    }
}

// -------------------------------------------------------------------- laws

/// Whether the peer is subscribed to the channel that is followed and to no
/// other.
pub open spec fn follows(s: StateView, subscribed: Option<[u8; 8]>) -> bool {
    match s.audio {
        Some(a) => forall|channel: Id|
            lookup(a.sources, channel) is Some <==> (subscribed is Some && channel == Id(
                subscribed->0,
            )),
        None => true,
    }
}

/// The console is subscribed to the one channel that it follows, through every
/// change of mind.
pub proof fn law_console_follows_one(
    s: StateView,
    subscribed: Option<[u8; 8]>,
    id: [u8; 8],
    now: i64,
)
    requires
        state_ok(s),
        follows(s, subscribed),
    ensures
        follows(unfollowed(s, subscribed), None),
        follows(channel_subscribed(unfollowed(s, subscribed), Id(id), QUANTUM, now), Some(id)),
{
    if s.audio is Some {
        let a = s.audio->0;
        let t = unfollowed(s, subscribed);
        let b = t.audio->0;
        assert forall|channel: Id| lookup(b.sources, channel) is None by {
            if subscribed is Some {
                law_without(a.sources, Id(subscribed->0), channel);
            }
        }
        if subscribed is Some {
            law_without(a.sources, Id(subscribed->0), Id(id));
        }
        let source = fresh_source(QUANTUM, now);
        assert forall|channel: Id|
            lookup(with(b.sources, Id(id), source), channel) is Some <==> channel == Id(id) by {
            law_with(b.sources, Id(id), source, channel);
        }
    }
}

/// What is reported is what the peer holds: the tempo, the transport, the beat at
/// a quantum of four beats, whether audio is on, how many channels are listed,
/// and whether audio comes in on the channel followed and is asked for on the
/// one published.
pub proof fn law_status_is_that_of_the_peer(s: StateView, ctl: AudioCtl, now: i64)
    ensures
        ({
            let r = status_of(s, ctl, now);
            &&& r.tempo == s.timeline.tempo
            &&& r.playing == s.app_playing
            &&& r.beat == app_beat(s, now, 4_000_000)
            &&& r.audio == (s.audio is Some)
            &&& r.peers == peer_count(s) as usize
            &&& s.audio matches Some(a) ==> r.channels == listing(a.known).len() as usize
            &&& s.audio is None ==> r.channels == 0
            &&& ctl.subscribed is None ==> !r.receiving
            &&& ctl.subscribed matches Some(id) ==> r.receiving == receiving(s, Id(id), now)
            &&& ctl.published is None ==> !r.publishing
            &&& ctl.published matches Some(id) ==> r.publishing == is_requested(s, Id(id), now)
        }),
{
}

/// The pump keeps to real time: in steps of at most a tenth of a second, at
/// 48,000 frames a second, what is due in all is what has passed; a longer step
/// gives a tenth of a second. Nothing is due while nothing is published.
pub proof fn law_pump_keeps_real_time(a: u64, b: u64, c: u64)
    requires
        a <= b <= c,
    ensures
        frames_due(a, c, false) == 0,
        c - a <= 4_800 ==> frames_due(a, b, true) + frames_due(b, c, true) == c - a,
        c - a > 4_800 ==> frames_due(a, c, true) == 4_800,
{
}

} // verus!
