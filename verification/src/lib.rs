//! A tempo/beat session peer, free of sockets, threads and clocks.
//!
//! Peers on a network find each other, agree on one session with a common
//! tempo, beat and transport state, and share audio that is stamped with the
//! beats of the session. This library is what such a peer decides; whoever uses
//! it owns the sockets and the clock. It hands in datagrams and the time, and
//! sends what it finds in the outbox.
//!
//! - [`wire`] is the datagram codec of the three protocols: discovery, clock
//!   measurement and audio.
//! - [`math`] is timeline and beat-grid arithmetic.
//! - [`engine`] is the state of a peer and how it changes: gossip, measurement,
//!   session election, timers.
//! - [`audio`] is the audio part of it: channels announced and requested,
//!   packing what is sent, delivering what arrives.
//! - [`runtime`] joins and leaves the network and routes datagrams.
//! - [`link`] is the peer as an application uses it, [`channels`] the channels
//!   that it is shown, [`console`] a peer driven by lines of text.
//! - [`table`], [`order`] and [`random`] are what the others are built on.
//!
//! Every state change is stated as a function from the state before, the event
//! and the time to the state after. What holds of several of them together is
//! stated and proved as functions named `law_…`, beside the definitions that
//! they are about or in [`engine::laws`], [`engine::effects`], [`audio::laws`],
//! [`audio::effects`] and [`wire::layout`].
//!
//! Times are microseconds on a clock that starts at 0, beats are micro-beats,
//! tempi are microseconds per beat.

pub mod audio;
pub mod channels;
pub mod console;
pub mod engine;
pub mod link;
pub mod math;
pub mod order;
pub mod random;
pub mod runtime;
pub mod table;
pub mod wire;
