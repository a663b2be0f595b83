//! The peer state machine: discovery gossip processing, clock measurement,
//! session election, timeline and start/stop propagation.
//!
//! The engine does no I/O. The caller hands it datagrams and the time on its
//! clock; what the engine has to send it puts into [`state::State::outbox`].
//! An identifier that only the system's randomness can give comes as an
//! argument.

use vstd::prelude::*;

pub mod effects;
pub mod elect;
pub mod gossip;
pub mod laws;
pub mod measure;
pub mod send;
pub mod state;
pub mod upkeep;

verus! {

/// Peer configuration.
#[derive(Debug, Clone)]
pub struct Config {
    /// Local IPv4 interface addresses to run gateways on. Each address gets its
    /// own discovery, measurement and audio sockets.
    pub gateways: Vec<[u8; 4]>,
    /// Pack audio datagrams toward the payload budget instead of the flat
    /// sample-byte cap.
    pub fill_audio_datagrams: bool,
}

impl Default for Config {
    /// Loopback only.
    fn default() -> (c: Self)
        ensures
            c.gateways@ == seq![[127u8, 0, 0, 1]],
            !c.fill_audio_datagrams,
    {
        let mut gateways: Vec<[u8; 4]> = Vec::new();
        gateways.push([127, 0, 0, 1]);
        proof {
            assert(gateways@ =~= seq![[127u8, 0, 0, 1]]);
        }
        Config { gateways, fill_audio_datagrams: false }
    }
}

/// The rules by which a peer's state changes.
pub struct Engine {
    pub config: Config,
}

impl Engine {
    pub fn new(config: Config) -> (e: Engine)
        ensures
            e.config == config,
    {
        Engine { config }
    }
}

} // verus!
