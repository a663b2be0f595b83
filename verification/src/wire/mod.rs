//! Wire codec of the session protocol family.
//!
//! Three UDP protocols share one serialization scheme ([`codec`]):
//!
//! - [`discovery`] is multicast peer discovery and state gossip;
//! - [`sync`] is unicast ping/pong clock measurement;
//! - [`audio`] is channel control and audio streaming.
//!
//! Every decoder is stated as a function of the datagram's bytes, every
//! encoder as the bytes it produces, and each module proves that its decoder
//! takes its encoder's output back to the value encoded.

pub mod audio;
pub mod codec;
pub mod discovery;
pub mod layout;
pub mod prefix;
pub mod sync;
pub mod text;
pub mod types;
