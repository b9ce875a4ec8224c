//! A verified signaling core for establishing direct peer-to-peer media
//! sessions. The relay side keeps a registry of connected peers with one
//! ordered delivery queue per peer and forwards opaque signaling envelopes
//! between exactly the sender and the named recipient; the client side
//! runs one negotiation controller per remote peer, driving the
//! offer/answer/ICE-candidate exchange and buffering candidates that
//! arrive before the remote description is set.

pub mod negotiation;
pub mod pairmap;
pub mod registry;
pub mod session;
pub mod wire;
