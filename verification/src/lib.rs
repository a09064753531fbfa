//! Verified core of a relay server that lets named participants exchange
//! direct text messages: the length-prefixed wire framing, the typed message
//! codec, the connection registry, the pairwise chat store, the message
//! router, and the per-connection state machine.
//!
//! Everything that reads or writes sockets lives outside this crate; the
//! functions here compute over plain values and state exactly what they do.

pub mod codec;
pub mod handler;
pub mod order;
pub mod protocol;
pub mod registry;
pub mod router;
pub mod store;
pub mod wire;
