//! Networking core for a bevy-style client/server stack: which sides a
//! process plays, the connections and their ports, the message registry,
//! per-port peer sessions, authentication bookkeeping and the byte-level
//! framing of messages.

pub mod auth;
pub mod client_network;
pub mod client_tcp;
pub mod connection;
pub mod framing;
pub mod lifecycle;
pub mod maps;
pub mod messages;
pub mod messaging;
pub mod registry;
pub mod server_network;
pub mod settings;
pub mod sessions;
pub mod sides;
