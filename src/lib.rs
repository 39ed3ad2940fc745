//! A multiplayer snake arena: the authoritative tick-based simulation, the
//! registry that binds remote clients to arena slots, and the framing of
//! messages on a byte stream.

pub mod frame;
pub mod menu;
pub mod render;
pub mod server;
pub mod yard;
