//! Core of a minimal detached-session terminal multiplexer: the framing of
//! client input, the screen-aware replay buffer, and the hub's event handling.
pub mod codec;
pub mod replay;
pub mod hub;
