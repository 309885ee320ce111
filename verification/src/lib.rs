//! Core of a minimal real-time chat relay: the wire protocol (length-prefixed
//! framing and a tagged payload codec), the session registry with its
//! broadcast fan-out, the per-connection handler state machine, and the
//! client-side session logic.
//!
//! Everything here is plain computation on values; sockets, tasks and the UI
//! shell live outside and drive these functions.

pub mod client;
pub mod codec;
pub mod framing;
pub mod handler;
pub mod messages;
pub mod registry;
