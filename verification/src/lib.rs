//! A verified model of a keyed TCP connection registry.
//!
//! The library is the decision core of a socket lifecycle manager: a registry
//! maps caller-chosen string ids to connections (outbound clients or listening
//! servers with per-peer sessions), and the lifecycle operations decide, for
//! every request and every socket observation, how the registry changes, which
//! background tasks must be cancelled, and which event is owed to the event
//! sink. Sockets and tasks themselves are referred to by numeric handles that
//! the registry issues; the embedding runtime owns the real resources, performs
//! the I/O, and drives these decision functions.

pub mod errors;
pub mod event;
pub mod kv;
pub mod conn;
pub mod registry;
pub mod laws;
