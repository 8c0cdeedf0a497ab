//! Error kinds reported by the registry operations.

use vstd::prelude::*;

verus! {

/// The failures a registry operation can report.
///
/// `NotFound` covers an unknown id and an unknown peer address under a server;
/// `InvalidInput` covers a request that is malformed for the connection it
/// names, such as a send to a server without a peer address. Transport
/// failures (connect, bind, read, write) never reach the registry's
/// decisions: the runtime that performs the socket calls surfaces them
/// directly to its caller.
#[derive(Clone, Copy, Debug, PartialEq, Eq, Structural)]
pub enum TcpError {
    NotFound,
    InvalidInput,
}

} // verus!
