//! The error taxonomy of the protocol engine.

use vstd::prelude::*;

verus! {

/// Represents the ways an FTP operation can fail.
///
/// Transport resets are not reported through this type: the channel layer
/// absorbs them into a reconnect plus an empty reply, and the crawl engine
/// restarts.  Everything here is fatal for the operation that raised it.
#[derive(Clone, Copy, Debug, PartialEq, Eq, Structural)]
pub enum Error {
    /// A read from the control or data connection failed, and the failure
    /// was not a peer reset.
    ReadError,

    /// The reconnect retry budget was exhausted without reaching the server.
    ReconnectError,

    /// The initial connection to the server could not be established.
    ConnectionError,

    /// The server name could not be resolved to a socket endpoint.
    DomainResolutionError,

    /// Writing a command failed even after the one permitted retry.
    CommandWriteError,

    /// Flushing a written command failed.
    CommandFlushError,

    /// A `PASV`/`EPSV` reply did not have the expected shape.
    InvalidParsedData,

    /// A `PASV` reply held an IP field that is not a decimal octet.
    InvalidParsedIp,

    /// A `PASV`/`EPSV` reply held a port field that is not a valid port.
    InvalidParsedPort,

    /// An empty reply arrived where one was required.
    NoResponseReceived,
}

} // verus!
