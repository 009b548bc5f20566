//! Types at the boundary to the QUIC endpoint.
//!
//! The QUIC implementation itself runs outside the library; the tunnel's
//! logic consumes it through these plain values: errors, path events, and
//! stream handles carrying the endpoint-assigned stream id.

use vstd::prelude::*;

verus! {

/// Unique identifier for a path within a connection.
pub type PathId = u64;

/// Errors surfaced from the QUIC layer.
#[derive(Debug, Clone)]
pub enum Error {
    /// QUIC transport error.
    Quic(String),
    /// TLS or crypto error.
    Tls(String),
    /// The connection is closed.
    ConnectionClosed {
        /// Why it closed.
        reason: String,
    },
    /// Stream error.
    Stream(String),
    /// I/O error, carried as its message.
    Io(String),
    /// Configuration error.
    Config(String),
    /// Path or multipath error.
    Path(String),
}

/// Events related to path changes.
#[derive(Debug, Clone, Copy, PartialEq, Eq, Structural)]
pub enum PathEvent {
    /// A new path became available.
    Available(PathId),
    /// A path was suspended, temporarily unavailable.
    Suspended(PathId),
    /// A path was deleted.
    Deleted(PathId),
    /// Path quality changed significantly.
    QualityChanged(PathId),
}

/// Mode for a path, affecting scheduling.
#[derive(Debug, Clone, Copy, PartialEq, Eq, Structural)]
pub enum PathMode {
    /// Normal bidirectional path.
    Normal,
    /// Path primarily for sending.
    SendPrimary,
    /// Path primarily for receiving.
    RecvPrimary,
    /// Backup path, used when the primary fails.
    Backup,
}

/// Information about a network path, as plain values.
#[derive(Debug, Clone, Copy)]
pub struct PathInfo {
    /// Unique path identifier.
    pub path_id: PathId,
    /// Local address of this path.
    pub local_addr: crate::addr::SockAddr,
    /// Remote address of this path.
    pub peer_addr: crate::addr::SockAddr,
    /// Current round-trip estimate in microseconds.
    pub rtt_us: u64,
    /// Current congestion window in bytes.
    pub cwnd: u64,
    /// Current pacing rate in bytes per second.
    pub pacing_rate: u64,
    /// Bytes in flight on this path.
    pub bytes_in_flight: u64,
    /// Whether this path currently serves traffic.
    pub is_active: bool,
}

/// A send stream: the endpoint-assigned id of the sending half.
#[derive(Debug, Clone, Copy)]
pub struct SendStream {
    stream_id: u64,
}

impl SendStream {
    /// Wrap a stream id handed out by the endpoint.
    pub fn new(stream_id: u64) -> (r: Self)
        ensures
            r.id_spec() == stream_id,
    {
        SendStream { stream_id }
    }

    /// The id the endpoint assigned.
    pub closed spec fn id_spec(&self) -> u64 {
        self.stream_id
    }

    /// Get the stream id.
    pub fn stream_id(&self) -> (r: u64)
        ensures
            r == self.id_spec(),
    {
        self.stream_id
    }

    /// Ask the endpoint to reset the stream. The endpoint performs the
    /// reset when the data is handed back to it; the handle itself only
    /// records the request, so this always succeeds.
    pub fn reset(&mut self, _error_code: u64) -> (r: Result<(), Error>)
        ensures
            r is Ok,
            final(self).id_spec() == old(self).id_spec(),
    {
        Ok(())
    }
}

/// A receive stream: the endpoint-assigned id of the receiving half.
#[derive(Debug, Clone, Copy)]
pub struct RecvStream {
    stream_id: u64,
}

impl RecvStream {
    /// Wrap a stream id handed out by the endpoint.
    pub fn new(stream_id: u64) -> (r: Self)
        ensures
            r.id_spec() == stream_id,
    {
        RecvStream { stream_id }
    }

    /// The id the endpoint assigned.
    pub closed spec fn id_spec(&self) -> u64 {
        self.stream_id
    }

    /// Get the stream id.
    pub fn stream_id(&self) -> (r: u64)
        ensures
            r == self.id_spec(),
    {
        self.stream_id
    }

    /// Ask the endpoint to stop the stream. As with `SendStream::reset`,
    /// the handle only records the request, so this always succeeds.
    pub fn stop(&mut self, _error_code: u64) -> (r: Result<(), Error>)
        ensures
            r is Ok,
            final(self).id_spec() == old(self).id_spec(),
    {
        Ok(())
    }
}

/// A bidirectional stream: both halves under one id.
#[derive(Debug, Clone, Copy)]
pub struct BiStream {
    /// The send half.
    pub send: SendStream,
    /// The receive half.
    pub recv: RecvStream,
}

impl BiStream {
    /// Wrap a stream id handed out by the endpoint.
    pub fn new(stream_id: u64) -> (r: Self)
        ensures
            r.send.id_spec() == stream_id,
            r.recv.id_spec() == stream_id,
    {
        BiStream { send: SendStream::new(stream_id), recv: RecvStream::new(stream_id) }
    }

    /// The id the endpoint assigned.
    pub fn stream_id(&self) -> (r: u64)
        ensures
            r == self.send.id_spec(),
    {
        self.send.stream_id()
    }
}

} // verus!
