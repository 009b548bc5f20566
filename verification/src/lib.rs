//! A covert TCP tunnel that carries QUIC packets inside DNS traffic.
//!
//! The library holds the verified core of the tunnel: the DNS message codec
//! that packs binary payloads into query names and `TXT` answers, the
//! application-layer fragmentation that splits QUIC packets across queries,
//! the poll-pacing arithmetic, resolver configuration parsing, and the
//! per-path state machine. The event loops that move bytes between sockets
//! and the QUIC endpoint live outside the library and call into it with
//! plain values.


pub mod addr;
pub mod assoc;
pub mod assoc64;
pub mod client;
pub mod config;
pub mod dns;
pub mod fragment;
pub mod pacing;
pub mod quic;
pub mod resolver;
pub mod server;
