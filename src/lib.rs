//! Tunnelling TCP byte streams through DNS queries and responses.
//!
//! The layers, from the bottom: byte and bit buffers; the DNS message
//! format; the codes that carry raw bytes in names and record bodies; the
//! discovery and establish handshakes; the WWR state machine and its
//! packets; and the per-session decisions of server and client.

// Binary buffers and small helpers.
pub mod bits;
pub mod codec;
pub mod digest;
pub mod seqnum;
pub mod text;

// The DNS message format.
pub mod domain;
pub mod header;
pub mod frame;
pub mod message;
pub mod record;
pub mod util;

// Carrying raw bytes in names and records.
pub mod name_code;
pub mod record_code;

// Handshakes.
pub mod discovery;
pub mod establish;

// Reliable transfer.
pub mod wwr;
pub mod xfer;

// Session decisions.
pub mod client;
pub mod server;
pub mod session;
