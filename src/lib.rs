//! A reliable, ordered datagram transport over UDP.
//!
//! - `packet`: the wire format, a big-endian header behind a CRC-32.
//! - `seqnum`: sequence-number order by signed 32-bit difference.
//! - `stream`: the per-peer engine: handshake, send and receive queues,
//!   acknowledgements, retransmission, keepalive.
//! - `model`: what each stream step does, over sequences, and its laws.
//! - `endpoint`: one stream per remote address, and the client side.
//! - `clock`: wall-clock milliseconds.

pub mod clock;
pub mod endpoint;
pub mod model;
pub mod packet;
pub mod seqnum;
pub mod stream;
