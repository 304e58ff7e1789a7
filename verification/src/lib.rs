//! A simple packet acknowledgement system for UDP-based protocols, for situations where you
//! need to know which of the packets you sent were received by the other side.
//!
//! 1. Acknowledgement when packets are received
//! 2. Packet fragmentation and reassembly
//! 3. Samples for round trip time, packet loss and bandwidth estimates
//! 4. Duplicate packets are detected and dropped
//!
//! It is designed to operate with your own network socket library. Create one [`Endpoint`]
//! per connection: a client has one, a server has one per client slot. Transmit the datagrams
//! that [`Endpoint::send_packet`] returns, hand those that come in to
//! [`Endpoint::receive_packet`], and once per-frame tell the endpoint the time with
//! [`Endpoint::update`] and process the [`Endpoint::acks`].
//!
//! The contracts speak of the mathematical models in [`model`], and [`laws`] states what
//! follows from them for the system as a whole.

use vstd::prelude::*;

pub mod config;
pub mod endpoint;
pub mod laws;
pub mod model;
pub mod packet;
pub mod reassembly;
pub mod sequence;
pub mod sequence_buffer;

pub use config::{Config, Counters};
pub use endpoint::Endpoint;
pub use sequence::{sequence_greater_than, sequence_less_than};

verus! {

/// The version of the library.
pub const VERSION: &'static str = "1.4.5";

/// The maximum size of a packet header in bytes.
pub const MAX_PACKET_HEADER_BYTES: usize = 9;

/// The size of a fragment header in bytes.
pub const FRAGMENT_HEADER_BYTES: usize = 5;

} // verus!
