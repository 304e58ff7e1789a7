//! The configuration of an endpoint, and what it counts.

use vstd::prelude::*;

use crate::{FRAGMENT_HEADER_BYTES, MAX_PACKET_HEADER_BYTES};

verus! {

/// Configuration for an [`Endpoint`](crate::Endpoint).
///
/// [`Config::default`] returns sensible defaults for a client/server game exchanging
/// packets at 60HZ.
#[derive(Debug, Clone)]
pub struct Config {
    /// Name of the endpoint. Used in log output.
    pub name: String,
    /// Maximum packet size that can be sent or received (bytes).
    pub max_packet_size: usize,
    /// Packets larger than this many bytes are sent as fragments.
    pub fragment_above: usize,
    /// Maximum number of fragments per-packet. 256 max. Must cover max_packet_size / fragment_size.
    pub max_fragments: usize,
    /// Size of each fragment (bytes).
    pub fragment_size: usize,
    /// Maximum number of acks buffered between calls to
    /// [`clear_acks`](crate::Endpoint::clear_acks).
    pub ack_buffer_size: usize,
    /// Number of sent packets tracked for acks, packet loss and bandwidth stats.
    pub sent_packets_buffer_size: usize,
    /// Number of received packets tracked. Also the window for stale and duplicate packet rejection.
    /// Best a power of two: at a size that does not divide 65536, a packet of the window counts as
    /// stale around the wrap-around once a more recent one has taken its place, also if it had not
    /// been received, and at size one, a packet half way around the sequence numbers does.
    pub received_packets_buffer_size: usize,
    /// Number of packets that can be under reassembly from fragments at the same time.
    pub fragment_reassembly_buffer_size: usize,
    /// Number of rtt samples kept for min/max/avg rtt and jitter.
    pub rtt_history_size: usize,
    /// Assumed network header overhead per-packet, used only for bandwidth stats. 28 = IPv4 + UDP.
    pub packet_header_size: usize,
}

impl Config {
    /// An endpoint can be made with this configuration: no size is zero, every packet that
    /// may be sent fits in the fragments, and all lengths fit in the integers that hold them.
    pub open spec fn valid(&self) -> bool {
        &&& self.max_packet_size > 0
        &&& 0 < self.fragment_above <= self.max_packet_size
        &&& 0 < self.max_fragments <= 256
        &&& self.fragment_size > 0
        &&& self.max_packet_size <= self.max_fragments * self.fragment_size
        &&& self.ack_buffer_size > 0
        &&& self.sent_packets_buffer_size > 0
        &&& self.received_packets_buffer_size > 0
        &&& self.fragment_reassembly_buffer_size > 0
        &&& self.rtt_history_size > 0
        &&& self.packet_header_size + self.receive_limit() <= u32::MAX
        &&& FRAGMENT_HEADER_BYTES + MAX_PACKET_HEADER_BYTES + self.fragment_size <= usize::MAX
        &&& MAX_PACKET_HEADER_BYTES + self.max_fragments * self.fragment_size <= usize::MAX
    }

    /// The largest datagram that is looked at on receive.
    pub open spec fn receive_limit(&self) -> int {
        self.max_packet_size + MAX_PACKET_HEADER_BYTES + FRAGMENT_HEADER_BYTES
    }

    /// Whether an endpoint can be made with this configuration.
    pub fn is_valid(&self) -> (valid: bool)
        ensures
            valid == self.valid(),
    {
        if self.max_packet_size == 0 || self.fragment_above == 0 || self.max_fragments == 0
            || self.max_fragments > 256 || self.fragment_size == 0 || self.ack_buffer_size == 0
            || self.sent_packets_buffer_size == 0 || self.received_packets_buffer_size == 0
            || self.fragment_reassembly_buffer_size == 0 || self.rtt_history_size == 0 {
            return false;
        }
        if self.fragment_above > self.max_packet_size {
            return false;
        }
        let fragments_needed: usize = (self.max_packet_size - 1) / self.fragment_size + 1;
        proof {
            lemma_fragments_needed(
                self.max_packet_size as int,
                self.fragment_size as int,
                self.max_fragments as int,
            );
        }
        if fragments_needed > self.max_fragments {
            return false;
        }
        let headers: usize = MAX_PACKET_HEADER_BYTES + FRAGMENT_HEADER_BYTES;
        if self.max_packet_size > 0xFFFF_FFFF - headers || self.packet_header_size > 0xFFFF_FFFF
            - headers - self.max_packet_size {
            return false;
        }
        if self.fragment_size > usize::MAX - headers {
            return false;
        }
        let room: usize = usize::MAX - MAX_PACKET_HEADER_BYTES;
        proof {
            lemma_fragments_fit(
                room as int,
                self.fragment_size as int,
                self.max_fragments as int,
            );
        }
        self.max_fragments <= room / self.fragment_size
    }
}

/// Rounding up the number of fragments: as many as are needed to hold all the bytes.
pub proof fn lemma_fragments_needed(bytes: int, fragment_size: int, fragments: int)
    requires
        bytes > 0,
        fragment_size > 0,
    ensures
        (bytes - 1) / fragment_size + 1 <= fragments <==> bytes <= fragments * fragment_size,
{
    let q = (bytes - 1) / fragment_size;
    assert(q * fragment_size <= bytes - 1 < q * fragment_size + fragment_size) by (nonlinear_arith)
        requires
            q == (bytes - 1) / fragment_size,
            fragment_size > 0,
            bytes > 0,
    ;
    if q + 1 <= fragments {
        assert(q * fragment_size + fragment_size <= fragments * fragment_size) by (nonlinear_arith)
            requires
                q + 1 <= fragments,
                fragment_size > 0,
        ;
    } else {
        assert(fragments * fragment_size <= q * fragment_size) by (nonlinear_arith)
            requires
                fragments <= q,
                fragment_size > 0,
        ;
    }
}

proof fn lemma_fragments_fit(room: int, fragment_size: int, fragments: int)
    requires
        room >= 0,
        fragment_size > 0,
    ensures
        fragments <= room / fragment_size <==> fragments * fragment_size <= room,
{
    let q = room / fragment_size;
    assert(q * fragment_size <= room < q * fragment_size + fragment_size) by (nonlinear_arith)
        requires
            q == room / fragment_size,
            fragment_size > 0,
            room >= 0,
    ;
    if fragments <= q {
        assert(fragments * fragment_size <= q * fragment_size) by (nonlinear_arith)
            requires
                fragments <= q,
                fragment_size > 0,
        ;
    } else {
        assert(q * fragment_size + fragment_size <= fragments * fragment_size) by (nonlinear_arith)
            requires
                q + 1 <= fragments,
                fragment_size > 0,
        ;
    }
}

impl Default for Config {
    fn default() -> (config: Self)
        ensures
            config.valid(),
            config.name@ == "endpoint"@,
            config.max_packet_size == 16 * 1024,
            config.fragment_above == 1024,
            config.max_fragments == 16,
            config.fragment_size == 1024,
            config.ack_buffer_size == 256,
            config.sent_packets_buffer_size == 256,
            config.received_packets_buffer_size == 256,
            config.fragment_reassembly_buffer_size == 64,
            config.rtt_history_size == 512,
            config.packet_header_size == 28,
    {
        Config {
            name: "endpoint".to_string(),
            max_packet_size: 16 * 1024,
            fragment_above: 1024,
            max_fragments: 16,
            fragment_size: 1024,
            ack_buffer_size: 256,
            sent_packets_buffer_size: 256,
            received_packets_buffer_size: 256,
            fragment_reassembly_buffer_size: 64,
            rtt_history_size: 512,
            packet_header_size: 28,  // UDP over IPv4 = 20 + 8 bytes, UDP over IPv6 = 40 + 8 bytes
        }
    }
}

/// Counters tracked by an [`Endpoint`](crate::Endpoint).
#[derive(Debug, Clone, PartialEq, Eq, Structural)]
#[non_exhaustive]
pub struct Counters {
    pub num_packets_sent: u64,
    pub num_packets_received: u64,
    pub num_packets_acked: u64,
    pub num_packets_stale: u64,
    pub num_packets_invalid: u64,
    pub num_packets_too_large_to_send: u64,
    pub num_packets_too_large_to_receive: u64,
    pub num_fragments_sent: u64,
    pub num_fragments_received: u64,
    pub num_fragments_invalid: u64,
    pub num_packets_duplicate: u64,
}

impl Counters {
    pub open spec fn zero() -> Self {
        Counters {
            num_packets_sent: 0,
            num_packets_received: 0,
            num_packets_acked: 0,
            num_packets_stale: 0,
            num_packets_invalid: 0,
            num_packets_too_large_to_send: 0,
            num_packets_too_large_to_receive: 0,
            num_fragments_sent: 0,
            num_fragments_received: 0,
            num_fragments_invalid: 0,
            num_packets_duplicate: 0,
        }
    }

    /// No counter can overflow on the next packet sent or received: a packet has up to 256
    /// fragments and carries up to 32 acks, and counts once everywhere else.
    pub open spec fn room(&self) -> bool {
        &&& self.num_packets_sent < u64::MAX
        &&& self.num_packets_received < u64::MAX
        &&& self.num_packets_acked <= u64::MAX - 32
        &&& self.num_packets_stale < u64::MAX
        &&& self.num_packets_invalid < u64::MAX
        &&& self.num_packets_too_large_to_send < u64::MAX
        &&& self.num_packets_too_large_to_receive < u64::MAX
        &&& self.num_fragments_sent <= u64::MAX - 256
        &&& self.num_fragments_received < u64::MAX
        &&& self.num_fragments_invalid < u64::MAX
        &&& self.num_packets_duplicate < u64::MAX
    }

    /// Whether no counter can overflow on the next packet sent or received.
    pub fn has_room(&self) -> (room: bool)
        ensures
            room == self.room(),
    {
        self.num_packets_sent < u64::MAX && self.num_packets_received < u64::MAX
            && self.num_packets_acked <= u64::MAX - 32 && self.num_packets_stale < u64::MAX
            && self.num_packets_invalid < u64::MAX && self.num_packets_too_large_to_send < u64::MAX
            && self.num_packets_too_large_to_receive < u64::MAX && self.num_fragments_sent
            <= u64::MAX - 256 && self.num_fragments_received < u64::MAX
            && self.num_fragments_invalid < u64::MAX && self.num_packets_duplicate < u64::MAX
    }
}

impl Default for Counters {
    fn default() -> (counters: Self)
        ensures
            counters == Counters::zero(),
    {
        Counters {
            num_packets_sent: 0,
            num_packets_received: 0,
            num_packets_acked: 0,
            num_packets_stale: 0,
            num_packets_invalid: 0,
            num_packets_too_large_to_send: 0,
            num_packets_too_large_to_receive: 0,
            num_fragments_sent: 0,
            num_fragments_received: 0,
            num_fragments_invalid: 0,
            num_packets_duplicate: 0,
        }
    }
}

} // verus!
