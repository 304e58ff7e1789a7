//! Laws of the configuration, of the counters, and of the state that an endpoint starts in.

use vstd::prelude::*;

use crate::config::{Config, Counters};
use crate::model::EndpointView;

verus! {

/// A configuration is refused exactly if one of its sizes is zero, packets would be fragmented
/// only above the largest size, there could be more than 256 fragments, the largest packet would
/// not fit in the fragments, or a length would not fit in the integer that holds it.
pub proof fn law_what_a_valid_configuration_is(config: Config)
    ensures
        ({
            let needs = config.max_fragments * config.fragment_size;
            let some_size_is_zero = config.max_packet_size == 0 || config.fragment_above == 0
                || config.max_fragments == 0 || config.fragment_size == 0 || config.ack_buffer_size
                == 0 || config.sent_packets_buffer_size == 0 || config.received_packets_buffer_size
                == 0 || config.fragment_reassembly_buffer_size == 0 || config.rtt_history_size == 0;
            let too_long = config.packet_header_size + config.max_packet_size + 14 > u32::MAX
                || config.fragment_size + 14 > usize::MAX || needs + 9 > usize::MAX;
            !config.valid() <==> some_size_is_zero || config.fragment_above
                > config.max_packet_size || config.max_fragments > 256 || needs
                < config.max_packet_size || too_long
        }),
{
    assert(config.max_fragments == 0 || config.fragment_size == 0 || config.max_fragments
        * config.fragment_size > 0) by (nonlinear_arith);
}

/// The largest datagram that is looked at has room for the largest packet and for both headers.
pub proof fn law_receive_limit_has_room(config: Config)
    ensures
        config.receive_limit() == config.max_packet_size + 14,
{
}

/// There is room in the counters for one more packet exactly if each counter can take what one
/// packet can add to it: 256 fragments sent, 32 acks, and one of all else.
pub proof fn law_room_in_the_counters(c: Counters)
    ensures
        c.room() <==> c.num_fragments_sent + 256 <= u64::MAX && c.num_packets_acked + 32 <= u64::MAX
            && c.num_packets_sent + 1 <= u64::MAX && c.num_packets_received + 1 <= u64::MAX
            && c.num_packets_stale + 1 <= u64::MAX && c.num_packets_invalid + 1 <= u64::MAX
            && c.num_packets_too_large_to_send + 1 <= u64::MAX
            && c.num_packets_too_large_to_receive + 1 <= u64::MAX && c.num_fragments_received + 1
            <= u64::MAX && c.num_fragments_invalid + 1 <= u64::MAX && c.num_packets_duplicate + 1
            <= u64::MAX,
{
}

/// An endpoint starts with its configuration and the time, the sequence number zero, and nothing
/// sent, received, under reassembly, acked or counted.
pub proof fn law_a_new_endpoint_knows_nothing<I>(config: Config, time: I, s: u16, i: int)
    ensures
        ({
            let new = EndpointView::initial(config, time);
            let c = new.counters;
            &&& new.config == config
            &&& new.time == time
            &&& new.sequence == 0
            &&& new.acks.len() == 0
            &&& new.ack_samples.len() == 0
            &&& new.rtt_history.len() == config.rtt_history_size
            &&& 0 <= i < new.rtt_history.len() ==> new.rtt_history[i] is None
            &&& new.sent_packets.sequence == 0
            &&& new.sent_packets.num_entries == config.sent_packets_buffer_size
            &&& !new.sent_packets.entries.dom().contains(s)
            &&& new.received_packets.sequence == 0
            &&& new.received_packets.num_entries == config.received_packets_buffer_size
            &&& !new.received_packets.entries.dom().contains(s)
            &&& new.fragment_reassembly.sequence == 0
            &&& new.fragment_reassembly.num_entries == config.fragment_reassembly_buffer_size
            &&& !new.fragment_reassembly.entries.dom().contains(s)
            &&& c.num_packets_sent == 0
            &&& c.num_packets_received == 0
            &&& c.num_packets_acked == 0
            &&& c.num_packets_stale == 0
            &&& c.num_packets_invalid == 0
            &&& c.num_packets_too_large_to_send == 0
            &&& c.num_packets_too_large_to_receive == 0
            &&& c.num_fragments_sent == 0
            &&& c.num_fragments_received == 0
            &&& c.num_fragments_invalid == 0
            &&& c.num_packets_duplicate == 0
        }),
{
}

/// A packet can be sent if the buffer for sent packets, less whole turns of the number circle,
/// reaches back by less than half a turn, or by exactly half a turn from a number in the upper
/// half.
pub proof fn law_when_a_packet_can_be_sent<I>(endpoint: EndpointView<I>)
    requires
        endpoint.wf(),
    ensures
        ({
            let back = endpoint.config.sent_packets_buffer_size as int % 0x1_0000;
            endpoint.can_send() <==> back < 0x8000 || (back == 0x8000 && endpoint.sequence
                >= 0x8000)
        }),
{
}

} // verus!
