//! Laws of what sending a packet does: to the endpoint, and on the network.

use vstd::prelude::*;

use crate::config::{lemma_fragments_needed, Counters};
use crate::laws::window::{law_moving_forward, law_what_is_there_after_insert};
use crate::model::EndpointView;
use crate::packet::{
    law_packet_header_round_trip, lemma_packet_header_layout, packet_header, parse_packet_header,
};

verus! {

impl<I> EndpointView<I> {
    /// Sending a packet takes the next sequence number, and leaves under it an entry that is not
    /// acked, with the time and with the bytes of the packet and of the headers below this layer.
    /// Of the other sent packets exactly those stay tracked, as they were, that are still among as
    /// many most recent ones as the buffer has entries and have another slot.
    pub proof fn law_sending_tracks_the_packet(self, data: Seq<u8>, s: u16)
        requires
            self.wf(),
            data.len() <= self.config.max_packet_size,
        ensures
            ({
                let after = self.after_send(data);
                let n = self.config.sent_packets_buffer_size as int;
                let old_sent = self.sent_packets.entries;
                let sent = after.sent_packets.entries;
                &&& after.sequence == (self.sequence + 1) % 0x1_0000
                &&& after.sent_packets.sequence == after.sequence
                &&& after.sent_packets.num_entries == n
                &&& sent.dom().contains(self.sequence)
                &&& sent[self.sequence].time == self.time
                &&& !sent[self.sequence].acked
                &&& sent[self.sequence].packet_bytes as int == self.config.packet_header_size
                    + data.len()
                &&& s != self.sequence ==> (sent.dom().contains(s) <==> old_sent.dom().contains(s)
                    && (self.sequence - s) % 0x1_0000 < n && s as int % n != self.sequence as int
                    % n)
                &&& s != self.sequence && sent.dom().contains(s) ==> sent[s] == old_sent[s]
            }),
    {
        law_moving_forward(self.sent_packets, self.sequence);
        law_what_is_there_after_insert(
            self.sent_packets,
            self.sequence,
            self.after_send(data).sent_packets.entries[self.sequence],
            s,
        );
    }

    /// Sending a packet changes nothing but what is tracked of sent packets, the next sequence
    /// number, and what is counted: the packet, and its datagrams if they are fragments. A packet
    /// that is too large is only counted as such.
    pub proof fn law_sending_leaves_the_rest(self, data: Seq<u8>)
        requires
            self.wf(),
            self.counters.room(),
            data.len() > 0,
        ensures
            ({
                let after = self.after_send(data);
                let c = self.counters;
                let too_large = data.len() > self.config.max_packet_size;
                &&& after.config == self.config
                &&& after.time == self.time
                &&& after.acks == self.acks
                &&& after.ack_samples == self.ack_samples
                &&& after.rtt_history == self.rtt_history
                &&& after.received_packets == self.received_packets
                &&& after.fragment_reassembly == self.fragment_reassembly
                &&& too_large ==> after.sequence == self.sequence && after.sent_packets
                    == self.sent_packets && self.datagrams(data).len() == 0
                &&& after.counters.num_packets_sent == c.num_packets_sent + (if too_large {
                    0int
                } else {
                    1
                })
                &&& after.counters.num_packets_too_large_to_send == c.num_packets_too_large_to_send
                    + (if too_large {
                    1int
                } else {
                    0
                })
                &&& after.counters.num_fragments_sent == c.num_fragments_sent + (if too_large
                    || data.len() <= self.config.fragment_above {
                    0int
                } else {
                    self.datagrams(data).len() as int
                })
                &&& after.counters == (Counters {
                    num_packets_sent: after.counters.num_packets_sent,
                    num_packets_too_large_to_send: after.counters.num_packets_too_large_to_send,
                    num_fragments_sent: after.counters.num_fragments_sent,
                    ..c
                })
            }),
    {
        let size = self.config.fragment_size as int;
        lemma_fragments_needed(data.len() as int, size, self.config.max_fragments as int);
        lemma_fragments_needed(data.len() as int, size, 0);
    }

    /// A packet that is not larger than the limit for fragmentation is sent as one datagram: its
    /// header, and its bytes after that. The header has the sequence number of the packet, the most
    /// recent sequence number received, and the ack bits.
    pub proof fn law_small_packet_is_one_datagram(self, data: Seq<u8>)
        requires
            self.config.valid(),
            data.len() <= self.config.fragment_above,
        ensures
            ({
                let datagram = self.datagrams(data)[0];
                let ack = ((self.received_packets.sequence - 1) % 0x1_0000) as u16;
                let header = packet_header(
                    self.sequence,
                    ack,
                    self.received_packets.ack_bits(),
                );
                &&& self.datagrams(data).len() == 1
                &&& datagram.len() == header.len() + data.len()
                &&& datagram.take(header.len() as int) == header
                &&& datagram.skip(header.len() as int) == data
                &&& parse_packet_header(datagram) matches Some(h) && h.bytes == header.len()
                    && h.sequence == self.sequence && h.ack == ack && h.ack_bits
                    == self.received_packets.ack_bits()
            }),
    {
        let ack = ((self.received_packets.sequence - 1) % 0x1_0000) as u16;
        let header = packet_header(self.sequence, ack, self.received_packets.ack_bits());
        assert(ack == self.received_packets.newest());
        law_packet_header_round_trip(self.sequence, ack, self.received_packets.ack_bits(), data);
        assert(self.datagrams(data)[0] == header + data);
        assert((header + data).take(header.len() as int) =~= header);
        assert((header + data).skip(header.len() as int) =~= data);
        lemma_packet_header_layout(self.sequence, ack, self.received_packets.ack_bits());
    }

    /// A larger packet is sent as fragments, as many as are needed to hold its bytes. Each starts
    /// with a byte that is one, the sequence number of the packet with the low byte first, the
    /// number of the fragment, and how many there are less one. The first one then has the packet
    /// header, and each the bytes of the packet that are its part: a whole fragment, or what is
    /// left for the last one.
    pub proof fn law_large_packet_is_split(self, data: Seq<u8>, i: int)
        requires
            self.config.valid(),
            self.config.fragment_above < data.len() <= self.config.max_packet_size,
            0 <= i < self.datagrams(data).len(),
        ensures
            ({
                let count = self.datagrams(data).len() as int;
                let datagram = self.datagrams(data)[i];
                let size = self.config.fragment_size as int;
                let ack = ((self.received_packets.sequence - 1) % 0x1_0000) as u16;
                let header = packet_header(
                    self.sequence,
                    ack,
                    self.received_packets.ack_bits(),
                );
                let start = 5 + (if i == 0 {
                    header.len() as int
                } else {
                    0
                });
                let end = if i == count - 1 {
                    data.len() as int
                } else {
                    i * size + size
                };
                &&& (count - 1) * size < data.len() <= count * size
                &&& count <= self.config.max_fragments
                &&& datagram[0] == 1
                &&& datagram[1] + 0x100 * datagram[2] == self.sequence
                &&& datagram[3] == i
                &&& datagram[4] == count - 1
                &&& i == 0 ==> datagram.subrange(5, start) == header
                &&& 0 <= i * size <= end <= data.len()
                &&& datagram.skip(start) == data.subrange(i * size, end)
            }),
    {
        let count = self.datagrams(data).len() as int;
        let len = data.len() as int;
        let size = self.config.fragment_size as int;
        let ack = ((self.received_packets.sequence - 1) % 0x1_0000) as u16;
        let header = packet_header(self.sequence, ack, self.received_packets.ack_bits());
        assert(ack == self.received_packets.newest());
        lemma_fragments_needed(len, size, 0);
        lemma_fragments_needed(len, size, self.config.max_fragments as int);
        lemma_fragments_needed(len, size, count);
        lemma_fragments_needed(len, size, count - 1);
        lemma_fragments_needed(len, size, i);
        lemma_fragments_needed(len, size, i + 1);
        assert((i + 1) * size == i * size + size) by (nonlinear_arith);
        assert(0 <= i * size) by (nonlinear_arith)
            requires
                0 <= i,
                0 < size,
        ;
        let datagram = self.datagrams(data)[i];
        let start = 5 + (if i == 0 {
            header.len() as int
        } else {
            0
        });
        let end = if i == count - 1 {
            len
        } else {
            i * size + size
        };
        assert(datagram.skip(start) =~= data.subrange(i * size, end));
        if i == 0 {
            assert(datagram.subrange(5, start) =~= header);
        }
    }
}

} // verus!
