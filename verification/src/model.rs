//! What an endpoint is and does, as mathematics: its state, and the state and the packets
//! that come of sending and of receiving.

use vstd::prelude::*;

use crate::config::{Config, Counters};
use crate::packet::{
    fragment_header, has_flag, packet_header, parse_fragment_header, parse_packet_header,
    FragmentHeader, FLAG_FRAGMENT,
};
use crate::reassembly::{fragment_body, ReassemblyView};
use crate::sequence::seq_add;
use crate::sequence_buffer::{ack_bit, is_default, SequenceBufferView};
use crate::FRAGMENT_HEADER_BYTES;

verus! {

/// What is kept of a packet that was sent. `I` is the type of the instants that the caller
/// measures time in.
#[derive(Debug)]
pub struct SentPacketData<I> {
    pub time: I,
    pub acked: bool,
    pub packet_bytes: u32,
}

impl<I: Default> Default for SentPacketData<I> {
    fn default() -> (data: Self)
        ensures
            is_default(data.time),
            !data.acked,
            data.packet_bytes == 0,
    {
        SentPacketData { time: I::default(), acked: false, packet_bytes: 0 }
    }
}

/// What is kept of a packet that was received.
#[derive(Debug)]
pub struct ReceivedPacketData<I> {
    pub time: I,
    pub packet_bytes: u32,
}

impl<I: Default> Default for ReceivedPacketData<I> {
    fn default() -> (data: Self)
        ensures
            is_default(data.time),
            data.packet_bytes == 0,
    {
        ReceivedPacketData { time: I::default(), packet_bytes: 0 }
    }
}

/// The two instants that the round trip time of a packet is the difference of.
#[derive(Debug, Clone, Copy)]
pub struct RttSample<I> {
    /// When the packet was sent.
    pub sent: I,
    /// When its ack came back.
    pub acked: I,
}

/// When a packet was sent or received, and how many bytes it took on the network.
#[derive(Debug, Clone, Copy)]
pub struct BandwidthSample<I> {
    pub time: I,
    pub packet_bytes: u32,
}

/// The bytes of the first `n` samples together.
pub open spec fn bytes_of_samples<I>(samples: Seq<BandwidthSample<I>>, n: nat) -> nat
    decreases n,
{
    if n == 0 {
        0
    } else {
        bytes_of_samples(samples, (n - 1) as nat) + samples[n - 1].packet_bytes as nat
    }
}

/// The bytes that the packets of all samples took on the network.
pub fn total_bytes<I>(samples: &[BandwidthSample<I>]) -> (bytes: u64)
    requires
        samples@.len() <= 0x1_0000_0000,
    ensures
        bytes == bytes_of_samples(samples@, samples@.len()),
{
    let mut bytes: u64 = 0;
    let mut i: usize = 0;
    while i < samples.len()
        invariant
            i <= samples@.len() <= 0x1_0000_0000,
            bytes == bytes_of_samples(samples@, i as nat),
            bytes <= i * 0xFFFF_FFFF,
        decreases samples@.len() - i,
    {
        bytes += samples[i].packet_bytes as u64;
        i += 1;
    }
    bytes
}

/// A packet that is ready to be handed to the receiver, and what its header said.
#[verifier::ext_equal]
pub struct DeliveryView {
    pub sequence: u16,
    pub ack: u16,
    pub ack_bits: u32,
    pub packet_bytes: nat,
    pub payload: Seq<u8>,
}

/// The state of an endpoint.
#[verifier::ext_equal]
pub struct EndpointView<I> {
    pub config: Config,
    pub time: I,
    /// The sequence number of the next packet sent.
    pub sequence: u16,
    /// The sequence numbers of the sent packets that were acked and not yet cleared.
    pub acks: Seq<u16>,
    /// For each of the acks, the instants of the round trip.
    pub ack_samples: Seq<RttSample<I>>,
    pub rtt_history: Seq<Option<RttSample<I>>>,
    pub sent_packets: SequenceBufferView<SentPacketData<I>>,
    pub received_packets: SequenceBufferView<ReceivedPacketData<I>>,
    pub fragment_reassembly: SequenceBufferView<ReassemblyView>,
    pub counters: Counters,
}

/// The number of fragments that a packet is split into.
pub open spec fn num_fragments(packet_bytes: nat, fragment_size: nat) -> int {
    (packet_bytes - 1) / fragment_size as int + 1
}

/// The bytes of a packet that fragment `fragment_id` carries.
pub open spec fn fragment_of(data: Seq<u8>, fragment_id: int, fragment_size: nat) -> Seq<u8> {
    let start = fragment_id * fragment_size;
    if start + fragment_size < data.len() {
        data.subrange(start, start + fragment_size)
    } else {
        data.skip(start)
    }
}

/// The datagram that carries fragment `fragment_id` of a packet. The packet header goes with
/// the first fragment.
pub open spec fn fragment_datagram(
    sequence: u16,
    header: Seq<u8>,
    data: Seq<u8>,
    fragment_id: int,
    fragment_size: nat,
) -> Seq<u8> {
    fragment_header(sequence, fragment_id, num_fragments(data.len(), fragment_size)) + (
    if fragment_id == 0 {
        header
    } else {
        Seq::empty()
    }) + fragment_of(data, fragment_id, fragment_size)
}

/// The datagrams that a packet is sent as.
pub open spec fn datagrams_of(
    config: Config,
    sequence: u16,
    header: Seq<u8>,
    data: Seq<u8>,
) -> Seq<Seq<u8>> {
    let fragment_size = config.fragment_size as nat;
    if data.len() <= config.fragment_above {
        seq![header + data]
    } else {
        Seq::new(
            num_fragments(data.len(), fragment_size) as nat,
            |i: int| fragment_datagram(sequence, header, data, i, fragment_size),
        )
    }
}

impl<I> EndpointView<I> {
    pub open spec fn wf(self) -> bool {
        &&& self.config.valid()
        &&& self.sent_packets.wf()
        &&& self.received_packets.wf()
        &&& self.fragment_reassembly.wf()
        &&& self.sent_packets.num_entries == self.config.sent_packets_buffer_size
        &&& self.received_packets.num_entries == self.config.received_packets_buffer_size
        &&& self.fragment_reassembly.num_entries == self.config.fragment_reassembly_buffer_size
        &&& self.sent_packets.sequence == self.sequence
        &&& self.rtt_history.len() == self.config.rtt_history_size
        &&& self.acks.len() == self.ack_samples.len()
        &&& self.acks.len() <= self.config.ack_buffer_size
    }

    /// The state of a new endpoint.
    pub open spec fn initial(config: Config, time: I) -> Self {
        EndpointView {
            config,
            time,
            sequence: 0,
            acks: Seq::empty(),
            ack_samples: Seq::empty(),
            rtt_history: Seq::new(config.rtt_history_size as nat, |i: int| None),
            sent_packets: SequenceBufferView::empty(config.sent_packets_buffer_size as nat),
            received_packets: SequenceBufferView::empty(
                config.received_packets_buffer_size as nat,
            ),
            fragment_reassembly: SequenceBufferView::empty(
                config.fragment_reassembly_buffer_size as nat,
            ),
            counters: Counters::zero(),
        }
    }

    /// The next packet sent has a place among the sent packets. It has none in a buffer so
    /// large that its window reaches half way around the number circle.
    pub open spec fn can_send(self) -> bool {
        self.sent_packets.can_insert(self.sequence)
    }

    /// The packet header that the next packet sent has.
    pub open spec fn next_header(self) -> Seq<u8> {
        packet_header(
            self.sequence,
            self.received_packets.newest(),
            self.received_packets.ack_bits(),
        )
    }

    /// The datagrams that sending a packet gives: none if it is too large.
    pub open spec fn datagrams(self, data: Seq<u8>) -> Seq<Seq<u8>> {
        if data.len() > self.config.max_packet_size {
            Seq::empty()
        } else {
            datagrams_of(self.config, self.sequence, self.next_header(), data)
        }
    }

    /// The length of a packet on the network, with the headers below this layer.
    pub open spec fn network_bytes(self, packet_bytes: nat) -> u32 {
        (self.config.packet_header_size + packet_bytes) as u32
    }

    /// The state after sending a packet.
    pub open spec fn after_send(self, data: Seq<u8>) -> Self {
        let c = self.counters;
        if data.len() > self.config.max_packet_size {
            EndpointView {
                counters: Counters {
                    num_packets_too_large_to_send: (c.num_packets_too_large_to_send + 1) as u64,
                    ..c
                },
                ..self
            }
        } else {
            let fragments = if data.len() <= self.config.fragment_above {
                0
            } else {
                num_fragments(data.len(), self.config.fragment_size as nat)
            };
            EndpointView {
                sequence: seq_add(self.sequence, 1),
                sent_packets: self.sent_packets.inserted(
                    self.sequence,
                    SentPacketData {
                        time: self.time,
                        acked: false,
                        packet_bytes: self.network_bytes(data.len()),
                    },
                ),
                counters: Counters {
                    num_packets_sent: (c.num_packets_sent + 1) as u64,
                    num_fragments_sent: (c.num_fragments_sent + fragments) as u64,
                    ..c
                },
                ..self
            }
        }
    }

    pub open spec fn too_large_to_receive(self) -> Self {
        let c = self.counters;
        EndpointView {
            counters: Counters {
                num_packets_too_large_to_receive: (c.num_packets_too_large_to_receive + 1) as u64,
                ..c
            },
            ..self
        }
    }

    pub open spec fn packet_invalid(self) -> Self {
        let c = self.counters;
        EndpointView {
            counters: Counters { num_packets_invalid: (c.num_packets_invalid + 1) as u64, ..c },
            ..self
        }
    }

    pub open spec fn packet_stale(self) -> Self {
        let c = self.counters;
        EndpointView {
            counters: Counters { num_packets_stale: (c.num_packets_stale + 1) as u64, ..c },
            ..self
        }
    }

    pub open spec fn packet_duplicate(self) -> Self {
        let c = self.counters;
        EndpointView {
            counters: Counters { num_packets_duplicate: (c.num_packets_duplicate + 1) as u64, ..c },
            ..self
        }
    }

    pub open spec fn packet_received(self) -> Self {
        let c = self.counters;
        EndpointView {
            counters: Counters { num_packets_received: (c.num_packets_received + 1) as u64, ..c },
            ..self
        }
    }

    pub open spec fn fragment_invalid(self) -> Self {
        let c = self.counters;
        EndpointView {
            counters: Counters { num_fragments_invalid: (c.num_fragments_invalid + 1) as u64, ..c },
            ..self
        }
    }

    pub open spec fn fragment_received(self) -> Self {
        let c = self.counters;
        EndpointView {
            counters: Counters {
                num_fragments_received: (c.num_fragments_received + 1) as u64,
                ..c
            },
            ..self
        }
    }

    /// What a whole packet, not a fragment of one, leads to: the state after it, and the
    /// delivery that it makes. A packet is delivered if its header can be read, its payload
    /// is not too large, and it is neither stale nor a duplicate.
    pub open spec fn open_whole(self, data: Seq<u8>) -> (Self, Option<DeliveryView>) {
        let counted = self.packet_received();
        if data.len() > self.config.receive_limit() {
            (self.too_large_to_receive(), None)
        } else {
            match parse_packet_header(data) {
                None => (counted.packet_invalid(), None),
                Some(header) => if data.len() - header.bytes > self.config.max_packet_size {
                    (counted.too_large_to_receive(), None)
                } else if self.received_packets.is_stale(header.sequence) {
                    (counted.packet_stale(), None)
                } else if self.received_packets.contains(header.sequence) {
                    (counted.packet_duplicate(), None)
                } else {
                    (
                        counted,
                        Some(
                            DeliveryView {
                                sequence: header.sequence,
                                ack: header.ack,
                                ack_bits: header.ack_bits,
                                packet_bytes: data.len(),
                                payload: data.skip(header.bytes as int),
                            },
                        ),
                    )
                },
            }
        }
    }

    /// A reassembly of the packet can be under way: it is, or there is a place for it.
    pub open spec fn can_reassemble(self, sequence: u16) -> bool {
        self.fragment_reassembly.contains(sequence) || self.fragment_reassembly.advances(sequence)
            || self.fragment_reassembly.can_insert(sequence)
    }

    /// The reassembly that a fragment belongs to is under way: a new one if there was none.
    pub open spec fn reassembling(self, fragment: FragmentHeader) -> Self {
        if self.fragment_reassembly.contains(fragment.sequence) {
            self
        } else {
            EndpointView {
                fragment_reassembly: self.fragment_reassembly.inserted(
                    fragment.sequence,
                    ReassemblyView::started(fragment.num_fragments as nat),
                ),
                received_packets: self.received_packets.advanced(fragment.sequence),
                ..self
            }
        }
    }

    /// What a fragment leads to. It is stored with those of the same packet that came before,
    /// and once all are there the packet that they make up is opened.
    pub open spec fn open_fragment(self, data: Seq<u8>) -> (Self, Option<DeliveryView>) {
        match parse_fragment_header(
            data,
            self.config.max_fragments as int,
            self.config.fragment_size as int,
        ) {
            None => (self.fragment_invalid(), None),
            Some(fragment) => if self.received_packets.contains(fragment.sequence) {
                (self, None)
            } else if !self.can_reassemble(fragment.sequence) {
                (self.fragment_invalid(), None)
            } else {
                let started = self.reassembling(fragment);
                let entry = started.fragment_reassembly.entries[fragment.sequence];
                if fragment.num_fragments != entry.total {
                    (started.fragment_invalid(), None)
                } else if entry.has_fragment(fragment.fragment_id as int) {
                    (started, None)
                } else {
                    started.store_fragment(fragment, data.skip(FRAGMENT_HEADER_BYTES as int))
                }
            },
        }
    }

    pub open spec fn store_fragment(self, fragment: FragmentHeader, data: Seq<u8>) -> (
        Self,
        Option<DeliveryView>,
    ) {
        let entry = self.fragment_reassembly.entries[fragment.sequence].stored(
            fragment.fragment_id as int,
            packet_header(fragment.sequence, fragment.ack, fragment.ack_bits),
            fragment_body(fragment, data),
        );
        let counted = self.fragment_received();
        if entry.is_complete() {
            EndpointView {
                fragment_reassembly: self.fragment_reassembly.removed(fragment.sequence),
                ..counted
            }.open_whole(entry.packet())
        } else {
            (
                EndpointView {
                    fragment_reassembly: self.fragment_reassembly.updated(fragment.sequence, entry),
                    ..counted
                },
                None,
            )
        }
    }

    /// What a datagram from the network leads to: the state after it, and the packet that is
    /// ready to be handed to the receiver, if there is one.
    pub open spec fn open(self, data: Seq<u8>) -> (Self, Option<DeliveryView>) {
        if data.len() <= self.config.receive_limit() && has_flag(data[0], FLAG_FRAGMENT) {
            self.open_fragment(data)
        } else {
            self.open_whole(data)
        }
    }

    /// A packet was sent, is still tracked, and has not been acked.
    pub open spec fn awaits_ack(self, sequence: u16) -> bool {
        self.sent_packets.contains(sequence) && !self.sent_packets.entries[sequence].acked
    }

    /// The ack of a sent packet is reported.
    pub open spec fn acked(self, sequence: u16) -> Self {
        let sent = self.sent_packets.entries[sequence];
        let sample = RttSample { sent: sent.time, acked: self.time };
        let c = self.counters;
        EndpointView {
            acks: self.acks.push(sequence),
            ack_samples: self.ack_samples.push(sample),
            rtt_history: self.rtt_history.update(
                sequence as int % self.config.rtt_history_size as int,
                Some(sample),
            ),
            sent_packets: self.sent_packets.updated(
                sequence,
                SentPacketData { acked: true, ..sent },
            ),
            counters: Counters { num_packets_acked: (c.num_packets_acked + 1) as u64, ..c },
            ..self
        }
    }

    /// The state after the lowest `n` ack bits have been looked at, one after the other. The
    /// ack of a packet that awaits it is reported as long as the ack buffer has room for it.
    pub open spec fn after_acks(self, ack: u16, ack_bits: u32, n: nat) -> Self
        decreases n,
    {
        if n == 0 {
            self
        } else {
            let i = n - 1;
            let before = self.after_acks(ack, ack_bits, i as nat);
            let sequence = seq_add(ack, -i);
            if ack_bit(ack_bits, i) && before.awaits_ack(sequence) && before.acks.len()
                < self.config.ack_buffer_size {
                before.acked(sequence)
            } else {
                before
            }
        }
    }

    /// The packets that the lowest `n` ack bits acknowledge and that still await their ack, by
    /// ascending bit: the most recent one first.
    pub open spec fn awaited(self, ack: u16, ack_bits: u32, n: nat) -> Seq<u16>
        decreases n,
    {
        if n == 0 {
            Seq::empty()
        } else {
            let i = n - 1;
            let before = self.awaited(ack, ack_bits, i as nat);
            if ack_bit(ack_bits, i) && self.awaits_ack(seq_add(ack, -i)) {
                before.push(seq_add(ack, -i))
            } else {
                before
            }
        }
    }

    /// The packet is added to those received.
    pub open spec fn inserting(self, delivery: DeliveryView) -> Self {
        EndpointView {
            received_packets: self.received_packets.inserted(
                delivery.sequence,
                ReceivedPacketData {
                    time: self.time,
                    packet_bytes: self.network_bytes(delivery.packet_bytes),
                },
            ),
            fragment_reassembly: self.fragment_reassembly.advanced(delivery.sequence),
            ..self
        }
    }

    /// The state after the receiver has accepted a packet: it is added to those received, and
    /// the acks that it carries are reported.
    pub open spec fn accept(self, delivery: DeliveryView) -> Self {
        self.inserting(delivery).after_acks(delivery.ack, delivery.ack_bits, 32)
    }

    /// The state after a datagram has been received, if `accepted` is what the receiver says
    /// of the packet that it is handed.
    pub open spec fn after_receive(self, data: Seq<u8>, accepted: bool) -> Self {
        let (opened, delivery) = self.open(data);
        match delivery {
            Some(delivery) if accepted => opened.accept(delivery),
            _ => opened,
        }
    }

    /// Looking at a datagram leaves alone all that has to do with sending, and what is
    /// delivered is neither stale nor a duplicate.
    #[verifier::rlimit(40)]
    pub proof fn law_open_keeps_sending_side(self, data: Seq<u8>)
        ensures
            ({
                let (opened, delivery) = self.open(data);
                &&& opened.config == self.config
                &&& opened.time == self.time
                &&& opened.sequence == self.sequence
                &&& opened.acks == self.acks
                &&& opened.ack_samples == self.ack_samples
                &&& opened.rtt_history == self.rtt_history
                &&& opened.sent_packets == self.sent_packets
                &&& opened.counters.num_packets_sent == self.counters.num_packets_sent
                &&& opened.counters.num_packets_acked == self.counters.num_packets_acked
                &&& opened.counters.num_packets_too_large_to_send
                    == self.counters.num_packets_too_large_to_send
                &&& opened.counters.num_fragments_sent == self.counters.num_fragments_sent
                &&& delivery matches Some(d) ==> {
                    &&& !opened.received_packets.is_stale(d.sequence)
                    &&& !opened.received_packets.contains(d.sequence)
                    &&& d.packet_bytes <= self.config.receive_limit()
                    &&& d.payload.len() <= self.config.max_packet_size
                }
            }),
    {
    }

    /// Reporting acks touches only the sending side.
    pub proof fn lemma_after_acks_frame(self, ack: u16, ack_bits: u32, n: nat)
        ensures
            self.after_acks(ack, ack_bits, n).received_packets == self.received_packets,
            self.after_acks(ack, ack_bits, n).fragment_reassembly == self.fragment_reassembly,
            self.after_acks(ack, ack_bits, n).config == self.config,
            self.after_acks(ack, ack_bits, n).sequence == self.sequence,
            self.after_acks(ack, ack_bits, n).time == self.time,
            self.after_acks(ack, ack_bits, n).counters == (Counters {
                num_packets_acked: self.after_acks(ack, ack_bits, n).counters.num_packets_acked,
                ..self.counters
            }),
        decreases n,
    {
        if n > 0 {
            self.lemma_after_acks_frame(ack, ack_bits, (n - 1) as nat);
        }
    }

    /// Of the `n` oldest sent packets that could still be tracked, how many are.
    pub open spec fn num_sent(self, n: nat) -> nat
        decreases n,
    {
        if n == 0 {
            0
        } else {
            let i = (n - 1) as nat;
            let sequence = seq_add(self.sent_packets.oldest(), i as int);
            self.num_sent(i) + (if self.sent_packets.contains(sequence) {
                1nat
            } else {
                0
            })
        }
    }

    /// Of the `n` oldest sent packets that could still be tracked, how many are and have not
    /// been acked.
    pub open spec fn num_dropped(self, n: nat) -> nat
        decreases n,
    {
        if n == 0 {
            0
        } else {
            let i = (n - 1) as nat;
            let sequence = seq_add(self.sent_packets.oldest(), i as int);
            self.num_dropped(i) + (if self.awaits_ack(sequence) {
                1nat
            } else {
                0
            })
        }
    }

    /// The samples of those of the `n` oldest sent packets that are still tracked: of all of
    /// them, or only of those that have been acked.
    pub open spec fn sent_samples(self, acked_only: bool, n: nat) -> Seq<BandwidthSample<I>>
        decreases n,
    {
        if n == 0 {
            Seq::empty()
        } else {
            let i = (n - 1) as nat;
            let before = self.sent_samples(acked_only, i);
            let sequence = seq_add(self.sent_packets.oldest(), i as int);
            let packet = self.sent_packets.entries[sequence];
            if self.sent_packets.contains(sequence) && (acked_only ==> packet.acked) {
                before.push(
                    BandwidthSample { time: packet.time, packet_bytes: packet.packet_bytes },
                )
            } else {
                before
            }
        }
    }

    /// The samples of those of the `n` oldest received packets that are still tracked.
    pub open spec fn received_samples(self, n: nat) -> Seq<BandwidthSample<I>>
        decreases n,
    {
        if n == 0 {
            Seq::empty()
        } else {
            let i = (n - 1) as nat;
            let before = self.received_samples(i);
            let sequence = seq_add(self.received_packets.oldest(), i as int);
            let packet = self.received_packets.entries[sequence];
            if self.received_packets.contains(sequence) {
                before.push(
                    BandwidthSample { time: packet.time, packet_bytes: packet.packet_bytes },
                )
            } else {
                before
            }
        }
    }
}

} // verus!
