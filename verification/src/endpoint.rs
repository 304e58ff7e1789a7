//! A reliable endpoint.

use vstd::prelude::*;
use vstd::slice::{slice_subrange, slice_to_vec};

use crate::config::{lemma_fragments_needed, Config, Counters};
use crate::model::{
    fragment_datagram, fragment_of, num_fragments, BandwidthSample, DeliveryView, EndpointView,
    ReceivedPacketData, RttSample, SentPacketData,
};
use crate::packet::{
    fragment_header, fragment_size_fits, lemma_packet_header_layout, packet_header,
    read_fragment_header, read_packet_header, write_packet_header, FragmentHeader, FLAG_FRAGMENT,
};
use crate::reassembly::{
    fragment_body, lemma_parsed_fragment, FragmentReassemblyData, ReassemblyView,
};
use crate::sequence_buffer::{SequenceBuffer, SequenceBufferView};
use crate::{FRAGMENT_HEADER_BYTES, MAX_PACKET_HEADER_BYTES};

verus! {

/// A reliable endpoint.
///
/// One endpoint per connection: a client has one, a server has one per client slot. `I` is
/// the type of the instants that the caller measures time in; the endpoint only keeps them.
pub struct Endpoint<I> {
    config: Config,
    time: I,
    acks: Vec<u16>,
    ack_samples: Vec<RttSample<I>>,
    sequence: u16,
    rtt_history: Vec<Option<RttSample<I>>>,
    sent_packets: SequenceBuffer<SentPacketData<I>>,
    received_packets: SequenceBuffer<ReceivedPacketData<I>>,
    fragment_reassembly: SequenceBuffer<FragmentReassemblyData>,
    counters: Counters,
}

/// A packet that is ready to be handed to the receiver, and what its header said.
pub struct Delivery {
    /// The sequence number of the packet.
    pub sequence: u16,
    /// The most recent packet that the other side has received.
    pub ack: u16,
    /// Which packets up to `ack` the other side has received.
    pub ack_bits: u32,
    /// The size of the packet with its header.
    pub packet_bytes: usize,
    /// The contents of the packet.
    pub payload: Vec<u8>,
}

impl View for Delivery {
    type V = DeliveryView;

    open spec fn view(&self) -> DeliveryView {
        DeliveryView {
            sequence: self.sequence,
            ack: self.ack,
            ack_bits: self.ack_bits,
            packet_bytes: self.packet_bytes as nat,
            payload: self.payload@,
        }
    }
}

pub open spec fn delivery_view(delivery: Option<Delivery>) -> Option<DeliveryView> {
    match delivery {
        Some(delivery) => Some(delivery@),
        None => None,
    }
}

/// The bytes of each datagram of a list.
pub open spec fn bytes_of(datagrams: Seq<Vec<u8>>) -> Seq<Seq<u8>> {
    Seq::new(datagrams.len(), |i: int| datagrams[i]@)
}

/// A packet under reassembly as its fragments, which are all of one size.
pub open spec fn pieces_of(fragment_size: int) -> spec_fn(
    FragmentReassemblyData,
) -> ReassemblyView {
    |data: FragmentReassemblyData| data.pieces(fragment_size)
}

impl<I> View for Endpoint<I> {
    type V = EndpointView<I>;

    closed spec fn view(&self) -> EndpointView<I> {
        EndpointView {
            config: self.config,
            time: self.time,
            sequence: self.sequence,
            acks: self.acks@,
            ack_samples: self.ack_samples@,
            rtt_history: self.rtt_history@,
            sent_packets: self.sent_packets@,
            received_packets: self.received_packets@,
            fragment_reassembly: self.fragment_reassembly@.map_values(
                pieces_of(self.config.fragment_size as int),
            ),
            counters: self.counters,
        }
    }
}

fn append_bytes(bytes: &mut Vec<u8>, more: &[u8])
    ensures
        final(bytes)@ == old(bytes)@ + more@,
{
    let ghost before = bytes@;
    bytes.extend_from_slice(more);
    assert(bytes@ =~= before + more@);
}

/// Puts together the datagram of one fragment.
fn make_fragment(
    sequence: u16,
    header: &[u8],
    data: &[u8],
    fragment_id: usize,
    count: usize,
    fragment_size: usize,
) -> (datagram: Vec<u8>)
    requires
        fragment_size > 0,
        data@.len() > 0,
        count == num_fragments(data@.len(), fragment_size as nat),
        fragment_id < count <= 256,
    ensures
        datagram@ == fragment_datagram(
            sequence,
            header@,
            data@,
            fragment_id as int,
            fragment_size as nat,
        ),
{
    proof {
        lemma_fragments_needed(data@.len() as int, fragment_size as int, fragment_id as int);
        assert(0 <= fragment_id * fragment_size) by (nonlinear_arith);
        assert(data.len() <= usize::MAX);
    }
    let mut datagram: Vec<u8> = Vec::new();
    datagram.push(FLAG_FRAGMENT);
    datagram.push((sequence % 0x100) as u8);
    datagram.push((sequence / 0x100) as u8);
    datagram.push(fragment_id as u8);
    datagram.push((count - 1) as u8);
    assert(datagram@ =~= fragment_header(sequence, fragment_id as int, count as int));
    if fragment_id == 0 {
        append_bytes(&mut datagram, header);
    } else {
        assert(datagram@ =~= datagram@ + Seq::<u8>::empty());
    }
    let start: usize = fragment_id * fragment_size;
    let end: usize = if fragment_size < data.len() - start {
        start + fragment_size
    } else {
        data.len()
    };
    let part = slice_subrange(data, start, end);
    assert(part@ =~= fragment_of(data@, fragment_id as int, fragment_size as nat));
    append_bytes(&mut datagram, part);
    datagram
}

proof fn lemma_fragments_monotone(fragments: int, more: int, fragment_size: int)
    requires
        fragments <= more,
        fragment_size >= 0,
    ensures
        fragments * fragment_size <= more * fragment_size,
{
    assert(fragments * fragment_size <= more * fragment_size) by (nonlinear_arith)
        requires
            fragments <= more,
            fragment_size >= 0,
    ;
}

impl<I: Copy + Default> Endpoint<I> {
    pub closed spec fn inv(&self) -> bool {
        &&& self.sent_packets.wf()
        &&& self.received_packets.wf()
        &&& self.fragment_reassembly.wf()
        &&& forall|s: u16| #[trigger]
            self.fragment_reassembly@.entries.dom().contains(s)
                ==> self.fragment_reassembly@.entries[s].wf(self.config.fragment_size as int)
    }

    pub open spec fn wf(&self) -> bool {
        &&& self.inv()
        &&& self@.wf()
    }

    /// Creates an endpoint with the given config and current time.
    pub fn new(config: Config, time: I) -> (endpoint: Self)
        requires
            config.valid(),
        ensures
            endpoint.wf(),
            endpoint@ == EndpointView::initial(config, time),
    {
        let mut rtt_history: Vec<Option<RttSample<I>>> = Vec::with_capacity(
            config.rtt_history_size,
        );
        let mut i: usize = 0;
        while i < config.rtt_history_size
            invariant
                i <= config.rtt_history_size,
                rtt_history@.len() == i,
                forall|j: int| 0 <= j < i ==> rtt_history@[j] is None,
            decreases config.rtt_history_size - i,
        {
            rtt_history.push(None);
            i += 1;
        }
        let endpoint = Endpoint {
            time,
            acks: Vec::with_capacity(config.ack_buffer_size),
            ack_samples: Vec::with_capacity(config.ack_buffer_size),
            sequence: 0,
            rtt_history,
            sent_packets: SequenceBuffer::new(config.sent_packets_buffer_size),
            received_packets: SequenceBuffer::new(config.received_packets_buffer_size),
            fragment_reassembly: SequenceBuffer::new(config.fragment_reassembly_buffer_size),
            counters: Counters::default(),
            config,
        };
        proof {
            let initial = EndpointView::initial(config, time);
            assert(endpoint@.rtt_history =~= initial.rtt_history);
            assert(endpoint@.fragment_reassembly =~= initial.fragment_reassembly);
        }
        endpoint
    }

    /// The endpoint's configuration.
    pub fn config(&self) -> (config: &Config)
        ensures
            *config == self@.config,
    {
        &self.config
    }

    /// Returns the sequence number the next sent packet will have. Use it to map acked
    /// sequence numbers back to the contents of packets you sent.
    pub fn next_packet_sequence(&self) -> (sequence: u16)
        ensures
            sequence == self@.sequence,
    {
        self.sequence
    }

    /// Sends a packet. Returns the datagrams to transmit, in order: the packet itself, or its
    /// fragments if it is larger than [`Config::fragment_above`], or none if it is too large.
    pub fn send_packet(&mut self, packet_data: &[u8]) -> (datagrams: Vec<Vec<u8>>)
        requires
            old(self).wf(),
            old(self)@.counters.room(),
            packet_data@.len() > 0,
            packet_data@.len() <= old(self)@.config.max_packet_size ==> old(self)@.can_send(),
        ensures
            final(self).wf(),
            final(self)@ == old(self)@.after_send(packet_data@),
            bytes_of(datagrams@) == old(self)@.datagrams(packet_data@),
    {
        let ghost before = self@;
        let packet_bytes: usize = packet_data.len();
        let mut datagrams: Vec<Vec<u8>> = Vec::new();
        if packet_bytes > self.config.max_packet_size {
            self.counters.num_packets_too_large_to_send += 1;
            assert(bytes_of(datagrams@) =~= Seq::empty());
            return datagrams;
        }
        let sequence: u16 = self.sequence;
        self.sequence = self.sequence.wrapping_add(1);

        let (ack, ack_bits) = self.received_packets.generate_ack_bits();

        let sent_packet_bytes: u32 = (self.config.packet_header_size + packet_bytes) as u32;
        let time = self.time;
        match self.sent_packets.insert(sequence) {
            Some(entry) => {
                entry.time = time;
                entry.packet_bytes = sent_packet_bytes;
                entry.acked = false;
            },
            None => {},
        }

        let mut header_buffer = [0u8;MAX_PACKET_HEADER_BYTES];
        proof {
            lemma_packet_header_layout(sequence, ack, ack_bits);
        }
        let header_bytes: usize = write_packet_header(
            &mut header_buffer,
            sequence,
            ack,
            ack_bits,
        );
        let header = slice_subrange(&header_buffer, 0, header_bytes);
        assert(header@ =~= before.next_header());

        if packet_bytes <= self.config.fragment_above {
            let mut datagram: Vec<u8> = slice_to_vec(header);
            append_bytes(&mut datagram, packet_data);
            datagrams.push(datagram);
        } else {
            let fragment_size: usize = self.config.fragment_size;
            let count: usize = (packet_bytes - 1) / fragment_size + 1;
            proof {
                lemma_fragments_needed(
                    packet_bytes as int,
                    fragment_size as int,
                    self.config.max_fragments as int,
                );
            }
            let mut fragment_id: usize = 0;
            while fragment_id < count
                invariant
                    fragment_id <= count,
                    count == num_fragments(packet_data@.len(), fragment_size as nat),
                    count <= 256,
                    fragment_size > 0,
                    packet_data@.len() > 0,
                    datagrams@.len() == fragment_id,
                    forall|i: int|
                        0 <= i < fragment_id ==> #[trigger] datagrams@[i]@ == fragment_datagram(
                            sequence,
                            header@,
                            packet_data@,
                            i,
                            fragment_size as nat,
                        ),
                decreases count - fragment_id,
            {
                let datagram = make_fragment(
                    sequence,
                    header,
                    packet_data,
                    fragment_id,
                    count,
                    fragment_size,
                );
                datagrams.push(datagram);
                fragment_id += 1;
            }
            self.counters.num_fragments_sent += count as u64;
        }
        self.counters.num_packets_sent += 1;
        assert(bytes_of(datagrams@) =~= before.datagrams(packet_data@));
        datagrams
    }

    /// Looks at a whole packet, and returns it if it is to be delivered.
    fn open_whole(&mut self, packet_data: &[u8]) -> (delivery: Option<Delivery>)
        requires
            old(self).wf(),
            old(self)@.counters.room(),
        ensures
            final(self).wf(),
            (final(self)@, delivery_view(delivery)) == old(self)@.open_whole(packet_data@),
    {
        let packet_bytes: usize = packet_data.len();
        if packet_bytes > self.config.max_packet_size + MAX_PACKET_HEADER_BYTES
            + FRAGMENT_HEADER_BYTES {
            self.counters.num_packets_too_large_to_receive += 1;
            return None;
        }
        self.counters.num_packets_received += 1;
        let header = match read_packet_header(packet_data) {
            Some(header) => header,
            None => {
                self.counters.num_packets_invalid += 1;
                return None;
            },
        };
        if packet_bytes - header.bytes > self.config.max_packet_size {
            self.counters.num_packets_too_large_to_receive += 1;
            return None;
        }
        if self.received_packets.is_stale(header.sequence) {
            self.counters.num_packets_stale += 1;
            return None;
        }
        if self.received_packets.contains(header.sequence) {
            self.counters.num_packets_duplicate += 1;
            return None;
        }
        let payload = slice_subrange(packet_data, header.bytes, packet_bytes);
        assert(payload@ =~= packet_data@.skip(header.bytes as int));
        Some(
            Delivery {
                sequence: header.sequence,
                ack: header.ack,
                ack_bits: header.ack_bits,
                packet_bytes,
                payload: slice_to_vec(payload),
            },
        )
    }

    /// Makes sure that the packet a fragment belongs to is under reassembly. Returns false if
    /// there is no place for it any more.
    fn start_reassembly(&mut self, fragment: &FragmentHeader) -> (started: bool)
        requires
            old(self).wf(),
            1 <= fragment.num_fragments <= old(self)@.config.max_fragments,
        ensures
            final(self).wf(),
            started == old(self)@.can_reassemble(fragment.sequence),
            final(self)@ == (if started {
                old(self)@.reassembling(*fragment)
            } else {
                old(self)@
            }),
    {
        let fragment_size: usize = self.config.fragment_size;
        proof {
            self.fragment_reassembly@.lemma_map_values(pieces_of(fragment_size as int));
            lemma_fragments_monotone(
                fragment.num_fragments as int,
                self.config.max_fragments as int,
                fragment_size as int,
            );
        }
        if self.fragment_reassembly.contains(fragment.sequence) {
            return true;
        }
        match self.fragment_reassembly.insert_advance_first(fragment.sequence) {
            None => {
                return false;
            },
            Some(entry) => {
                entry.start(fragment.num_fragments, fragment_size);
            },
        }
        self.received_packets.advance(fragment.sequence);
        true
    }

    /// Adds a fragment to the packet under reassembly that it belongs to. If it was the last
    /// one missing, looks at the packet that they make up.
    fn store_fragment(&mut self, fragment: &FragmentHeader, data: &[u8]) -> (delivery: Option<
        Delivery,
    >)
        requires
            old(self).wf(),
            old(self)@.counters.room(),
            old(self)@.fragment_reassembly.contains(fragment.sequence),
            ({
                let entry = old(self)@.fragment_reassembly.entries[fragment.sequence];
                &&& fragment.num_fragments == entry.total
                &&& fragment.fragment_id < fragment.num_fragments
                &&& !entry.has_fragment(fragment.fragment_id as int)
            }),
            fragment_size_fits(
                fragment_body(*fragment, data@).len() as int,
                fragment.fragment_id as int,
                fragment.num_fragments as int,
                old(self)@.config.fragment_size as int,
            ),
            fragment.fragment_id == 0 ==> data@.len() >= packet_header(
                fragment.sequence,
                fragment.ack,
                fragment.ack_bits,
            ).len(),
        ensures
            final(self).wf(),
            (final(self)@, delivery_view(delivery)) == old(self)@.store_fragment(
                *fragment,
                data@,
            ),
    {
        let ghost before = self@;
        let fragment_size: usize = self.config.fragment_size;
        let ghost f = pieces_of(fragment_size as int);
        let ghost buffer = self.fragment_reassembly@;
        proof {
            buffer.lemma_map_values(f);
        }
        let mut packet: Vec<u8> = Vec::new();
        let mut complete = false;
        match self.fragment_reassembly.find_mut(fragment.sequence) {
            None => {},
            Some(entry) => {
                entry.receive_fragment(fragment, fragment_size, data);
                if entry.is_complete(fragment_size) {
                    complete = true;
                    packet = slice_to_vec(entry.packet(fragment_size));
                }
            },
        }
        let delivery = if complete {
            let ghost stored = self.fragment_reassembly@;
            self.fragment_reassembly.remove(fragment.sequence);
            proof {
                stored.lemma_map_values(f);
                assert(self@.fragment_reassembly =~= before.fragment_reassembly.removed(
                    fragment.sequence,
                ));
            }
            self.open_whole(packet.as_slice())
        } else {
            None
        };
        self.counters.num_fragments_received += 1;
        delivery
    }

    /// Looks at a fragment.
    fn open_fragment(&mut self, packet_data: &[u8]) -> (delivery: Option<Delivery>)
        requires
            old(self).wf(),
            old(self)@.counters.room(),
        ensures
            final(self).wf(),
            (final(self)@, delivery_view(delivery)) == old(self)@.open_fragment(packet_data@),
    {
        proof {
            lemma_parsed_fragment(
                packet_data@,
                self.config.max_fragments as int,
                self.config.fragment_size as int,
            );
        }
        let fragment = match read_fragment_header(
            packet_data,
            self.config.max_fragments,
            self.config.fragment_size,
        ) {
            Some(fragment) => fragment,
            None => {
                self.counters.num_fragments_invalid += 1;
                return None;
            },
        };
        if self.received_packets.contains(fragment.sequence) {
            return None;
        }
        if !self.start_reassembly(&fragment) {
            self.counters.num_fragments_invalid += 1;
            return None;
        }
        let known = match self.fragment_reassembly.find(fragment.sequence) {
            Some(entry) => {
                if fragment.num_fragments != entry.num_fragments_total {
                    self.counters.num_fragments_invalid += 1;
                    return None;
                }
                entry.fragment_received[fragment.fragment_id]
            },
            None => true,
        };
        if known {
            return None;
        }
        let rest = slice_subrange(packet_data, FRAGMENT_HEADER_BYTES, packet_data.len());
        assert(rest@ =~= packet_data@.skip(FRAGMENT_HEADER_BYTES as int));
        self.store_fragment(&fragment, rest)
    }

    /// Looks at a datagram that came in from the network. Returns the packet to hand to the
    /// receiver, if the datagram is one or completes one. A packet that the receiver then
    /// accepts is passed to [`accept_packet`](Self::accept_packet).
    pub fn open_packet(&mut self, packet_data: &[u8]) -> (delivery: Option<Delivery>)
        requires
            old(self).wf(),
            old(self)@.counters.room(),
            packet_data@.len() > 0,
        ensures
            final(self).wf(),
            (final(self)@, delivery_view(delivery)) == old(self)@.open(packet_data@),
    {
        if packet_data.len() <= self.config.max_packet_size + MAX_PACKET_HEADER_BYTES
            + FRAGMENT_HEADER_BYTES && packet_data[0] / FLAG_FRAGMENT % 2 == 1 {
            self.open_fragment(packet_data)
        } else {
            self.open_whole(packet_data)
        }
    }

    /// Reports the acks in the header of a packet that was accepted.
    fn process_acks(&mut self, ack: u16, ack_bits: u32)
        requires
            old(self).wf(),
            old(self)@.counters.num_packets_acked <= u64::MAX - 32,
        ensures
            final(self).wf(),
            final(self)@ == old(self)@.after_acks(ack, ack_bits, 32),
    {
        let ghost before = self@;
        let mut i: u16 = 0;
        while i < 32
            invariant
                i <= 32,
                self.wf(),
                before.counters.num_packets_acked <= u64::MAX - 32,
                self@ == before.after_acks(ack, ack_bits, i as nat),
                self@.counters.num_packets_acked <= before.counters.num_packets_acked + i,
                self@.config == before.config,
            decreases 32 - i,
        {
            let sequence: u16 = ack.wrapping_sub(i);
            if (ack_bits >> (i as u32)) & 1 == 1 {
                self.process_ack(sequence);
            }
            i += 1;
        }
    }

    /// Reports that a packet was acked, if it still awaits its ack and there is room for it.
    fn process_ack(&mut self, sequence: u16)
        requires
            old(self).wf(),
            old(self)@.counters.num_packets_acked < u64::MAX,
        ensures
            final(self).wf(),
            final(self)@ == (if old(self)@.awaits_ack(sequence) && old(self)@.acks.len()
                < old(self)@.config.ack_buffer_size {
                old(self)@.acked(sequence)
            } else {
                old(self)@
            }),
    {
        if self.acks.len() >= self.config.ack_buffer_size {
            return ;
        }
        let time = self.time;
        match self.sent_packets.find_mut(sequence) {
            None => {},
            Some(entry) => {
                if !entry.acked {
                    entry.acked = true;
                    let sent = entry.time;
                    self.acks.push(sequence);
                    self.ack_samples.push(RttSample { sent, acked: time });
                    self.counters.num_packets_acked += 1;
                    let index: usize = sequence as usize % self.config.rtt_history_size;
                    self.rtt_history[index] = Some(RttSample { sent, acked: time });
                }
            },
        }
    }

    /// The receiver has accepted a packet: it will be acked, and the acks that it carries
    /// are reported.
    pub fn accept_packet(&mut self, delivery: &Delivery)
        requires
            old(self).wf(),
            old(self)@.counters.num_packets_acked <= u64::MAX - 32,
            old(self)@.received_packets.can_insert(delivery.sequence),
            delivery.packet_bytes <= old(self)@.config.receive_limit(),
        ensures
            final(self).wf(),
            final(self)@ == old(self)@.accept(delivery@),
    {
        let time = self.time;
        let received_packet_bytes: u32 = (self.config.packet_header_size
            + delivery.packet_bytes) as u32;
        proof {
            self.fragment_reassembly@.lemma_map_values(
                pieces_of(self.config.fragment_size as int),
            );
        }
        match self.received_packets.insert(delivery.sequence) {
            Some(entry) => {
                entry.time = time;
                entry.packet_bytes = received_packet_bytes;
            },
            None => {},
        }
        self.fragment_reassembly.advance(delivery.sequence);
        self.process_acks(delivery.ack, delivery.ack_bits);
    }

    /// Call this for each packet received from your socket. Valid packets are passed to
    /// the `process` closure as `(sequence, packet_data)`; return true to accept and ack
    /// the packet, false to reject it (rejected packets are not acked and may be
    /// processed again if they arrive again). Stale and duplicate packets are dropped: the
    /// closure is called only for a packet that is due, once.
    pub fn receive_packet(&mut self, packet_data: &[u8], process: impl FnOnce(u16, &[u8]) -> bool)
        requires
            old(self).wf(),
            old(self)@.counters.room(),
            packet_data@.len() > 0,
            old(self)@.open(packet_data@).1 matches Some(delivery) ==> forall|payload: &[u8]|
                payload@ == delivery.payload ==> #[trigger] call_requires(
                    process,
                    (delivery.sequence, payload),
                ),
        ensures
            final(self).wf(),
            match old(self)@.open(packet_data@).1 {
                None => final(self)@ == old(self)@.open(packet_data@).0,
                Some(delivery) => exists|payload: &[u8], accepted: bool| {
                    &&& payload@ == delivery.payload
                    &&& #[trigger] call_ensures(process, (delivery.sequence, payload), accepted)
                    &&& final(self)@ == old(self)@.after_receive(packet_data@, accepted)
                },
            },
    {
        proof {
            self@.law_open_keeps_sending_side(packet_data@);
        }
        match self.open_packet(packet_data) {
            None => {},
            Some(delivery) => {
                let payload = delivery.payload.as_slice();
                let accepted = process(delivery.sequence, payload);
                assert(call_ensures(process, (delivery.sequence, payload), accepted));
                if accepted {
                    self.accept_packet(&delivery);
                }
            },
        }
    }

    /// Whether the next packet can be tracked for its ack. It cannot if the buffer for sent
    /// packets is so large that its window reaches half way around the number circle.
    pub fn can_send(&self) -> (can: bool)
        requires
            self.wf(),
        ensures
            can == self@.can_send(),
    {
        self.sent_packets.can_insert(self.sequence)
    }

    /// The sequence numbers of sent packets acked since the last call to
    /// [`clear_acks`](Self::clear_acks).
    pub fn acks(&self) -> (acks: &[u16])
        ensures
            acks@ == self@.acks,
    {
        self.acks.as_slice()
    }

    /// For each of the [`acks`](Self::acks), when the packet was sent and when it was acked.
    pub fn ack_samples(&self) -> (samples: &[RttSample<I>])
        ensures
            samples@ == self@.ack_samples,
    {
        self.ack_samples.as_slice()
    }

    /// The packets that the ack and the ack bits of a header acknowledge and that still await
    /// their ack, the most recent one first. After the packet with that header was accepted,
    /// these are the acks that were dropped because the ack buffer is full.
    pub fn awaiting_acks(&self, ack: u16, ack_bits: u32) -> (awaiting: Vec<u16>)
        requires
            self.wf(),
        ensures
            awaiting@ == self@.awaited(ack, ack_bits, 32),
    {
        let mut awaiting: Vec<u16> = Vec::new();
        let mut i: u16 = 0;
        while i < 32
            invariant
                i <= 32,
                self.wf(),
                awaiting@ == self@.awaited(ack, ack_bits, i as nat),
            decreases 32 - i,
        {
            let sequence: u16 = ack.wrapping_sub(i);
            if (ack_bits >> (i as u32)) & 1 == 1 {
                match self.sent_packets.find(sequence) {
                    Some(packet) => {
                        if !packet.acked {
                            awaiting.push(sequence);
                        }
                    },
                    None => {},
                }
            }
            i += 1;
        }
        awaiting
    }

    /// Clears the ack array. Call this once per-frame after processing acks. If you
    /// don't, the ack buffer fills up and new acks are dropped.
    pub fn clear_acks(&mut self)
        requires
            old(self).wf(),
        ensures
            final(self).wf(),
            final(self)@ == (EndpointView {
                acks: Seq::empty(),
                ack_samples: Seq::empty(),
                ..old(self)@
            }),
    {
        self.acks.clear();
        self.ack_samples.clear();
    }

    /// Drains the ack array: returns the sequence numbers of sent packets acked since the
    /// last clear or drain, leaving the array empty. A one-call alternative to
    /// [`acks`](Self::acks) followed by [`clear_acks`](Self::clear_acks) that makes the
    /// clear impossible to forget.
    pub fn drain_acks(&mut self) -> (acks: Vec<u16>)
        requires
            old(self).wf(),
        ensures
            acks@ == old(self)@.acks,
            final(self).wf(),
            final(self)@ == (EndpointView {
                acks: Seq::empty(),
                ack_samples: Seq::empty(),
                ..old(self)@
            }),
    {
        let acks = slice_to_vec(self.acks.as_slice());
        self.clear_acks();
        acks
    }

    /// Resets the endpoint to its initial state: acks, counters, sequence number, rtt history
    /// and all tracking buffers are cleared.
    pub fn reset(&mut self)
        requires
            old(self).wf(),
        ensures
            final(self).wf(),
            final(self)@ == EndpointView::initial(old(self)@.config, old(self)@.time),
    {
        let ghost before = self@;
        self.acks.clear();
        self.ack_samples.clear();
        self.sequence = 0;
        self.counters = Counters::default();
        self.sent_packets.reset();
        self.received_packets.reset();
        self.fragment_reassembly.reset();
        let mut i: usize = 0;
        while i < self.rtt_history.len()
            invariant
                i <= self.rtt_history@.len(),
                self.rtt_history@.len() == before.rtt_history.len(),
                forall|j: int| 0 <= j < i ==> self.rtt_history@[j] is None,
                self.inv(),
                self.config == before.config,
                self.time == before.time,
                self.sequence == 0,
                self.acks@ == Seq::<u16>::empty(),
                self.ack_samples@ == Seq::<RttSample<I>>::empty(),
                self.sent_packets@ == SequenceBufferView::<SentPacketData<I>>::empty(
                    before.sent_packets.num_entries,
                ),
                self.received_packets@ == SequenceBufferView::<ReceivedPacketData<I>>::empty(
                    before.received_packets.num_entries,
                ),
                self.fragment_reassembly@ == SequenceBufferView::<FragmentReassemblyData>::empty(
                    before.fragment_reassembly.num_entries,
                ),
                self.counters == Counters::zero(),
            decreases self.rtt_history@.len() - i,
        {
            self.rtt_history[i] = None;
            i += 1;
        }
        proof {
            let initial = EndpointView::initial(before.config, before.time);
            assert(self@.rtt_history =~= initial.rtt_history);
            assert(self@.fragment_reassembly =~= initial.fragment_reassembly);
        }
    }

    /// Tells the endpoint the current time. Call once per-frame.
    pub fn update(&mut self, time: I)
        requires
            old(self).wf(),
        ensures
            final(self).wf(),
            final(self)@ == (EndpointView { time, ..old(self)@ }),
    {
        self.time = time;
    }

    /// The endpoint's counters.
    pub fn counters(&self) -> (counters: &Counters)
        ensures
            *counters == self@.counters,
    {
        &self.counters
    }

    /// The packets under reassembly.
    pub fn fragment_reassembly(&self) -> (buffer: &SequenceBuffer<FragmentReassemblyData>)
        requires
            self.wf(),
        ensures
            buffer.wf(),
            self@.fragment_reassembly == buffer@.map_values(
                pieces_of(self@.config.fragment_size as int),
            ),
    {
        &self.fragment_reassembly
    }

    /// The most recent round trips, one for each remainder of the sequence number by
    /// [`Config::rtt_history_size`].
    pub fn rtt_history(&self) -> (history: &[Option<RttSample<I>>])
        ensures
            history@ == self@.rtt_history,
    {
        self.rtt_history.as_slice()
    }

    /// How many packets of the oldest half of the sent packet buffer, where packets have had
    /// enough time to be acked, are tracked, and how many of those have not been acked.
    pub fn packet_loss_counts(&self) -> (counts: (usize, usize))
        requires
            self.wf(),
        ensures
            counts.0 == self@.num_sent(self@.config.sent_packets_buffer_size as nat / 2),
            counts.1 == self@.num_dropped(self@.config.sent_packets_buffer_size as nat / 2),
    {
        let num_samples: usize = self.config.sent_packets_buffer_size / 2;
        let mut num_sent: usize = 0;
        let mut num_dropped: usize = 0;
        let mut i: usize = 0;
        while i < num_samples
            invariant
                i <= num_samples,
                self.wf(),
                num_sent == self@.num_sent(i as nat),
                num_dropped == self@.num_dropped(i as nat),
                num_sent <= i,
                num_dropped <= i,
            decreases num_samples - i,
        {
            match self.sent_packets.find_in_window(i) {
                Some(packet) => {
                    num_sent += 1;
                    if !packet.acked {
                        num_dropped += 1;
                    }
                },
                None => {},
            }
            i += 1;
        }
        (num_sent, num_dropped)
    }

    /// The samples of the oldest half of the sent packets.
    pub fn sent_bandwidth_samples(&self) -> (samples: Vec<BandwidthSample<I>>)
        requires
            self.wf(),
        ensures
            samples@ == self@.sent_samples(
                false,
                self@.config.sent_packets_buffer_size as nat / 2,
            ),
    {
        self.collect_sent_samples(false)
    }

    /// The samples of those packets of the oldest half of the sent packets that were acked.
    pub fn acked_bandwidth_samples(&self) -> (samples: Vec<BandwidthSample<I>>)
        requires
            self.wf(),
        ensures
            samples@ == self@.sent_samples(
                true,
                self@.config.sent_packets_buffer_size as nat / 2,
            ),
    {
        self.collect_sent_samples(true)
    }

    fn collect_sent_samples(&self, acked_only: bool) -> (samples: Vec<BandwidthSample<I>>)
        requires
            self.wf(),
        ensures
            samples@ == self@.sent_samples(
                acked_only,
                self@.config.sent_packets_buffer_size as nat / 2,
            ),
    {
        let num_samples: usize = self.config.sent_packets_buffer_size / 2;
        let mut samples: Vec<BandwidthSample<I>> = Vec::new();
        let mut i: usize = 0;
        while i < num_samples
            invariant
                i <= num_samples,
                self.wf(),
                samples@ == self@.sent_samples(acked_only, i as nat),
            decreases num_samples - i,
        {
            match self.sent_packets.find_in_window(i) {
                Some(packet) => {
                    if packet.acked || !acked_only {
                        samples.push(
                            BandwidthSample {
                                time: packet.time,
                                packet_bytes: packet.packet_bytes,
                            },
                        );
                    }
                },
                None => {},
            }
            i += 1;
        }
        samples
    }

    /// The samples of the oldest half of the received packets.
    pub fn received_bandwidth_samples(&self) -> (samples: Vec<BandwidthSample<I>>)
        requires
            self.wf(),
        ensures
            samples@ == self@.received_samples(
                self@.config.received_packets_buffer_size as nat / 2,
            ),
    {
        let num_samples: usize = self.config.received_packets_buffer_size / 2;
        let mut samples: Vec<BandwidthSample<I>> = Vec::new();
        let mut i: usize = 0;
        while i < num_samples
            invariant
                i <= num_samples,
                self.wf(),
                samples@ == self@.received_samples(i as nat),
            decreases num_samples - i,
        {
            match self.received_packets.find_in_window(i) {
                Some(packet) => {
                    samples.push(
                        BandwidthSample { time: packet.time, packet_bytes: packet.packet_bytes },
                    );
                },
                None => {},
            }
            i += 1;
        }
        samples
    }
}

} // verus!
