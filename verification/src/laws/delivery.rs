//! Laws of packets on their way from one endpoint to the other.

use vstd::prelude::*;

use crate::laws::acks::{acknowledges, law_ack_bits_tell_what_was_received};
use crate::laws::window::law_insert_is_found;
use crate::model::{DeliveryView, EndpointView, SentPacketData};
use crate::packet::{
    has_flag, law_packet_header_round_trip, lemma_packet_header_layout, lemma_prefix_flags,
    parse_packet_header, FLAG_FRAGMENT,
};
use crate::sequence::{seq_add, seq_distance};
use crate::sequence_buffer::{ack_bit, SequenceBufferView};

verus! {

impl<I> EndpointView<I> {
    /// What the other side is to be handed of a packet that is sent: the contents, and with
    /// it the sequence number and the acks.
    pub open spec fn outgoing(self, data: Seq<u8>) -> DeliveryView {
        DeliveryView {
            sequence: self.sequence,
            ack: self.received_packets.newest(),
            ack_bits: self.received_packets.ack_bits(),
            packet_bytes: self.next_header().len() + data.len(),
            payload: data,
        }
    }
}

/// Opening what a packet header and a payload were put together to gives the payload back,
/// and what the header was written from.
pub proof fn lemma_open_whole<I>(sender: EndpointView<I>, receiver: EndpointView<I>, data: Seq<u8>)
    requires
        data.len() <= receiver.config.max_packet_size,
        !receiver.received_packets.is_stale(sender.sequence),
        !receiver.received_packets.contains(sender.sequence),
    ensures
        receiver.open_whole(sender.next_header() + data) == (
            receiver.packet_received(),
            Some(sender.outgoing(data)),
        ),
        !has_flag((sender.next_header() + data)[0], FLAG_FRAGMENT),
{
    let header = sender.next_header();
    let ack = sender.received_packets.newest();
    let ack_bits = sender.received_packets.ack_bits();
    law_packet_header_round_trip(sender.sequence, ack, ack_bits, data);
    lemma_packet_header_layout(sender.sequence, ack, ack_bits);
    lemma_prefix_flags(sender.sequence, ack, ack_bits);
    assert((header + data).skip(header.len() as int) =~= data);
}

/// A packet that is sent in one piece arrives: the other side is handed its contents, under
/// the sequence number that the sender said it would have, if the packet is neither stale
/// nor a duplicate there.
pub proof fn law_packet_arrives<I>(sender: EndpointView<I>, receiver: EndpointView<I>, data: Seq<u8>)
    requires
        data.len() <= sender.config.fragment_above,
        data.len() <= sender.config.max_packet_size,
        data.len() <= receiver.config.max_packet_size,
        !receiver.received_packets.is_stale(sender.sequence),
        !receiver.received_packets.contains(sender.sequence),
    ensures
        sender.datagrams(data).len() == 1,
        receiver.open(sender.datagrams(data)[0]) == (
            receiver.packet_received(),
            Some(sender.outgoing(data)),
        ),
{
    lemma_open_whole(sender, receiver, data);
    lemma_packet_header_layout(
        sender.sequence,
        sender.received_packets.newest(),
        sender.received_packets.ack_bits(),
    );
}

/// A packet that is sent in one piece is a single datagram, whose header says the sequence
/// number that the sender said it would have, the most recent packet received and the ack bits,
/// and behind which stand the contents. The next packet has the next number.
pub proof fn law_sent_packet_reads_back<I>(sender: EndpointView<I>, data: Seq<u8>)
    requires
        data.len() <= sender.config.fragment_above,
        data.len() <= sender.config.max_packet_size,
    ensures
        sender.datagrams(data).len() == 1,
        parse_packet_header(sender.datagrams(data)[0]) matches Some(header) && {
            &&& header.sequence == sender.sequence
            &&& header.ack == sender.received_packets.newest()
            &&& header.ack_bits == sender.received_packets.ack_bits()
            &&& sender.datagrams(data)[0].skip(header.bytes as int) == data
        },
        sender.after_send(data).sequence == seq_add(sender.sequence, 1),
{
    let header = sender.next_header();
    let ack = sender.received_packets.newest();
    let ack_bits = sender.received_packets.ack_bits();
    law_packet_header_round_trip(sender.sequence, ack, ack_bits, data);
    lemma_packet_header_layout(sender.sequence, ack, ack_bits);
    assert((header + data).skip(header.len() as int) =~= data);
}

/// An ack is never false: every packet that is reported acked had been received by the other
/// side when it sent the packet that carried the ack.
pub proof fn law_ack_means_received<I>(
    sender: EndpointView<I>,
    receiver: EndpointView<I>,
    reply: Seq<u8>,
    s: u16,
)
    requires
        sender.acks.len() == sender.ack_samples.len(),
        sender.acks.len() <= sender.config.ack_buffer_size,
    ensures
        sender.accept(receiver.outgoing(reply)).new_acks(sender).contains(s) ==> {
            &&& receiver.received_packets.contains(s)
            &&& sender.awaits_ack(s)
        },
{
    let d = receiver.outgoing(reply);
    let inserted = sender.inserting(d);
    inserted.law_news_is_reported(d.ack, d.ack_bits, 32);
    if sender.accept(d).new_acks(sender).contains(s) {
        assert(inserted.awaits_ack(s));
        assert(acknowledges(d.ack, d.ack_bits, 32, s));
        let i = choose|i: int|
            0 <= i < 32 && #[trigger] ack_bit(d.ack_bits, i) && s == seq_add(d.ack, -i);
        law_ack_bits_tell_what_was_received(receiver.received_packets, i);
    }
}

/// A packet that was received is acknowledged by every packet that the other side sends,
/// until it has received 32 more recent ones: when such a packet is accepted, the ack is
/// reported if it was not before. It is left out only if the ack buffer is full.
pub proof fn law_received_is_acked<I>(
    sender: EndpointView<I>,
    receiver: EndpointView<I>,
    reply: Seq<u8>,
    s: u16,
)
    requires
        sender.acks.len() == sender.ack_samples.len(),
        sender.acks.len() <= sender.config.ack_buffer_size,
        receiver.received_packets.contains(s),
        1 <= seq_distance(s, receiver.received_packets.sequence) <= 32,
        sender.awaits_ack(s),
    ensures
        ({
            let after = sender.accept(receiver.outgoing(reply));
            ||| after.new_acks(sender).contains(s)
            ||| after.acks.len() == sender.config.ack_buffer_size
        }),
{
    let d = receiver.outgoing(reply);
    let inserted = sender.inserting(d);
    inserted.law_news_is_reported(d.ack, d.ack_bits, 32);
    let i = seq_distance(s, receiver.received_packets.sequence) - 1;
    assert(s == seq_add(d.ack, -i));
    law_ack_bits_tell_what_was_received(receiver.received_packets, i);
    assert(acknowledges(d.ack, d.ack_bits, 32, s));
    assert(inserted.awaits_ack(s));
}

/// A packet that is sent awaits its ack, and nothing else starts or stops to, except a packet
/// so old that it makes room.
pub proof fn law_sent_packet_awaits_ack<I>(sender: EndpointView<I>, data: Seq<u8>)
    requires
        data.len() <= sender.config.max_packet_size,
    ensures
        sender.after_send(data).awaits_ack(sender.sequence),
        sender.after_send(data).sequence == seq_add(sender.sequence, 1),
        forall|s: u16|
            s != sender.sequence && #[trigger] sender.after_send(data).awaits_ack(s)
                ==> sender.awaits_ack(s),
{
    let packet = SentPacketData {
        time: sender.time,
        acked: false,
        packet_bytes: sender.network_bytes(data.len()),
    };
    law_insert_is_found(sender.sent_packets, sender.sequence, packet);
    assert forall|s: u16|
        s != sender.sequence && #[trigger] sender.after_send(data).awaits_ack(
            s,
        ) implies sender.awaits_ack(s) by {
        assert(sender.sent_packets.inserted(sender.sequence, packet).contains(s));
    }
}

/// Once a buffer has been moved forward to a number, that number is behind its end.
proof fn lemma_behind<T>(buffer: SequenceBufferView<T>, s: u16)
    ensures
        seq_distance(s, buffer.advanced(s).sequence) >= 1,
{
}

/// A packet that is delivered and accepted is among those received.
proof fn lemma_accepted_is_received<I>(receiver: EndpointView<I>, datagram: Seq<u8>)
    requires
        receiver.open(datagram).1 is Some,
    ensures
        ({
            let opened = receiver.open(datagram).0;
            let s = receiver.open(datagram).1.unwrap().sequence;
            let received = receiver.after_receive(datagram, true);
            &&& received.received_packets.contains(s)
            &&& received.received_packets.sequence == opened.received_packets.advanced(s).sequence
            &&& received.sequence == receiver.sequence
            &&& received.config == receiver.config
        }),
{
    let (opened, delivery) = receiver.open(datagram);
    let d = delivery.unwrap();
    let inserted = opened.inserting(d);
    receiver.law_open_keeps_sending_side(datagram);
    inserted.lemma_after_acks_frame(d.ack, d.ack_bits, 32);
    assert(receiver.after_receive(datagram, true) == opened.accept(d));
    assert(inserted.received_packets.contains(d.sequence));
}

/// What it is all for: when a packet has arrived, in one piece or with the last of its
/// fragments, the other side sends one back, and when that has arrived the sender is told
/// that its packet was received. The packet must be among the 32 most recent ones received,
/// and the ack buffer must not be full.
pub proof fn law_arrival_is_acked<I>(
    sender: EndpointView<I>,
    data: Seq<u8>,
    receiver: EndpointView<I>,
    datagram: Seq<u8>,
    waiting: EndpointView<I>,
    reply: Seq<u8>,
    reply_datagram: Seq<u8>,
)
    requires
        // the datagram completes the packet where it arrives
        receiver.open(datagram).1 == Some(sender.outgoing(data)),
        // the reply datagram completes the reply where the sender still waits for the ack
        waiting.open(reply_datagram).1 == Some(
            receiver.after_receive(datagram, true).outgoing(reply),
        ),
        waiting.awaits_ack(sender.sequence),
        waiting.acks.len() == waiting.ack_samples.len(),
        waiting.acks.len() <= waiting.config.ack_buffer_size,
        seq_distance(
            sender.sequence,
            receiver.after_receive(datagram, true).received_packets.sequence,
        ) <= 32,
    ensures
        ({
            let acked = waiting.after_receive(reply_datagram, true);
            ||| acked.new_acks(waiting).contains(sender.sequence)
            ||| acked.acks.len() == waiting.config.ack_buffer_size
        }),
{
    let s = sender.sequence;
    let received = receiver.after_receive(datagram, true);
    let opened = waiting.open(reply_datagram).0;
    lemma_accepted_is_received(receiver, datagram);
    lemma_behind(receiver.open(datagram).0.received_packets, s);
    waiting.law_open_keeps_sending_side(reply_datagram);
    assert(opened.awaits_ack(s));
    law_received_is_acked(opened, received, reply, s);
    assert(waiting.after_receive(reply_datagram, true) == opened.accept(received.outgoing(reply)));
}

/// The round trip of two packets that are sent in one piece, from the sending of the first to
/// its ack.
pub proof fn law_round_trip<I>(
    sender: EndpointView<I>,
    receiver: EndpointView<I>,
    data: Seq<u8>,
    reply: Seq<u8>,
)
    requires
        sender.wf(),
        receiver.wf(),
        // both packets are sent in one piece
        data.len() <= sender.config.fragment_above,
        data.len() <= receiver.config.max_packet_size,
        reply.len() <= receiver.config.fragment_above,
        reply.len() <= sender.config.max_packet_size,
        // neither is stale or a duplicate where it arrives
        !receiver.received_packets.is_stale(sender.sequence),
        !receiver.received_packets.contains(sender.sequence),
        !sender.received_packets.is_stale(receiver.sequence),
        !sender.received_packets.contains(receiver.sequence),
        seq_distance(
            sender.sequence,
            receiver.received_packets.advanced(sender.sequence).sequence,
        ) <= 32,
    ensures
        ({
            let sent = sender.after_send(data);
            let received = receiver.after_receive(sender.datagrams(data)[0], true);
            let acked = sent.after_receive(received.datagrams(reply)[0], true);
            ||| acked.new_acks(sent).contains(sender.sequence)
            ||| acked.acks.len() == sender.config.ack_buffer_size
        }),
{
    let sent = sender.after_send(data);
    let datagram = sender.datagrams(data)[0];
    let received = receiver.after_receive(datagram, true);
    law_packet_arrives(sender, receiver, data);
    law_sent_packet_awaits_ack(sender, data);
    lemma_accepted_is_received(receiver, datagram);
    law_packet_arrives(received, sent, reply);
    law_arrival_is_acked(
        sender,
        data,
        receiver,
        datagram,
        sent,
        reply,
        received.datagrams(reply)[0],
    );
}

} // verus!
