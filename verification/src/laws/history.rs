//! Laws of what happens to an endpoint over time.

use vstd::prelude::*;

use crate::config::Config;
use crate::laws::acks::law_ack_bits_tell_what_was_received;
use crate::laws::window::{
    law_advance_keeps_the_window, law_insert_is_found, law_insert_keeps_the_window,
    law_stale_is_out_of_window, lemma_steps, steps_to,
};
use crate::model::{DeliveryView, EndpointView, ReceivedPacketData};
use crate::packet::{has_flag, parse_fragment_header, FLAG_FRAGMENT};
use crate::sequence::{seq_add, seq_behind, seq_distance};
use crate::sequence_buffer::{
    ack_bit, lemma_behind_is_unique, slots_divide_the_circle, SequenceBufferView,
};

verus! {

/// Something that happens to an endpoint.
pub enum Event<I> {
    /// A packet is sent.
    Send { data: Seq<u8> },
    /// A datagram comes in. `accepted` is what the receiver says of the packet that it is
    /// handed, if it is handed one.
    Receive { data: Seq<u8>, accepted: bool },
    /// The endpoint is told the time.
    Update { time: I },
    /// The acks are cleared.
    ClearAcks,
}

impl<I> EndpointView<I> {
    /// The state after an event.
    pub open spec fn step(self, event: Event<I>) -> Self {
        match event {
            Event::Send { data } => self.after_send(data),
            Event::Receive { data, accepted } => self.after_receive(data, accepted),
            Event::Update { time } => EndpointView { time, ..self },
            Event::ClearAcks => EndpointView {
                acks: Seq::empty(),
                ack_samples: Seq::empty(),
                ..self
            },
        }
    }

    /// The state after a history of events.
    pub open spec fn run(self, events: Seq<Event<I>>) -> Self
        decreases events.len(),
    {
        if events.len() == 0 {
            self
        } else {
            self.step(events[0]).run(events.drop_first())
        }
    }

    /// The event hands the packet with the sequence number to the receiver.
    pub open spec fn delivers(self, event: Event<I>, sequence: u16) -> bool {
        match event {
            Event::Receive { data, .. } => self.open(data).1 matches Some(delivery)
                && delivery.sequence == sequence,
            _ => false,
        }
    }

    /// How often the packet with the sequence number is handed to the receiver.
    pub open spec fn times_delivered(self, events: Seq<Event<I>>, sequence: u16) -> nat
        decreases events.len(),
    {
        if events.len() == 0 {
            0
        } else {
            (if self.delivers(events[0], sequence) {
                1nat
            } else {
                0
            }) + self.step(events[0]).times_delivered(events.drop_first(), sequence)
        }
    }

    /// How far an event moves the window of received packets forward.
    pub open spec fn step_travel(self, event: Event<I>) -> int {
        match event {
            Event::Receive { data, accepted } => {
                let opened = self.open(data).0.received_packets.sequence;
                let after = self.step(event).received_packets.sequence;
                seq_distance(self.received_packets.sequence, opened) + seq_distance(opened, after)
            },
            _ => 0,
        }
    }

    /// How far a history of events moves the window of received packets forward.
    pub open spec fn travel(self, events: Seq<Event<I>>) -> int
        decreases events.len(),
    {
        if events.len() == 0 {
            0
        } else {
            self.step_travel(events[0]) + self.step(events[0]).travel(events.drop_first())
        }
    }
}

/// The slot of the sequence number is taken, by itself or by a more recent number.
spec fn slot_taken<T>(buffer: SequenceBufferView<T>, s: u16) -> bool {
    exists|t: u16| #[trigger]
        buffer.entries.dom().contains(t) && buffer.same_slot(t as int, s as int) && seq_behind(
            t,
            buffer.sequence,
        ) <= seq_behind(s, buffer.sequence)
}

/// A sequence number no more than half the number circle behind has its slot taken, or has
/// fallen out of the window.
spec fn retired<T>(buffer: SequenceBufferView<T>, s: u16) -> bool {
    let behind = seq_behind(s, buffer.sequence);
    &&& behind <= 0x8000
    &&& behind <= buffer.num_entries ==> slot_taken(buffer, s)
}

proof fn lemma_retired_advanced<T>(buffer: SequenceBufferView<T>, s: u16, sequence: u16)
    requires
        retired(buffer, s),
        seq_behind(s, buffer.sequence) + steps_to(buffer, sequence) <= 0x8000,
    ensures
        retired(buffer.advanced(sequence), s),
        seq_behind(s, buffer.advanced(sequence).sequence) == seq_behind(s, buffer.sequence)
            + steps_to(buffer, sequence),
{
    let after = buffer.advanced(sequence);
    law_advance_keeps_the_window(buffer, s, sequence);
    if seq_behind(s, buffer.sequence) + steps_to(buffer, sequence) <= buffer.num_entries {
        let t = choose|t: u16| #[trigger]
            buffer.entries.dom().contains(t) && buffer.same_slot(t as int, s as int) && seq_behind(
                t,
                buffer.sequence,
            ) <= seq_behind(s, buffer.sequence);
        law_advance_keeps_the_window(buffer, t, sequence);
        assert(after.entries.dom().contains(t));
        assert(slot_taken(after, s));
    }
}

proof fn lemma_retired_inserted<T>(buffer: SequenceBufferView<T>, s: u16, sequence: u16, value: T)
    requires
        retired(buffer, s),
        seq_behind(s, buffer.sequence) + steps_to(buffer, sequence) <= 0x8000,
        !buffer.is_stale(sequence),
    ensures
        retired(buffer.inserted(sequence, value), s),
        seq_behind(s, buffer.inserted(sequence, value).sequence) == seq_behind(s, buffer.sequence)
            + steps_to(buffer, sequence),
{
    let advanced = buffer.advanced(sequence);
    let after = buffer.inserted(sequence, value);
    lemma_retired_advanced(buffer, s, sequence);
    law_advance_keeps_the_window(buffer, sequence, sequence);
    if seq_behind(s, advanced.sequence) <= buffer.num_entries {
        let t = choose|t: u16| #[trigger]
            advanced.entries.dom().contains(t) && advanced.same_slot(t as int, s as int)
                && seq_behind(t, advanced.sequence) <= seq_behind(s, advanced.sequence);
        assert(advanced.entries.dom().contains(t));
        if buffer.same_slot(sequence as int, s as int) {
            assert(after.entries.dom().contains(sequence));
            if buffer.advances(sequence) {
                lemma_most_recent(sequence);
                lemma_behind_is_unique(s, s, advanced.sequence);
            } else {
                assert(buffer.entries.dom().contains(t));
                assert(!buffer.superseded(sequence));
                assert(seq_behind(sequence, buffer.sequence) <= seq_behind(t, buffer.sequence));
            }
            assert(slot_taken(after, s));
        } else {
            assert(after.entries.dom().contains(t));
            assert(slot_taken(after, s));
        }
    }
}

proof fn lemma_most_recent(sequence: u16)
    ensures
        seq_behind(sequence, seq_add(sequence, 1)) == 1,
{
}

/// A retired number is either stale or a duplicate.
proof fn lemma_retired_is_dropped<T>(buffer: SequenceBufferView<T>, s: u16)
    requires
        buffer.num_entries > 0,
        retired(buffer, s),
    ensures
        buffer.is_stale(s) || buffer.contains(s),
{
    lemma_behind_is_unique(s, s, buffer.sequence);
    if seq_behind(s, buffer.sequence) > buffer.num_entries {
        law_stale_is_out_of_window(buffer, s);
    } else {
        let t = choose|t: u16| #[trigger]
            buffer.entries.dom().contains(t) && buffer.same_slot(t as int, s as int) && seq_behind(
                t,
                buffer.sequence,
            ) <= seq_behind(s, buffer.sequence);
        lemma_behind_is_unique(t, s, buffer.sequence);
        lemma_not_ahead(buffer, s);
        assert(buffer.entries.dom().contains(t));
    }
}

proof fn lemma_not_ahead<T>(buffer: SequenceBufferView<T>, s: u16)
    requires
        seq_behind(s, buffer.sequence) <= 0x8000,
    ensures
        !buffer.advances(s),
{
}

/// The received packets after a datagram has been looked at: the window moves forward to the
/// number of a fragment, if that is newer than all before it.
spec fn after_open<T>(
    buffer: SequenceBufferView<T>,
    sequence: Option<u16>,
) -> SequenceBufferView<T> {
    match sequence {
        Some(sequence) => buffer.advanced(sequence),
        None => buffer,
    }
}

/// The received packets after the receiver has accepted a packet, if there was one.
spec fn after_insert<T>(
    buffer: SequenceBufferView<T>,
    inserted: Option<(u16, T)>,
) -> SequenceBufferView<T> {
    match inserted {
        Some((sequence, value)) => buffer.inserted(sequence, value),
        None => buffer,
    }
}

/// How far the window moves forward in the two steps.
spec fn steps_of<T>(
    buffer: SequenceBufferView<T>,
    sequence: Option<u16>,
    inserted: Option<(u16, T)>,
) -> int {
    let middle = after_open(buffer, sequence);
    let after = after_insert(middle, inserted);
    seq_distance(buffer.sequence, middle.sequence) + seq_distance(middle.sequence, after.sequence)
}

proof fn lemma_retired_receive<T>(
    buffer: SequenceBufferView<T>,
    sequence: Option<u16>,
    inserted: Option<(u16, T)>,
    s: u16,
)
    requires
        buffer.num_entries > 0,
        retired(buffer, s),
        inserted matches Some(i) ==> !after_open(buffer, sequence).is_stale(i.0),
        seq_behind(s, buffer.sequence) + steps_of(buffer, sequence, inserted) <= 0x8000,
    ensures
        ({
            let middle = after_open(buffer, sequence);
            let after = after_insert(middle, inserted);
            &&& after.num_entries == buffer.num_entries
            &&& retired(after, s)
            &&& seq_behind(s, after.sequence) == seq_behind(s, buffer.sequence) + steps_of(
                buffer,
                sequence,
                inserted,
            )
            &&& middle.is_stale(s) || middle.contains(s)
        }),
{
    let middle = after_open(buffer, sequence);
    match sequence {
        Some(sequence) => {
            lemma_steps(buffer, sequence);
            lemma_retired_advanced(buffer, s, sequence);
        },
        None => {},
    }
    lemma_retired_is_dropped(middle, s);
    match inserted {
        Some((sequence, value)) => {
            lemma_steps(middle, sequence);
            lemma_retired_inserted(middle, s, sequence, value);
        },
        None => {},
    }
}

proof fn lemma_accepted_is_retired<T>(
    before: SequenceBufferView<T>,
    after: SequenceBufferView<T>,
    s: u16,
)
    requires
        exists|value: T| after == #[trigger] before.inserted(s, value),
        seq_behind(s, after.sequence) <= 0x8000,
    ensures
        retired(after, s),
        after.num_entries == before.num_entries,
{
    assert(after.entries.dom().contains(s));
}

impl<I> EndpointView<I> {
    /// The window of received packets moves forward only to the number of a fragment.
    proof fn lemma_open_received(self, data: Seq<u8>) -> (sequence: Option<u16>)
        ensures
            self.open(data).0.received_packets == after_open(self.received_packets, sequence),
    {
        let fragment = parse_fragment_header(
            data,
            self.config.max_fragments as int,
            self.config.fragment_size as int,
        );
        if self.open(data).0.received_packets == self.received_packets {
            None
        } else {
            Some(fragment.unwrap().sequence)
        }
    }

    /// A packet is added to the received packets only if it was accepted.
    proof fn lemma_accept_received(self, delivery: DeliveryView) -> (packet: ReceivedPacketData<I>)
        ensures
            self.accept(delivery).received_packets == self.received_packets.inserted(
                delivery.sequence,
                packet,
            ),
    {
        let packet = ReceivedPacketData {
            time: self.time,
            packet_bytes: self.network_bytes(delivery.packet_bytes),
        };
        self.inserting(delivery).lemma_after_acks_frame(delivery.ack, delivery.ack_bits, 32);
        packet
    }

    proof fn lemma_receive_received(self, data: Seq<u8>, accepted: bool) -> (change: (
        Option<u16>,
        Option<(u16, ReceivedPacketData<I>)>,
    ))
        ensures
            self.open(data).0.received_packets == after_open(self.received_packets, change.0),
            self.after_receive(data, accepted).received_packets == after_insert(
                self.open(data).0.received_packets,
                change.1,
            ),
            change.1 matches Some(inserted) ==> !self.open(data).0.received_packets.is_stale(
                inserted.0,
            ),
            self.open(data).1 matches Some(delivery) ==> {
                &&& !self.open(data).0.received_packets.is_stale(delivery.sequence)
                &&& !self.open(data).0.received_packets.contains(delivery.sequence)
            },
            accepted && self.open(data).1 is Some ==> change.1 is Some && change.1.unwrap().0
                == self.open(data).1.unwrap().sequence,
            !accepted || self.open(data).1 is None ==> change.1 is None,
    {
        let sequence = self.lemma_open_received(data);
        self.law_open_keeps_sending_side(data);
        let (opened, delivery) = self.open(data);
        match delivery {
            Some(d) if accepted => {
                let packet = opened.lemma_accept_received(d);
                (sequence, Some((d.sequence, packet)))
            },
            _ => (sequence, None),
        }
    }

    proof fn lemma_retired_step(self, event: Event<I>, s: u16)
        requires
            self.received_packets.num_entries > 0,
            retired(self.received_packets, s),
            seq_behind(s, self.received_packets.sequence) + self.step_travel(event) <= 0x8000,
        ensures
            !self.delivers(event, s),
            self.step(event).received_packets.num_entries == self.received_packets.num_entries,
            retired(self.step(event).received_packets, s),
            seq_behind(s, self.step(event).received_packets.sequence) == seq_behind(
                s,
                self.received_packets.sequence,
            ) + self.step_travel(event),
    {
        match event {
            Event::Receive { data, accepted } => {
                let (sequence, inserted) = self.lemma_receive_received(data, accepted);
                lemma_retired_receive(self.received_packets, sequence, inserted, s);
            },
            _ => {},
        }
    }

    proof fn lemma_retired_run(self, events: Seq<Event<I>>, s: u16)
        requires
            self.received_packets.num_entries > 0,
            retired(self.received_packets, s),
            seq_behind(s, self.received_packets.sequence) + self.travel(events) <= 0x8000,
        ensures
            self.times_delivered(events, s) == 0,
        decreases events.len(),
    {
        if events.len() > 0 {
            self.step(events[0]).lemma_travel_positive(events.drop_first());
            self.lemma_retired_step(events[0], s);
            self.step(events[0]).lemma_retired_run(events.drop_first(), s);
        }
    }

    proof fn lemma_travel_positive(self, events: Seq<Event<I>>)
        ensures
            self.travel(events) >= 0,
        decreases events.len(),
    {
        if events.len() > 0 {
            self.step(events[0]).lemma_travel_positive(events.drop_first());
        }
    }

    /// A packet that was delivered and accepted is not delivered again, whatever comes in: a
    /// duplicate is dropped, and so is one so late that it is stale. This holds of every size of
    /// the window, until it has moved on half the number circle, from where on the same
    /// sequence number may stand for a new packet.
    pub proof fn law_delivered_at_most_once(self, data: Seq<u8>, events: Seq<Event<I>>)
        requires
            self.received_packets.num_entries > 0,
            self.open(data).1 is Some,
            ({
                let s = self.open(data).1.unwrap().sequence;
                let accepted = self.after_receive(data, true);
                seq_behind(s, accepted.received_packets.sequence) + accepted.travel(events) <= 0x8000
            }),
        ensures
            self.after_receive(data, true).times_delivered(
                events,
                self.open(data).1.unwrap().sequence,
            ) == 0,
    {
        let s = self.open(data).1.unwrap().sequence;
        let accepted = self.after_receive(data, true);
        let (sequence, inserted) = self.lemma_receive_received(data, true);
        accepted.lemma_travel_positive(events);
        lemma_accepted_is_retired(self.open(data).0.received_packets, accepted.received_packets, s);
        accepted.lemma_retired_run(events, s);
    }

    /// Some event of the history hands the packet with the sequence number to the receiver,
    /// which accepts it.
    pub open spec fn ever_accepts(self, events: Seq<Event<I>>, sequence: u16) -> bool
        decreases events.len(),
    {
        events.len() > 0 && {
            ||| self.accepts(events[0], sequence)
            ||| self.step(events[0]).ever_accepts(events.drop_first(), sequence)
        }
    }

    /// A packet counts as received, and so is acked, only if the receiver accepted it. One
    /// that it rejected does not.
    pub proof fn law_received_means_accepted(self, events: Seq<Event<I>>, sequence: u16)
        requires
            self.run(events).received_packets.contains(sequence),
        ensures
            self.received_packets.contains(sequence) || self.ever_accepts(events, sequence),
        decreases events.len(),
    {
        if events.len() > 0 {
            let after = self.step(events[0]);
            after.law_received_means_accepted(events.drop_first(), sequence);
            match events[0] {
                Event::Receive { data, accepted } => {
                    let (_, inserted) = self.lemma_receive_received(data, accepted);
                    match inserted {
                        Some((s, value)) => {
                            law_insert_is_found(self.open(data).0.received_packets, s, value);
                        },
                        None => {},
                    }
                },
                _ => {},
            }
        }
    }

    /// A packet that was rejected does not count as received.
    pub proof fn law_rejected_is_not_received(self, data: Seq<u8>)
        requires
            self.open(data).1 is Some,
        ensures
            !self.after_receive(data, false).received_packets.contains(
                self.open(data).1.unwrap().sequence,
            ),
    {
        self.lemma_receive_received(data, false);
    }

    /// A packet in one piece that was rejected leaves no trace but in the count of packets
    /// received: the acks, the next sequence number and the acks of later packets are as if it
    /// had not arrived. It is handed to the receiver again, the same, if it arrives again.
    pub proof fn law_rejected_may_come_again(self, data: Seq<u8>)
        requires
            self.open(data).1 is Some,
            !has_flag(data[0], FLAG_FRAGMENT),
        ensures
            self.after_receive(data, false) == self.packet_received(),
            self.after_receive(data, false).next_header() == self.next_header(),
            self.after_receive(data, false).open(data).1 == self.open(data).1,
    {
    }

    /// The event hands the packet with the sequence number to the receiver, which accepts it.
    pub open spec fn accepts(self, event: Event<I>, sequence: u16) -> bool {
        self.delivers(event, sequence) && event->accepted
    }

    /// The sequence number stays in the window of received packets over a history of events.
    pub open spec fn stays_in_window(self, events: Seq<Event<I>>, sequence: u16) -> bool {
        let behind = seq_behind(sequence, self.received_packets.sequence) + self.travel(events);
        behind <= self.received_packets.num_entries && behind <= 0x1_0000
    }

    /// Some event of the history makes the receiver accept the packet with the sequence number,
    /// and from then on it stays in the window.
    pub open spec fn accepts_in_window(self, events: Seq<Event<I>>, sequence: u16) -> bool
        decreases events.len(),
    {
        events.len() > 0 && {
            let after = self.step(events[0]);
            let rest = events.drop_first();
            ||| self.accepts(events[0], sequence) && after.stays_in_window(rest, sequence)
            ||| after.accepts_in_window(rest, sequence)
        }
    }

    proof fn lemma_contained_step(self, event: Event<I>, s: u16)
        requires
            self.received_packets.num_entries > 0,
            slots_divide_the_circle(self.received_packets.num_entries),
            contained_in_window(self.received_packets, s),
        ensures
            ({
                let behind = seq_behind(s, self.received_packets.sequence) + self.step_travel(event);
                let after = self.step(event).received_packets;
                &&& after.num_entries == self.received_packets.num_entries
                &&& after.contains(s) <==> self.accepts(event, s) || (self.received_packets.contains(
                    s,
                ) && behind <= after.num_entries && behind <= 0x1_0000)
                &&& behind <= 0x1_0000 ==> seq_behind(s, after.sequence) == behind
                &&& contained_in_window(after, s)
            }),
    {
        lemma_behind_is_unique(s, s, self.received_packets.sequence);
        match event {
            Event::Receive { data, accepted } => {
                let (sequence, inserted) = self.lemma_receive_received(data, accepted);
                lemma_contained_receive(self.received_packets, sequence, inserted, s);
            },
            _ => {},
        }
    }

    /// What is received at the end of a history is exactly what was accepted in its course, or
    /// received at its start, and has stayed in the window since.
    pub proof fn law_received_is_what_was_accepted(self, events: Seq<Event<I>>, s: u16)
        requires
            self.received_packets.num_entries > 0,
            slots_divide_the_circle(self.received_packets.num_entries),
            contained_in_window(self.received_packets, s),
        ensures
            self.run(events).received_packets.contains(s) <==> (self.received_packets.contains(s)
                && self.stays_in_window(events, s)) || self.accepts_in_window(events, s),
        decreases events.len(),
    {
        lemma_behind_is_unique(s, s, self.received_packets.sequence);
        if events.len() > 0 {
            let after = self.step(events[0]);
            let rest = events.drop_first();
            self.lemma_contained_step(events[0], s);
            after.lemma_travel_positive(rest);
            after.law_received_is_what_was_accepted(rest, s);
        }
    }
}

/// If the sequence number has an entry, it lies in the window.
pub open spec fn contained_in_window<T>(buffer: SequenceBufferView<T>, s: u16) -> bool {
    buffer.contains(s) ==> buffer.in_window(s, buffer.sequence)
}

proof fn lemma_contained_advanced<T>(buffer: SequenceBufferView<T>, s: u16, sequence: u16)
    requires
        contained_in_window(buffer, s),
    ensures
        ({
            let after = buffer.advanced(sequence);
            let behind = seq_behind(s, buffer.sequence) + seq_distance(
                buffer.sequence,
                after.sequence,
            );
            &&& after.contains(s) <==> buffer.contains(s) && behind <= buffer.num_entries && behind
                <= 0x1_0000
            &&& behind <= 0x1_0000 ==> seq_behind(s, after.sequence) == behind
            &&& contained_in_window(after, s)
        }),
{
    lemma_steps(buffer, sequence);
    law_advance_keeps_the_window(buffer, s, sequence);
    lemma_behind_is_unique(s, s, buffer.sequence);
}

proof fn lemma_contained_inserted<T>(buffer: SequenceBufferView<T>, s: u16, sequence: u16, value: T)
    requires
        buffer.num_entries > 0,
        slots_divide_the_circle(buffer.num_entries),
        contained_in_window(buffer, s),
        !buffer.is_stale(sequence),
        !buffer.contains(sequence),
    ensures
        ({
            let after = buffer.inserted(sequence, value);
            let behind = seq_behind(s, buffer.sequence) + seq_distance(
                buffer.sequence,
                after.sequence,
            );
            &&& after.contains(s) <==> s == sequence || (buffer.contains(s) && behind
                <= buffer.num_entries && behind <= 0x1_0000)
            &&& behind <= 0x1_0000 ==> seq_behind(s, after.sequence) == behind
            &&& contained_in_window(after, s)
        }),
{
    let after = buffer.inserted(sequence, value);
    let behind = seq_behind(s, buffer.sequence) + steps_to(buffer, sequence);
    lemma_contained_advanced(buffer, s, sequence);
    lemma_steps(buffer, sequence);
    law_insert_is_found(buffer, sequence, value);
    if s == sequence {
        if buffer.advances(sequence) {
            lemma_most_recent(sequence);
        }
    } else {
        if after.contains(s) {
            assert(buffer.advanced(sequence).contains(s));
        }
        if buffer.contains(s) && behind <= buffer.num_entries && behind <= 0x1_0000 {
            lemma_behind_is_unique(s, sequence, buffer.sequence);
            lemma_behind_is_unique(sequence, s, buffer.sequence);
            law_insert_keeps_the_window(buffer, s, sequence, value);
        }
    }
}

proof fn lemma_contained_receive<T>(
    buffer: SequenceBufferView<T>,
    sequence: Option<u16>,
    inserted: Option<(u16, T)>,
    s: u16,
)
    requires
        buffer.num_entries > 0,
        slots_divide_the_circle(buffer.num_entries),
        contained_in_window(buffer, s),
        inserted matches Some(i) ==> {
            &&& !after_open(buffer, sequence).is_stale(i.0)
            &&& !after_open(buffer, sequence).contains(i.0)
        },
    ensures
        ({
            let after = after_insert(after_open(buffer, sequence), inserted);
            let behind = seq_behind(s, buffer.sequence) + steps_of(buffer, sequence, inserted);
            &&& after.num_entries == buffer.num_entries
            &&& after.contains(s) <==> (inserted is Some && inserted.unwrap().0 == s) || (
            buffer.contains(s) && behind <= buffer.num_entries && behind <= 0x1_0000)
            &&& behind <= 0x1_0000 ==> seq_behind(s, after.sequence) == behind
            &&& contained_in_window(after, s)
        }),
{
    let middle = after_open(buffer, sequence);
    lemma_behind_is_unique(s, s, buffer.sequence);
    match sequence {
        Some(sequence) => {
            lemma_contained_advanced(buffer, s, sequence);
        },
        None => {},
    }
    lemma_behind_is_unique(s, s, middle.sequence);
    match inserted {
        Some((sequence, value)) => {
            lemma_contained_inserted(middle, s, sequence, value);
        },
        None => {},
    }
}

/// Over the whole life of an endpoint, bit `i` of the ack bits that it sends next is set if and
/// only if the packet `i` before the most recent one was accepted and is still in the window of
/// received packets.
pub proof fn law_ack_bits_tell_what_was_accepted<I>(
    config: Config,
    time: I,
    events: Seq<Event<I>>,
    data: Seq<u8>,
    i: int,
)
    requires
        0 <= i < 32,
        config.received_packets_buffer_size > 0,
        slots_divide_the_circle(config.received_packets_buffer_size as nat),
    ensures
        ({
            let start = EndpointView::initial(config, time);
            let sent = start.run(events).outgoing(data);
            ack_bit(sent.ack_bits, i) <==> start.accepts_in_window(events, seq_add(sent.ack, -i))
        }),
{
    let start = EndpointView::initial(config, time);
    let state = start.run(events);
    law_ack_bits_tell_what_was_received(state.received_packets, i);
    start.law_received_is_what_was_accepted(events, seq_add(state.received_packets.newest(), -i));
}

} // verus!
