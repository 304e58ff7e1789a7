//! Laws of what receiving does: how the windows move, what is kept, and what is counted.

use vstd::prelude::*;

use crate::config::Counters;
use crate::laws::acks::law_ack_bits_tell_what_was_received;
use crate::laws::history::Event;
use crate::laws::window::{
    law_advance_keeps_the_window, law_moving_forward, law_what_is_there_after_insert,
    lemma_slot_of_other, lemma_steps,
};
use crate::model::{DeliveryView, EndpointView};
use crate::laws::wire::{law_reading_a_fragment_header, law_reading_a_packet_header};
use crate::packet::{
    has_flag, packet_header, parse_fragment_header, FragmentHeader, FLAG_FRAGMENT,
};
use crate::reassembly::fragment_body;
use crate::sequence::{seq_add, seq_behind};
use crate::sequence_buffer::{ack_bit, slots_divide_the_circle, SequenceBufferView};
use crate::FRAGMENT_HEADER_BYTES;

verus! {

/// The sequence number that a datagram carries.
pub open spec fn carried(data: Seq<u8>) -> u16 {
    (data[1] + 0x100 * data[2]) as u16
}

/// How far the number after `t` is ahead of `next`, if it is newer; zero if it is not.
pub open spec fn ahead_of(next: u16, t: u16) -> int {
    let ahead = (t + 1 - next) % 0x1_0000;
    if ahead < 0x8000 || (ahead == 0x8000 && next < 0x8000) {
        ahead
    } else {
        0
    }
}

/// What is there of a buffer that has moved forward to `t`, if that is newer.
proof fn lemma_advanced_to<T>(before: SequenceBufferView<T>, t: u16, s: u16)
    ensures
        ({
            let after = before.advanced(t);
            let ahead = ahead_of(before.sequence, t);
            let behind = seq_behind(s, before.sequence) + ahead;
            &&& ahead > 0 ==> after.sequence == (t + 1) % 0x1_0000
            &&& ahead == 0 ==> after == before
            &&& after.num_entries == before.num_entries
            &&& after.entries.dom().contains(s) <==> before.entries.dom().contains(s) && (ahead > 0
                ==> behind <= before.num_entries && behind <= 0x1_0000)
            &&& after.entries.dom().contains(s) ==> after.entries[s] == before.entries[s]
        }),
{
    law_moving_forward(before, t);
    law_advance_keeps_the_window(before, s, t);
    lemma_steps(before, t);
}

impl<I> EndpointView<I> {
    /// The datagram is a fragment that can be read, of a packet that was not received and of which
    /// no other fragment has come, and there is a place for its reassembly.
    pub open spec fn starts_a_reassembly(self, data: Seq<u8>) -> bool {
        &&& data.len() <= self.config.max_packet_size + 14
        &&& parse_fragment_header(
            data,
            self.config.max_fragments as int,
            self.config.fragment_size as int,
        ) is Some
        &&& !self.received_packets.entries.dom().contains(carried(data))
        &&& !self.fragment_reassembly.entries.dom().contains(carried(data))
        &&& ahead_of(self.fragment_reassembly.sequence, carried(data)) > 0
            || self.fragment_reassembly.can_insert(carried(data))
    }

    proof fn lemma_whole_moves_nothing(self, data: Seq<u8>)
        ensures
            self.open_whole(data).0.received_packets == self.received_packets,
    {
    }

    proof fn lemma_store_moves_nothing(self, fragment: FragmentHeader, data: Seq<u8>)
        ensures
            self.store_fragment(fragment, data).0.received_packets == self.received_packets,
    {
        let removed = EndpointView {
            fragment_reassembly: self.fragment_reassembly.removed(fragment.sequence),
            ..self.fragment_received()
        };
        removed.lemma_whole_moves_nothing(
            self.fragment_reassembly.entries[fragment.sequence].stored(
                fragment.fragment_id as int,
                packet_header(fragment.sequence, fragment.ack, fragment.ack_bits),
                fragment_body(fragment, data),
            ).packet(),
        );
    }

    proof fn lemma_open_moves(self, data: Seq<u8>)
        requires
            data.len() > 0,
        ensures
            self.open(data).0.received_packets == (if self.starts_a_reassembly(data) {
                self.received_packets.advanced(carried(data))
            } else {
                self.received_packets
            }),
    {
        law_moving_forward(self.fragment_reassembly, carried(data));
        law_reading_a_fragment_header(
            data,
            self.config.max_fragments as int,
            self.config.fragment_size as int,
        );
        match parse_fragment_header(
            data,
            self.config.max_fragments as int,
            self.config.fragment_size as int,
        ) {
            Some(fragment) if data.len() <= self.config.receive_limit() => {
                assert(self.open(data) == self.open_fragment(data));
                self.reassembling(fragment).lemma_store_moves_nothing(
                    fragment,
                    data.skip(FRAGMENT_HEADER_BYTES as int),
                );
            },
            _ => {
                self.lemma_whole_moves_nothing(data);
            },
        }
    }

    /// Opening a datagram moves the window of received packets only if the datagram is the first
    /// fragment to come of a packet that is newer than all before, and then to just that packet:
    /// the number after the one that the datagram carries comes next. Exactly those packets are no
    /// longer tracked that are further behind it than the buffer has entries.
    pub proof fn law_window_moves_to_what_came(self, data: Seq<u8>, s: u16)
        requires
            data.len() > 0,
        ensures
            ({
                let before = self.received_packets;
                let after = self.open(data).0.received_packets;
                let ahead = ahead_of(before.sequence, carried(data));
                let behind = seq_behind(s, before.sequence) + ahead;
                let moves = self.starts_a_reassembly(data) && ahead > 0;
                &&& moves ==> after.sequence == (carried(data) + 1) % 0x1_0000
                &&& !moves ==> after.sequence == before.sequence
                &&& after.num_entries == before.num_entries
                &&& after.entries.dom().contains(s) <==> before.entries.dom().contains(s) && (moves
                    ==> behind <= before.num_entries && behind <= 0x1_0000)
                &&& after.entries.dom().contains(s) ==> after.entries[s] == before.entries[s]
            }),
    {
        self.lemma_open_moves(data);
        lemma_advanced_to(self.received_packets, carried(data), s);
    }

    /// Accepting a packet moves the window of received packets to it, if it is newer than all
    /// before, and leaves under its number an entry with the time and with the bytes of the packet,
    /// its header and the headers below this layer. Of the others exactly those stay, as they were,
    /// that are not further behind than the buffer has entries and have another slot.
    pub proof fn law_accepting_tracks_the_packet(self, d: DeliveryView, s: u16)
        requires
            self.wf(),
            d.packet_bytes <= self.config.max_packet_size + 14,
        ensures
            ({
                let before = self.received_packets;
                let after = self.accept(d).received_packets;
                let n = self.config.received_packets_buffer_size as int;
                let ahead = ahead_of(before.sequence, d.sequence);
                let behind = seq_behind(s, before.sequence) + ahead;
                &&& ahead > 0 ==> after.sequence == (d.sequence + 1) % 0x1_0000
                &&& ahead == 0 ==> after.sequence == before.sequence
                &&& after.num_entries == n
                &&& after.entries.dom().contains(d.sequence)
                &&& after.entries[d.sequence].time == self.time
                &&& after.entries[d.sequence].packet_bytes as int == self.config.packet_header_size
                    + d.packet_bytes
                &&& s != d.sequence ==> (after.entries.dom().contains(s)
                    <==> before.entries.dom().contains(s) && s as int % n != d.sequence as int % n
                    && (ahead > 0 ==> behind <= n && behind <= 0x1_0000))
                &&& s != d.sequence && after.entries.dom().contains(s) ==> after.entries[s]
                    == before.entries[s]
            }),
    {
        let inserted = self.inserting(d);
        inserted.lemma_after_acks_frame(d.ack, d.ack_bits, 32);
        law_moving_forward(self.received_packets, d.sequence);
        law_what_is_there_after_insert(
            self.received_packets,
            d.sequence,
            inserted.received_packets.entries[d.sequence],
            s,
        );
    }

    /// Accepting a packet moves the window of packets under reassembly to it, if it is newer than
    /// all before, and otherwise not at all. Exactly those packets under reassembly are given up
    /// that are further behind than there are places; of the others every fragment is kept.
    pub proof fn law_accepting_moves_the_reassembly_window(self, d: DeliveryView, s: u16)
        ensures
            ({
                let before = self.fragment_reassembly;
                let after = self.accept(d).fragment_reassembly;
                let ahead = ahead_of(before.sequence, d.sequence);
                let behind = seq_behind(s, before.sequence) + ahead;
                &&& ahead > 0 ==> after.sequence == (d.sequence + 1) % 0x1_0000
                &&& ahead == 0 ==> after.sequence == before.sequence
                &&& after.num_entries == before.num_entries
                &&& after.entries.dom().contains(s) <==> before.entries.dom().contains(s) && (ahead
                    > 0 ==> behind <= before.num_entries && behind <= 0x1_0000)
                &&& after.entries.dom().contains(s) ==> after.entries[s] == before.entries[s]
            }),
    {
        self.inserting(d).lemma_after_acks_frame(d.ack, d.ack_bits, 32);
        lemma_advanced_to(self.fragment_reassembly, d.sequence, s);
    }

    /// A packet under reassembly keeps all its fragments when another one is accepted that is less
    /// than as many numbers ahead of it as there are places for reassembly, or that is older than
    /// the most recent one.
    pub proof fn law_near_packets_leave_the_fragments(self, d: DeliveryView, s: u16)
        requires
            self.wf(),
            1 < self.config.fragment_reassembly_buffer_size <= 0x8000,
            self.fragment_reassembly.entries.dom().contains(s),
            (d.sequence - s) % 0x1_0000 < self.config.fragment_reassembly_buffer_size
                || ahead_of(self.fragment_reassembly.sequence, d.sequence) == 0,
        ensures
            self.accept(d).fragment_reassembly.entries.dom().contains(s),
            self.accept(d).fragment_reassembly.entries[s] == self.fragment_reassembly.entries[s],
    {
        self.law_accepting_moves_the_reassembly_window(d, s);
        assert(self.fragment_reassembly.in_window(s, self.fragment_reassembly.sequence));
    }

    /// Accepting a packet leaves the time and the sequence numbers of sent packets alone, and
    /// counts nothing but acks.
    pub proof fn law_accepting_leaves_the_rest(self, d: DeliveryView)
        ensures
            self.accept(d).config == self.config,
            self.accept(d).time == self.time,
            self.accept(d).sequence == self.sequence,
            self.accept(d).sent_packets.sequence == self.sent_packets.sequence,
            self.accept(d).sent_packets.num_entries == self.sent_packets.num_entries,
            self.accept(d).counters == (Counters {
                num_packets_acked: self.accept(d).counters.num_packets_acked,
                ..self.counters
            }),
    {
        self.inserting(d).lemma_after_acks_frame(d.ack, d.ack_bits, 32);
        lemma_sent_window(self.inserting(d), d.ack, d.ack_bits, 32);
    }
}

proof fn lemma_sent_window<I>(endpoint: EndpointView<I>, ack: u16, ack_bits: u32, n: nat)
    ensures
        endpoint.after_acks(ack, ack_bits, n).sent_packets.sequence
            == endpoint.sent_packets.sequence,
        endpoint.after_acks(ack, ack_bits, n).sent_packets.num_entries
            == endpoint.sent_packets.num_entries,
    decreases n,
{
    if n > 0 {
        lemma_sent_window(endpoint, ack, ack_bits, (n - 1) as nat);
    }
}

/// Where the numbers shortly before `t` stand in the window when it has moved to `t`.
proof fn lemma_shortly_before<T>(buffer: SequenceBufferView<T>, t: u16, k: int)
    requires
        buffer.wf(),
        1 < buffer.num_entries <= 0x8000,
        0 <= k < 32,
        ahead_of(buffer.sequence, t) > 0,
        buffer.contains(seq_add(t, -k)),
    ensures
        seq_behind(seq_add(t, -k), buffer.sequence) + ahead_of(buffer.sequence, t) == k + 1,
{
    assert(buffer.in_window(seq_add(t, -k), buffer.sequence));
}

proof fn lemma_behind_newest(t: u16, k: int)
    requires
        0 <= k < 0xFFFF,
    ensures
        seq_behind(seq_add(t, -k), seq_add(t, 1)) == k + 1,
        k > 0 ==> seq_add(t, -k) != t,
{
}

/// Where the number of slots divides the number of sequence numbers, those shortly before a number
/// have other slots.
proof fn lemma_slot_shortly_before<T>(buffer: SequenceBufferView<T>, t: u16, k: int)
    requires
        1 < buffer.num_entries <= 0x8000,
        slots_divide_the_circle(buffer.num_entries),
        0 < k < 32,
        k < buffer.num_entries,
        buffer.sequence == seq_add(t, 1),
    ensures
        seq_add(t, -k) as int % (buffer.num_entries as int) != t as int % (
        buffer.num_entries as int),
{
    lemma_behind_newest(t, k);
    assert(!buffer.advances(t));
    assert(buffer.can_insert(t));
    lemma_slot_of_other(buffer, seq_add(t, -k), t);
}

/// What is there of the numbers shortly before `t` after the window has moved to it.
proof fn lemma_kept_shortly_before<T>(buffer: SequenceBufferView<T>, t: u16, value: T, k: int)
    requires
        buffer.wf(),
        1 < buffer.num_entries <= 0x8000,
        slots_divide_the_circle(buffer.num_entries),
        0 < k < 32,
        ahead_of(buffer.sequence, t) > 0,
    ensures
        ({
            let s = seq_add(t, -k);
            let kept = k < buffer.num_entries && buffer.contains(s);
            &&& buffer.advanced(t).sequence == seq_add(t, 1)
            &&& buffer.advanced(t).contains(s) <==> kept
            &&& buffer.inserted(t, value).sequence == seq_add(t, 1)
            &&& buffer.inserted(t, value).contains(s) <==> kept
            &&& buffer.advanced(t).inserted(t, value).sequence == seq_add(t, 1)
            &&& buffer.advanced(t).inserted(t, value).contains(s) <==> kept
        }),
{
    let s = seq_add(t, -k);
    let moved = buffer.advanced(t);
    lemma_behind_newest(t, k);
    law_moving_forward(buffer, t);
    law_moving_forward(moved, t);
    law_advance_keeps_the_window(buffer, s, t);
    lemma_steps(buffer, t);
    law_what_is_there_after_insert(buffer, t, value, s);
    law_what_is_there_after_insert(moved, t, value, s);
    if buffer.contains(s) {
        lemma_shortly_before(buffer, t, k);
    }
    if k < buffer.num_entries {
        lemma_slot_shortly_before(moved, t, k);
    }
}

proof fn lemma_ack_of_newest<T>(
    before: SequenceBufferView<T>,
    opened: SequenceBufferView<T>,
    after: SequenceBufferView<T>,
    t: u16,
    k: int,
)
    requires
        before.wf(),
        1 < before.num_entries <= 0x8000,
        slots_divide_the_circle(before.num_entries),
        0 < k < 32,
        ahead_of(before.sequence, t) > 0,
        opened == before || opened == before.advanced(t),
        after == opened || after == opened.inserted(t, after.entries[t]),
        after.sequence != before.sequence,
    ensures
        after.newest() == t,
        ack_bit(after.ack_bits(), k) <==> k < before.num_entries && before.contains(
            seq_add(t, -k),
        ),
{
    lemma_kept_shortly_before(before, t, after.entries[t], k);
    law_ack_bits_tell_what_was_received(after, k);
}

impl<I> EndpointView<I> {
    /// A packet is delivered under the sequence number that the datagram carries.
    pub proof fn law_delivered_under_the_carried_number(self, data: Seq<u8>)
        requires
            self.reassembly_sound(),
            data.len() > 0,
        ensures
            self.open(data).1 matches Some(d) ==> d.sequence == carried(data),
    {
        law_reading_a_packet_header(data);
        law_reading_a_fragment_header(
            data,
            self.config.max_fragments as int,
            self.config.fragment_size as int,
        );
        if data.len() <= self.config.receive_limit() && has_flag(data[0], FLAG_FRAGMENT) {
            match parse_fragment_header(
                data,
                self.config.max_fragments as int,
                self.config.fragment_size as int,
            ) {
                Some(fragment) => {
                    self.law_fragments_keep_their_number(data, fragment);
                },
                None => {},
            }
        }
    }

    /// What receiving a datagram does to the received packets.
    proof fn lemma_receive_moves(self, data: Seq<u8>, accepted: bool)
        requires
            self.reassembly_sound(),
            data.len() > 0,
        ensures
            ({
                let t = carried(data);
                let opened = self.open(data).0.received_packets;
                let after = self.after_receive(data, accepted).received_packets;
                &&& opened == self.received_packets || opened == self.received_packets.advanced(t)
                &&& if accepted && self.open(data).1 is Some {
                    after == opened.inserted(t, after.entries[t])
                } else {
                    after == opened
                }
            }),
    {
        self.lemma_open_moves(data);
        self.law_delivered_under_the_carried_number(data);
        let (opened, delivery) = self.open(data);
        match delivery {
            Some(d) if accepted => {
                opened.inserting(d).lemma_after_acks_frame(d.ack, d.ack_bits, 32);
                law_what_is_there_after_insert(
                    opened.received_packets,
                    d.sequence,
                    opened.inserting(d).received_packets.entries[d.sequence],
                    d.sequence,
                );
            },
            _ => {},
        }
    }

    /// Receiving a datagram never moves the window of received packets beyond the number that the
    /// datagram carries: what comes next stays as it is, or is the number after that one, which is
    /// newer then.
    pub proof fn law_window_never_passes_what_came(self, data: Seq<u8>, accepted: bool)
        requires
            self.reassembly_sound(),
            data.len() > 0,
        ensures
            ({
                let before = self.received_packets.sequence;
                let after = self.after_receive(data, accepted).received_packets.sequence;
                after == before || (after == (carried(data) + 1) % 0x1_0000 && ahead_of(
                    before,
                    carried(data),
                ) > 0)
            }),
    {
        let t = carried(data);
        let opened = self.open(data).0.received_packets;
        let after = self.after_receive(data, accepted).received_packets;
        self.lemma_receive_moves(data, accepted);
        law_moving_forward(self.received_packets, t);
        law_moving_forward(opened, t);
        law_what_is_there_after_insert(opened, t, after.entries[t], t);
    }

    /// Once a datagram that came in has moved the window, the ack of the next header is the number
    /// that the datagram carries, the newest that has come in. Its ack bits acknowledge of the
    /// numbers before that one exactly those that had been received, as far as the buffer goes
    /// back.
    pub proof fn law_newest_number_is_the_ack(self, data: Seq<u8>, accepted: bool, k: int)
        requires
            self.wf(),
            self.reassembly_sound(),
            data.len() > 0,
            1 < self.config.received_packets_buffer_size <= 0x8000,
            slots_divide_the_circle(self.config.received_packets_buffer_size as nat),
            self.after_receive(data, accepted).received_packets.sequence
                != self.received_packets.sequence,
            0 < k < 32,
        ensures
            ({
                let after = self.after_receive(data, accepted).received_packets;
                let s = seq_add(carried(data), -k);
                &&& after.newest() == carried(data)
                &&& ack_bit(after.ack_bits(), k) <==> k < self.config.received_packets_buffer_size
                    && self.received_packets.entries.dom().contains(s)
            }),
    {
        let t = carried(data);
        let opened = self.open(data).0.received_packets;
        let after = self.after_receive(data, accepted).received_packets;
        self.lemma_receive_moves(data, accepted);
        self.law_window_never_passes_what_came(data, accepted);
        law_moving_forward(self.received_packets, t);
        lemma_ack_of_newest(self.received_packets, opened, after, t, k);
    }

    /// However long an endpoint runs, the number that comes next in the window of received packets
    /// is the one that it started with, or the one after a number that a datagram came in with.
    pub proof fn law_next_number_follows_one_that_came(self, events: Seq<Event<I>>)
        requires
            self.reassembly_sound(),
            forall|j: int|
                0 <= j < events.len() ==> (#[trigger] events[j] matches Event::Receive {
                    data,
                    ..
                } ==> data.len() > 0),
        ensures
            ({
                let next = self.run(events).received_packets.sequence;
                next == self.received_packets.sequence || exists|j: int|
                    0 <= j < events.len() && (#[trigger] events[j] matches Event::Receive {
                        data,
                        ..
                    } && next == (carried(data) + 1) % 0x1_0000)
            }),
        decreases events.len(),
    {
        if events.len() > 0 {
            let rest = events.drop_first();
            let after = self.step(events[0]);
            assert forall|j: int| 0 <= j < rest.len() implies (
            #[trigger] rest[j] matches Event::Receive { data, .. } ==> data.len() > 0) by {
                assert(rest[j] == events[j + 1]);
            }
            self.law_reassembly_stays_sound(events[0]);
            match events[0] {
                Event::Receive { data, accepted } => {
                    self.law_window_never_passes_what_came(data, accepted);
                },
                _ => {},
            }
            after.law_next_number_follows_one_that_came(rest);
            let next = self.run(events).received_packets.sequence;
            assert(next == after.run(rest).received_packets.sequence);
            if next != after.received_packets.sequence {
                let j = choose|j: int|
                    0 <= j < rest.len() && (#[trigger] rest[j] matches Event::Receive {
                        data,
                        ..
                    } && next == (carried(data) + 1) % 0x1_0000);
                assert(events[j + 1] == rest[j]);
            }
        }
    }
}

} // verus!
