//! Laws of what is bounded: sizes on the network, memory, and what is counted.

use vstd::prelude::*;
use vstd::set_lib::{lemma_int_range, lemma_len_subset, lemma_map_size_bound, set_int_range};

use crate::config::{lemma_fragments_needed, Config, Counters};
use crate::laws::fragments::law_fragment_round_trip;
use crate::laws::history::Event;
use crate::laws::window::law_insert_is_found;
use crate::model::{DeliveryView, EndpointView};
use crate::packet::{
    has_flag, law_packet_header_round_trip, lemma_packet_header_layout, packet_header,
    parse_fragment_header, FragmentHeader, FLAG_FRAGMENT,
};
use crate::reassembly::{fragment_body, lemma_parsed_fragment, ReassemblyView};
use crate::sequence_buffer::{slot_of, SequenceBufferView};
use crate::FRAGMENT_HEADER_BYTES;

verus! {

/// A sequence buffer never has more entries than slots.
pub proof fn law_buffer_is_bounded<T>(buffer: SequenceBufferView<T>)
    requires
        buffer.wf(),
    ensures
        buffer.entries.dom().finite(),
        buffer.entries.dom().len() <= buffer.num_entries,
{
    let n = buffer.num_entries;
    let dom = buffer.entries.dom();
    let used = Set::new(
        |i: int| exists|s: u16| #[trigger] dom.contains(s) && slot_of(s as int, n) == i,
    );
    let number_in = |i: int| choose|s: u16| #[trigger] dom.contains(s) && slot_of(s as int, n) == i;
    assert forall|i: int| used.contains(i) implies set_int_range(0, n as int).contains(i) by {
        let s = choose|s: u16| #[trigger] dom.contains(s) && slot_of(s as int, n) == i;
        vstd::arithmetic::div_mod::lemma_mod_bound(s as int, n as int);
    }
    lemma_int_range(0, n as int);
    lemma_len_subset(used, set_int_range(0, n as int));
    assert forall|s: u16| dom.contains(s) implies #[trigger] used.map(number_in).contains(s) by {
        let i = slot_of(s as int, n);
        assert(used.contains(i));
        let t = number_in(i);
        assert(dom.contains(t) && slot_of(t as int, n) == i);
        assert(buffer.contains(s) && buffer.contains(t));
        assert(s == t);
    }
    assert(used.map(number_in) =~= dom);
    lemma_map_size_bound(used, dom, number_in);
}

/// Nothing bigger than the configuration allows is kept of a packet under reassembly, and
/// nothing at all once all of its fragments are there.
pub open spec fn entry_bounded(
    entry: ReassemblyView,
    max_fragments: int,
    fragment_size: int,
) -> bool {
    &&& 1 <= entry.total <= max_fragments
    &&& forall|i: int| #[trigger]
        entry.has_fragment(i) ==> 0 <= i < entry.total && entry.fragments[i].len()
            <= fragment_size
    &&& !entry.is_complete()
}

/// The packet header that came with the first fragment is one for the sequence number.
pub open spec fn header_is_for(entry: ReassemblyView, s: u16) -> bool {
    entry.has_fragment(0) ==> exists|ack: u16, ack_bits: u32|
        entry.header == #[trigger] packet_header(s, ack, ack_bits)
}

impl<I> EndpointView<I> {
    /// What is kept of every packet under reassembly is bounded, and belongs to that packet.
    pub open spec fn reassembly_sound(self) -> bool {
        forall|s: u16| #[trigger]
            self.fragment_reassembly.contains(s) ==> {
                &&& entry_bounded(
                    self.fragment_reassembly.entries[s],
                    self.config.max_fragments as int,
                    self.config.fragment_size as int,
                )
                &&& header_is_for(self.fragment_reassembly.entries[s], s)
            }
    }

    proof fn lemma_reassembling_sound(self, fragment: FragmentHeader)
        requires
            self.reassembly_sound(),
            1 <= fragment.num_fragments <= self.config.max_fragments,
        ensures
            self.reassembling(fragment).reassembly_sound(),
            self.reassembling(fragment).config == self.config,
            self.reassembling(fragment).fragment_reassembly.contains(fragment.sequence),
    {
        let s = fragment.sequence;
        let entry = ReassemblyView::started(fragment.num_fragments as nat);
        assert(!entry.has_fragment(0));
        law_insert_is_found(self.fragment_reassembly, s, entry);
        let after = self.reassembling(fragment).fragment_reassembly;
        assert forall|t: u16| #[trigger] after.contains(t) implies entry_bounded(
            after.entries[t],
            self.config.max_fragments as int,
            self.config.fragment_size as int,
        ) && header_is_for(after.entries[t], t) by {
            if !self.fragment_reassembly.contains(s) && t != s {
                assert(self.fragment_reassembly.inserted(s, entry).contains(t));
                assert(self.fragment_reassembly.contains(t));
            }
        }
    }

    proof fn lemma_store_sound(self, fragment: FragmentHeader, data: Seq<u8>)
        requires
            self.reassembly_sound(),
            self.fragment_reassembly.contains(fragment.sequence),
            fragment.fragment_id < self.fragment_reassembly.entries[fragment.sequence].total,
            fragment_body(fragment, data).len() <= self.config.fragment_size,
        ensures
            self.store_fragment(fragment, data).0.reassembly_sound(),
            self.store_fragment(fragment, data).0.config == self.config,
    {
        let s = fragment.sequence;
        let entry = self.fragment_reassembly.entries[s];
        let stored = entry.stored(
            fragment.fragment_id as int,
            packet_header(s, fragment.ack, fragment.ack_bits),
            fragment_body(fragment, data),
        );
        assert forall|i: int| #[trigger] stored.has_fragment(i) implies 0 <= i < stored.total
            && stored.fragments[i].len() <= self.config.fragment_size by {
            assert(i == fragment.fragment_id || entry.has_fragment(i));
        }
        lemma_stored_header(entry, stored, fragment, s);
        let after = self.store_fragment(fragment, data).0.fragment_reassembly;
        assert forall|t: u16| #[trigger] after.contains(t) implies entry_bounded(
            after.entries[t],
            self.config.max_fragments as int,
            self.config.fragment_size as int,
        ) && header_is_for(after.entries[t], t) by {
            assert(self.fragment_reassembly.contains(t));
        }
    }

    proof fn lemma_open_sound(self, data: Seq<u8>)
        requires
            self.reassembly_sound(),
        ensures
            self.open(data).0.reassembly_sound(),
            self.open(data).0.config == self.config,
    {
        let parsed = parse_fragment_header(
            data,
            self.config.max_fragments as int,
            self.config.fragment_size as int,
        );
        lemma_parsed_fragment(
            data,
            self.config.max_fragments as int,
            self.config.fragment_size as int,
        );
        if parsed is Some {
            let fragment = parsed.unwrap();
            self.lemma_reassembling_sound(fragment);
            let started = self.reassembling(fragment);
            let entry = started.fragment_reassembly.entries[fragment.sequence];
            if fragment.num_fragments == entry.total {
                started.lemma_store_sound(fragment, data.skip(FRAGMENT_HEADER_BYTES as int));
            }
        }
    }

    proof fn lemma_accept_sound(self, d: DeliveryView)
        requires
            self.reassembly_sound(),
        ensures
            self.accept(d).reassembly_sound(),
    {
        let inserted = self.inserting(d);
        assert forall|t: u16| #[trigger]
            inserted.fragment_reassembly.contains(t) implies self.fragment_reassembly.contains(t)
            && inserted.fragment_reassembly.entries[t] == self.fragment_reassembly.entries[t] by {}
        inserted.lemma_after_acks_frame(d.ack, d.ack_bits, 32);
        assert(self.accept(d).fragment_reassembly == inserted.fragment_reassembly);
    }

    /// Whatever comes in from the network, what is kept for reassembly stays bounded, and what
    /// is kept of a packet stays its own.
    pub proof fn law_reassembly_stays_sound(self, event: Event<I>)
        requires
            self.reassembly_sound(),
        ensures
            self.step(event).reassembly_sound(),
    {
        match event {
            Event::Receive { data, accepted } => {
                self.lemma_open_sound(data);
                let (opened, delivery) = self.open(data);
                match delivery {
                    Some(d) if accepted => {
                        opened.lemma_accept_sound(d);
                    },
                    _ => {},
                }
            },
            _ => {},
        }
    }

    /// A packet that is put together from fragments is delivered under the sequence number that
    /// the fragments came under.
    pub proof fn law_fragments_keep_their_number(self, data: Seq<u8>, fragment: FragmentHeader)
        requires
            self.reassembly_sound(),
            data.len() <= self.config.receive_limit(),
            parse_fragment_header(
                data,
                self.config.max_fragments as int,
                self.config.fragment_size as int,
            ) == Some(fragment),
        ensures
            self.open(data).1 matches Some(delivery) ==> delivery.sequence == fragment.sequence,
    {
        let s = fragment.sequence;
        lemma_parsed_fragment(
            data,
            self.config.max_fragments as int,
            self.config.fragment_size as int,
        );
        assert(self.open(data) == self.open_fragment(data));
        self.lemma_reassembling_sound(fragment);
        let started = self.reassembling(fragment);
        let entry = started.fragment_reassembly.entries[s];
        let header = packet_header(s, fragment.ack, fragment.ack_bits);
        let stored = entry.stored(
            fragment.fragment_id as int,
            header,
            fragment_body(fragment, data.skip(FRAGMENT_HEADER_BYTES as int)),
        );
        if self.open(data).1 is Some {
            assert(stored.is_complete());
            assert(stored.has_fragment(0));
            lemma_stored_header(entry, stored, fragment, s);
            let (ack, ack_bits) = choose|ack: u16, ack_bits: u32|
                stored.header == #[trigger] packet_header(s, ack, ack_bits);
            law_packet_header_round_trip(s, ack, ack_bits, stored.joined(stored.total));
        }
    }

    /// However long an endpoint runs and whatever comes in, what it keeps for reassembly is
    /// bounded, and what it keeps of a packet is its own.
    pub proof fn law_reassembly_is_sound(self, events: Seq<Event<I>>)
        requires
            self.reassembly_sound(),
        ensures
            self.run(events).reassembly_sound(),
        decreases events.len(),
    {
        if events.len() > 0 {
            self.law_reassembly_stays_sound(events[0]);
            self.step(events[0]).law_reassembly_is_sound(events.drop_first());
        }
    }

    /// The size of every datagram that is sent is within what an endpoint with the same
    /// configuration looks at, and there are no more of them than the configuration allows.
    pub proof fn law_datagrams_fit(self, data: Seq<u8>, i: int)
        requires
            self.config.valid(),
            data.len() > 0,
            0 <= i < self.datagrams(data).len(),
        ensures
            self.datagrams(data).len() <= self.config.max_fragments,
            0 < self.datagrams(data)[i].len() <= self.config.receive_limit(),
    {
        let size = self.config.fragment_size as int;
        lemma_packet_header_layout(
            self.sequence,
            self.received_packets.newest(),
            self.received_packets.ack_bits(),
        );
        if data.len() > self.config.fragment_above {
            lemma_fragments_needed(data.len() as int, size, self.config.max_fragments as int);
            law_fragment_round_trip(self, data, i, self.config.max_fragments as int);
        }
    }

    /// Every packet in one piece is either delivered or counted as dropped, for one reason.
    pub proof fn law_every_drop_is_counted(self, data: Seq<u8>)
        requires
            self.counters.room(),
            !has_flag(data[0], FLAG_FRAGMENT),
        ensures
            ({
                let (opened, delivery) = self.open(data);
                num_dropped(opened.counters) == num_dropped(self.counters) + (if delivery is Some {
                    0int
                } else {
                    1
                })
            }),
    {
    }

    /// A packet can be sent at any time, if the buffer for sent packets is smaller than half
    /// the number circle.
    pub proof fn law_can_always_send(self)
        requires
            self.wf(),
            self.config.sent_packets_buffer_size < 0x8000,
        ensures
            self.can_send(),
    {
    }
}

impl<I> EndpointView<I> {
    /// Of the packets that packet loss is judged by, no more are lost than were sent, and no
    /// more were sent than are looked at.
    pub proof fn law_loss_is_a_part(self, n: nat)
        ensures
            self.num_dropped(n) <= self.num_sent(n) <= n,
        decreases n,
    {
        if n > 0 {
            self.law_loss_is_a_part((n - 1) as nat);
        }
    }
}

proof fn lemma_stored_header(
    entry: ReassemblyView,
    stored: ReassemblyView,
    fragment: FragmentHeader,
    s: u16,
)
    requires
        header_is_for(entry, s),
        fragment.sequence == s,
        exists|bytes: Seq<u8>|
            stored == #[trigger] entry.stored(
                fragment.fragment_id as int,
                packet_header(s, fragment.ack, fragment.ack_bits),
                bytes,
            ),
    ensures
        header_is_for(stored, s),
{
    if fragment.fragment_id != 0 && stored.has_fragment(0) {
        assert(entry.has_fragment(0));
    }
}

/// The packets that were dropped on receive.
pub open spec fn num_dropped(counters: Counters) -> int {
    counters.num_packets_invalid + counters.num_packets_stale + counters.num_packets_duplicate
        + counters.num_packets_too_large_to_receive
}

/// A new endpoint has nothing under reassembly.
pub proof fn law_new_endpoint_is_sound<I>(config: Config, time: I)
    ensures
        EndpointView::initial(config, time).reassembly_sound(),
{
}

} // verus!
