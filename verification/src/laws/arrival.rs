//! Laws of the arrival of a packet, in one piece or in fragments alike.

use vstd::prelude::*;
use vstd::set_lib::{lemma_int_range, set_int_range};

use crate::config::{lemma_fragments_needed, Config, Counters};
use crate::laws::delivery::law_packet_arrives;
use crate::laws::fragments::{
    can_fragment, can_reassemble, holds_all_but, holds_fragment, law_fragment_arrives,
    law_fragments_arrive_in_any_order, lemma_first_delivery,
};
use crate::model::{DeliveryView, EndpointView, ReceivedPacketData};
use crate::reassembly::ReassemblyView;
use crate::sequence::seq_behind;
use crate::sequence_buffer::SequenceBufferView;

verus! {

impl<I> EndpointView<I> {
    /// The state after the datagrams have come in one after the other, at a receiver that
    /// accepts every packet it is handed.
    pub open spec fn after_all(self, datagrams: Seq<Seq<u8>>) -> Self
        decreases datagrams.len(),
    {
        if datagrams.len() == 0 {
            self
        } else {
            self.after_receive(datagrams[0], true).after_all(datagrams.drop_first())
        }
    }
}

/// The packet can arrive: it is neither too large nor stale nor a duplicate, and if it comes in
/// fragments there is a place for them.
pub open spec fn can_arrive<I>(
    sender: EndpointView<I>,
    receiver: EndpointView<I>,
    data: Seq<u8>,
) -> bool {
    &&& 0 < data.len() <= sender.config.max_packet_size
    &&& data.len() <= receiver.config.max_packet_size
    &&& if data.len() <= sender.config.fragment_above {
        &&& !receiver.received_packets.is_stale(sender.sequence)
        &&& !receiver.received_packets.contains(sender.sequence)
    } else {
        &&& can_fragment(sender, receiver, data)
        &&& can_reassemble(sender, receiver, data)
        &&& !receiver.fragment_reassembly.contains(sender.sequence)
    }
}

/// Each datagram of a packet, once, in some order.
pub open spec fn each_once(order: Seq<int>, count: nat) -> bool {
    &&& order.no_duplicates()
    &&& forall|i: int| 0 <= i < order.len() ==> 0 <= #[trigger] order[i] < count
    &&& forall|j: int| 0 <= j < count ==> order.contains(j)
}

/// The counters after so many fragments and one packet have been received. What the packet
/// acknowledges is counted apart.
pub open spec fn received_one(counters: Counters, fragments: nat, acked: u64) -> Counters {
    Counters {
        num_packets_received: (counters.num_packets_received + 1) as u64,
        num_fragments_received: (counters.num_fragments_received + fragments) as u64,
        num_packets_acked: acked,
        ..counters
    }
}

/// How many fragments a packet is sent as: none if it is sent in one piece.
pub open spec fn fragments_of<I>(sender: EndpointView<I>, data: Seq<u8>) -> nat {
    if data.len() <= sender.config.fragment_above {
        0
    } else {
        sender.datagrams(data).len()
    }
}

proof fn lemma_counters_of_accept<I>(opened: EndpointView<I>, d: DeliveryView)
    ensures
        opened.accept(d).counters == (Counters {
            num_packets_acked: opened.accept(d).counters.num_packets_acked,
            ..opened.counters
        }),
{
    opened.inserting(d).lemma_after_acks_frame(d.ack, d.ack_bits, 32);
}

proof fn lemma_first_of<I>(
    sender: EndpointView<I>,
    receiver: EndpointView<I>,
    data: Seq<u8>,
    order: Seq<int>,
)
    requires
        order.len() > 0,
    ensures
        receiver.after_all(sender.datagrams_in_order(data, order)) == receiver.after_receive(
            sender.datagrams(data)[order[0]],
            true,
        ).after_all(sender.datagrams_in_order(data, order.drop_first())),
{
    let datagrams = sender.datagrams_in_order(data, order);
    assert(datagrams.drop_first() =~= sender.datagrams_in_order(data, order.drop_first()));
    assert(datagrams[0] == sender.datagrams(data)[order[0]]);
}

/// The fragments still to come are those that are not held yet, each once.
spec fn the_rest<I>(
    sender: EndpointView<I>,
    receiver: EndpointView<I>,
    count: nat,
    order: Seq<int>,
) -> bool {
    &&& order.len() > 0
    &&& order.no_duplicates()
    &&& forall|i: int|
        0 <= i < order.len() ==> 0 <= #[trigger] order[i] < count && !holds_fragment(
            sender,
            receiver,
            order[i],
        )
    &&& forall|j: int|
        0 <= j < count ==> #[trigger] holds_fragment(sender, receiver, j) || order.contains(j)
}

proof fn lemma_counters_of_fragments<I>(
    sender: EndpointView<I>,
    receiver: EndpointView<I>,
    data: Seq<u8>,
    order: Seq<int>,
)
    requires
        can_fragment(sender, receiver, data),
        can_reassemble(sender, receiver, data),
        the_rest(sender, receiver, sender.datagrams(data).len(), order),
        receiver.counters.num_packets_received < u64::MAX,
        receiver.counters.num_fragments_received + order.len() <= u64::MAX,
    ensures
        ({
            let after = receiver.after_all(sender.datagrams_in_order(data, order)).counters;
            after == received_one(receiver.counters, order.len(), after.num_packets_acked)
        }),
    decreases order.len(),
{
    let count = sender.datagrams(data).len();
    let id = order[0];
    let rest = order.drop_first();
    let datagram = sender.datagrams(data)[id];
    let (opened, delivery) = receiver.open(datagram);
    let after = receiver.after_receive(datagram, true);
    law_fragment_arrives(sender, receiver, data, id);
    lemma_first_of(sender, receiver, data, order);
    if rest.len() == 0 {
        assert forall|j: int| 0 <= j < count && j != id implies holds_fragment(
            sender,
            receiver,
            j,
        ) by {
            assert(holds_fragment(sender, receiver, j) || order.contains(j));
        }
        assert(holds_all_but(sender, receiver, data, id));
        lemma_counters_of_accept(opened, sender.outgoing(data));
        assert(after == opened.accept(sender.outgoing(data)));
        assert(after.after_all(sender.datagrams_in_order(data, rest)) == after);
    } else {
        assert(rest[0] == order[1]);
        assert(!holds_fragment(sender, receiver, order[1]));
        assert(!holds_all_but(sender, receiver, data, id));
        assert(after == opened);
        lemma_rest_after(sender, receiver, after, count, order);
        lemma_counters_of_fragments(sender, after, data, rest);
    }
}

proof fn lemma_rest_after<I>(
    sender: EndpointView<I>,
    receiver: EndpointView<I>,
    after: EndpointView<I>,
    count: nat,
    order: Seq<int>,
)
    requires
        the_rest(sender, receiver, count, order),
        order.len() > 1,
        forall|j: int| #[trigger]
            holds_fragment(sender, after, j) <==> j == order[0] || holds_fragment(
                sender,
                receiver,
                j,
            ),
    ensures
        the_rest(sender, after, count, order.drop_first()),
{
    let rest = order.drop_first();
    assert forall|i: int| 0 <= i < rest.len() implies 0 <= #[trigger] rest[i] < count
        && !holds_fragment(sender, after, rest[i]) by {
        assert(rest[i] == order[i + 1]);
        assert(order[i + 1] != order[0]);
        assert(!holds_fragment(sender, receiver, order[i + 1]));
    }
    assert forall|j: int| 0 <= j < count implies #[trigger] holds_fragment(sender, after, j)
        || rest.contains(j) by {
        if !holds_fragment(sender, receiver, j) && j != order[0] {
            assert(order.contains(j));
            let k = choose|k: int| 0 <= k < order.len() && order[k] == j;
            assert(rest[k - 1] == j);
        }
    }
    assert forall|a: int, b: int| 0 <= a < b < rest.len() implies rest[a] != rest[b] by {
        assert(order[a + 1] != order[b + 1]);
    }
}

/// A packet arrives exactly once: whether it is sent in one piece or in fragments, and in
/// whatever order its datagrams come in, it is delivered as it was sent with the last of them
/// and not before. One packet is counted as received, and every fragment of it; nothing is
/// counted as invalid, stale, duplicate or too large.
pub proof fn law_packet_arrives_once<I>(
    sender: EndpointView<I>,
    receiver: EndpointView<I>,
    data: Seq<u8>,
    order: Seq<int>,
)
    requires
        can_arrive(sender, receiver, data),
        each_once(order, sender.datagrams(data).len()),
        receiver.counters.num_packets_received < u64::MAX,
        receiver.counters.num_fragments_received + fragments_of(sender, data) <= u64::MAX,
    ensures
        order.len() > 0,
        receiver.deliveries(sender.datagrams_in_order(data, order)) == seq![sender.outgoing(data)],
        receiver.deliveries(sender.datagrams_in_order(data, order.drop_last())) == Seq::<
            DeliveryView,
        >::empty(),
        ({
            let after = receiver.after_all(sender.datagrams_in_order(data, order)).counters;
            after == received_one(
                receiver.counters,
                fragments_of(sender, data),
                after.num_packets_acked,
            )
        }),
{
    let count = sender.datagrams(data).len();
    lemma_each_once_len(order, count);
    if data.len() <= sender.config.fragment_above {
        lemma_whole_arrives_once(sender, receiver, data, order);
    } else {
        lemma_fragments_needed(data.len() as int, sender.config.fragment_size as int, 0);
        assert(order.contains(0));
        law_fragments_arrive_in_any_order(sender, receiver, data, order);
        let most = order.drop_last();
        assert forall|i: int| 0 <= i < most.len() implies 0 <= #[trigger] most[i] < count by {
            assert(most[i] == order[i]);
        }
        law_fragments_arrive_in_any_order(sender, receiver, data, most);
        let last = order.last();
        if most.contains(last) {
            let k = choose|k: int| 0 <= k < most.len() && most[k] == last;
            assert(order[k] == order[order.len() - 1]);
        }
        assert(the_rest(sender, receiver, count, order));
        lemma_counters_of_fragments(sender, receiver, data, order);
    }
}

proof fn lemma_whole_arrives_once<I>(
    sender: EndpointView<I>,
    receiver: EndpointView<I>,
    data: Seq<u8>,
    order: Seq<int>,
)
    requires
        can_arrive(sender, receiver, data),
        data.len() <= sender.config.fragment_above,
        each_once(order, sender.datagrams(data).len()),
        order.len() == sender.datagrams(data).len(),
        receiver.counters.num_packets_received < u64::MAX,
    ensures
        order.len() == 1,
        receiver.deliveries(sender.datagrams_in_order(data, order)) == seq![sender.outgoing(data)],
        receiver.deliveries(sender.datagrams_in_order(data, order.drop_last())) == Seq::<
            DeliveryView,
        >::empty(),
        ({
            let after = receiver.after_all(sender.datagrams_in_order(data, order)).counters;
            after == received_one(receiver.counters, 0, after.num_packets_acked)
        }),
{
    let d = sender.outgoing(data);
    law_packet_arrives(sender, receiver, data);
    assert(order[0] == 0);
    let datagram = sender.datagrams(data)[0];
    let after = receiver.after_receive(datagram, true);
    lemma_first_of(sender, receiver, data, order);
    lemma_first_delivery(sender, receiver, data, order);
    lemma_counters_of_accept(receiver.packet_received(), d);
    assert(after == receiver.packet_received().accept(d));
    let rest = sender.datagrams_in_order(data, order.drop_first());
    assert(rest.len() == 0);
    assert(after.deliveries(rest) == Seq::<DeliveryView>::empty());
    assert(seq![d] + Seq::<DeliveryView>::empty() =~= seq![d]);
}

/// Each of so many once is that many.
proof fn lemma_each_once_len(order: Seq<int>, count: nat)
    requires
        each_once(order, count),
    ensures
        order.len() == count,
{
    order.unique_seq_to_set();
    lemma_int_range(0, count as int);
    assert forall|j: int| #[trigger] order.to_set().contains(j) <==> set_int_range(
        0,
        count as int,
    ).contains(j) by {
        if order.to_set().contains(j) {
            assert(order.contains(j));
            let k = choose|k: int| 0 <= k < order.len() && order[k] == j;
            assert(0 <= order[k] < count);
        }
        if 0 <= j < count {
            assert(order.contains(j));
        }
    }
    assert(order.to_set() =~= set_int_range(0, count as int));
}

/// With nothing sent, no ack is news.
proof fn lemma_nothing_to_ack<I>(endpoint: EndpointView<I>, ack: u16, ack_bits: u32, n: nat)
    requires
        endpoint.sent_packets.entries.dom() == Set::<u16>::empty(),
    ensures
        endpoint.after_acks(ack, ack_bits, n) == endpoint,
    decreases n,
{
    if n > 0 {
        lemma_nothing_to_ack(endpoint, ack, ack_bits, (n - 1) as nat);
    }
}

proof fn lemma_nothing_acked<I>(endpoint: EndpointView<I>, datagrams: Seq<Seq<u8>>)
    requires
        endpoint.sent_packets.entries.dom() == Set::<u16>::empty(),
    ensures
        endpoint.after_all(datagrams).counters.num_packets_acked
            == endpoint.counters.num_packets_acked,
    decreases datagrams.len(),
{
    if datagrams.len() > 0 {
        let datagram = datagrams[0];
        let (opened, delivery) = endpoint.open(datagram);
        endpoint.law_open_keeps_sending_side(datagram);
        if delivery is Some {
            let d = delivery.unwrap();
            lemma_nothing_to_ack(opened.inserting(d), d.ack, d.ack_bits, 32);
            assert(endpoint.after_receive(datagram, true) == opened.inserting(d));
        }
        lemma_nothing_acked(endpoint.after_receive(datagram, true), datagrams.drop_first());
    }
}

proof fn lemma_zero_is_not_stale<T>(n: nat)
    requires
        n > 0,
    ensures
        n % 0x1_0000 < 0x8000 ==> !SequenceBufferView::<T>::empty(n).is_stale(0),
        1 <= n % 0x1_0000 <= 0x8000 ==> !SequenceBufferView::<T>::empty(n).advanced(0).is_stale(0),
        SequenceBufferView::<T>::empty(n).advances(0),
{
    let buffer = SequenceBufferView::<T>::empty(n);
    let moved = buffer.advanced(0);
    assert(buffer.advances(0));
    assert(moved.sequence == 1);
    assert(seq_behind(0, 1) == 1);
    assert(moved.in_window(0, moved.sequence));
    assert(!moved.superseded(0));
    let r = n % 0x1_0000;
    let q = n / 0x1_0000;
    assert(n == q * 0x1_0000 + r);
    if r < 0x8000 {
        assert(buffer.can_insert(0));
    }
    if 1 <= r <= 0x8000 {
        assert(moved.can_insert(0));
    }
}

/// The first packet is not taken for a stale one. It would be in a window that reaches further
/// than half way around the number circle, counted modulo the circle, and a packet in fragments
/// also in a window of the whole circle.
pub open spec fn window_fits(config: Config, data: Seq<u8>) -> bool {
    let reach = config.received_packets_buffer_size as int % 0x1_0000;
    if data.len() <= config.fragment_above {
        reach < 0x8000
    } else {
        1 <= reach <= 0x8000
    }
}

proof fn lemma_new_endpoint_can_receive<I>(config: Config, sent: I, received: I, data: Seq<u8>)
    requires
        config.valid(),
        0 < data.len() <= config.max_packet_size,
        window_fits(config, data),
    ensures
        can_arrive(
            EndpointView::initial(config, sent),
            EndpointView::initial(config, received),
            data,
        ),
{
    let n = config.received_packets_buffer_size as nat;
    lemma_fragments_needed(
        data.len() as int,
        config.fragment_size as int,
        config.max_fragments as int,
    );
    lemma_zero_is_not_stale::<ReceivedPacketData<I>>(n);
    lemma_zero_is_not_stale::<ReassemblyView>(config.fragment_reassembly_buffer_size as nat);
}

/// Between two new endpoints with the same configuration every packet arrives, in whatever
/// order its datagrams come in: it is delivered once, under the sequence number zero, and
/// nothing is counted but that.
pub proof fn law_first_packet_arrives<I>(
    config: Config,
    sent: I,
    received: I,
    data: Seq<u8>,
    order: Seq<int>,
)
    requires
        config.valid(),
        0 < data.len() <= config.max_packet_size,
        window_fits(config, data),
        each_once(order, EndpointView::initial(config, sent).datagrams(data).len()),
    ensures
        ({
            let sender = EndpointView::initial(config, sent);
            let receiver = EndpointView::initial(config, received);
            let datagrams = sender.datagrams_in_order(data, order);
            &&& receiver.deliveries(datagrams) == seq![sender.outgoing(data)]
            &&& sender.outgoing(data).sequence == 0
            &&& sender.outgoing(data).payload == data
            &&& receiver.deliveries(sender.datagrams_in_order(data, order.drop_last())) == Seq::<
                DeliveryView,
            >::empty()
            &&& receiver.after_all(datagrams).counters == (Counters {
                num_packets_received: 1,
                num_fragments_received: fragments_of(sender, data) as u64,
                ..Counters::zero()
            })
        }),
{
    let sender = EndpointView::initial(config, sent);
    let receiver = EndpointView::initial(config, received);
    lemma_new_endpoint_can_receive(config, sent, received, data);
    lemma_fragments_needed(
        data.len() as int,
        config.fragment_size as int,
        config.max_fragments as int,
    );
    assert(fragments_of(sender, data) <= 256);
    law_packet_arrives_once(sender, receiver, data, order);
    assert(receiver.sent_packets.entries.dom() =~= Set::<u16>::empty());
    lemma_nothing_acked(receiver, sender.datagrams_in_order(data, order));
}

} // verus!
