//! Laws of fragmentation and reassembly.

use vstd::prelude::*;

use crate::config::lemma_fragments_needed;
use crate::laws::delivery::lemma_open_whole;
use crate::laws::window::{
    half_way, law_advance_keeps_the_window, law_insert_keeps_the_window, lemma_steps,
    slots_follow_on, window_end,
};
use crate::model::{fragment_datagram, fragment_of, num_fragments, DeliveryView, EndpointView};
use crate::packet::{
    fragment_header, fragment_size_fits, from_le_bytes, law_packet_header_round_trip,
    lemma_packet_header_layout, packet_header, parse_fragment_header, FragmentHeader,
};
use crate::reassembly::{fragment_body, ReassemblyView};
use crate::sequence::{seq_add, seq_behind, seq_distance};
use crate::sequence_buffer::{lemma_placed, SequenceBufferView};
use crate::FRAGMENT_HEADER_BYTES;

verus! {

/// Where a fragment of a packet starts, and how long it is.
proof fn lemma_fragment_bounds(data: Seq<u8>, i: int, fragment_size: nat)
    requires
        data.len() > 0,
        fragment_size > 0,
        0 <= i < num_fragments(data.len(), fragment_size),
    ensures
        0 <= i * fragment_size < data.len(),
        fragment_of(data, i, fragment_size).len() <= fragment_size,
        fragment_of(data, i, fragment_size).len() <= data.len(),
        i < num_fragments(data.len(), fragment_size) - 1 ==> i * fragment_size + fragment_size
            < data.len() && fragment_of(data, i, fragment_size).len() == fragment_size,
        i == num_fragments(data.len(), fragment_size) - 1 ==> i * fragment_size + fragment_size
            >= data.len(),
        (i + 1) * fragment_size == i * fragment_size + fragment_size,
{
    let len = data.len() as int;
    let size = fragment_size as int;
    lemma_fragments_needed(len, size, i);
    lemma_fragments_needed(len, size, i + 1);
    assert((i + 1) * size == i * size + size) by (nonlinear_arith);
    assert(0 <= i * size) by (nonlinear_arith)
        requires
            0 <= i,
            0 < size,
    ;
}

/// A packet under reassembly holds nothing but fragments of the given packet.
pub open spec fn agrees(
    entry: ReassemblyView,
    header: Seq<u8>,
    data: Seq<u8>,
    fragment_size: nat,
) -> bool {
    &&& entry.total == num_fragments(data.len(), fragment_size)
    &&& forall|i: int| #[trigger]
        entry.has_fragment(i) ==> 0 <= i < entry.total && entry.fragments[i] == fragment_of(
            data,
            i,
            fragment_size,
        )
    &&& entry.has_fragment(0) ==> entry.header == header
}

proof fn lemma_joined(
    entry: ReassemblyView,
    header: Seq<u8>,
    data: Seq<u8>,
    fragment_size: nat,
    n: nat,
)
    requires
        data.len() > 0,
        fragment_size > 0,
        agrees(entry, header, data, fragment_size),
        entry.is_complete(),
        n <= entry.total,
    ensures
        entry.joined(n) == (if n * fragment_size < data.len() {
            data.take((n * fragment_size) as int)
        } else {
            data
        }),
    decreases n,
{
    if n == 0 {
        assert(n * fragment_size == 0) by (nonlinear_arith)
            requires
                n == 0,
        ;
        assert(entry.joined(0) =~= data.take(0));
    } else {
        let i = n - 1;
        lemma_joined(entry, header, data, fragment_size, i as nat);
        lemma_fragment_bounds(data, i, fragment_size);
        assert(entry.has_fragment(i));
        if n * fragment_size < data.len() {
            assert(entry.joined(n) =~= data.take((n * fragment_size) as int));
        } else {
            assert(entry.joined(n) =~= data);
        }
    }
}

/// Putting all the fragments of a packet together gives the packet back.
pub proof fn law_fragments_make_up_the_packet(
    entry: ReassemblyView,
    header: Seq<u8>,
    data: Seq<u8>,
    fragment_size: nat,
)
    requires
        data.len() > 0,
        fragment_size > 0,
        agrees(entry, header, data, fragment_size),
        entry.is_complete(),
    ensures
        entry.packet() == header + data,
{
    let n = entry.total;
    lemma_joined(entry, header, data, fragment_size, n);
    lemma_fragment_bounds(data, n - 1, fragment_size);
    assert(entry.has_fragment(0));
}

/// What a fragment says of itself: which one it is, of how many, of which packet. The acks
/// are those of the packet header, which the first fragment carries.
pub open spec fn fragment_says<I>(
    sender: EndpointView<I>,
    data: Seq<u8>,
    fragment_id: int,
) -> FragmentHeader {
    FragmentHeader {
        bytes: FRAGMENT_HEADER_BYTES,
        fragment_id: fragment_id as usize,
        num_fragments: num_fragments(data.len(), sender.config.fragment_size as nat) as usize,
        sequence: sender.sequence,
        ack: if fragment_id == 0 {
            sender.received_packets.newest()
        } else {
            0
        },
        ack_bits: if fragment_id == 0 {
            sender.received_packets.ack_bits()
        } else {
            0
        },
    }
}

/// Reading the header of a fragment gives back what was written, and behind it are the bytes
/// of the packet that the fragment carries.
pub proof fn law_fragment_round_trip<I>(
    sender: EndpointView<I>,
    data: Seq<u8>,
    fragment_id: int,
    max_fragments: int,
)
    requires
        data.len() > 0,
        sender.config.fragment_size > 0,
        0 <= fragment_id < num_fragments(data.len(), sender.config.fragment_size as nat),
        num_fragments(data.len(), sender.config.fragment_size as nat) <= max_fragments <= 256,
    ensures
        ({
            let size = sender.config.fragment_size as nat;
            let datagram = fragment_datagram(
                sender.sequence,
                sender.next_header(),
                data,
                fragment_id,
                size,
            );
            let fragment = fragment_says(sender, data, fragment_id);
            &&& parse_fragment_header(datagram, max_fragments, size as int) == Some(fragment)
            &&& fragment_body(fragment, datagram.skip(FRAGMENT_HEADER_BYTES as int))
                == fragment_of(data, fragment_id, size)
            &&& fragment_id == 0 ==> packet_header(
                fragment.sequence,
                fragment.ack,
                fragment.ack_bits,
            ) == sender.next_header()
            &&& datagram[0] == 1
            &&& datagram.len() <= data.len() + 14
        }),
{
    let size = sender.config.fragment_size as nat;
    let s = sender.sequence;
    let count = num_fragments(data.len(), size);
    let ack = sender.received_packets.newest();
    let ack_bits = sender.received_packets.ack_bits();
    let part = fragment_of(data, fragment_id, size);
    lemma_fragment_bounds(data, fragment_id, size);
    lemma_packet_header_layout(s, ack, ack_bits);
    if fragment_id == 0 {
        lemma_first_fragment(s, ack, ack_bits, count, part, max_fragments, size as int);
    } else {
        lemma_later_fragment(s, fragment_id, count, part, max_fragments, size as int);
    }
}

/// Where the parts of a fragment stand on the wire.
proof fn lemma_fragment_layout(s: u16, id: int, count: int, header: Seq<u8>, part: Seq<u8>)
    requires
        0 <= id < count <= 256,
    ensures
        ({
            let datagram = fragment_header(s, id, count) + header + part;
            &&& datagram.len() == 5 + header.len() + part.len()
            &&& datagram[0] == 1
            &&& from_le_bytes(datagram[1], datagram[2]) == s
            &&& datagram[3] == id
            &&& datagram[4] == count - 1
            &&& datagram.skip(5) == header + part
        }),
{
    let front = fragment_header(s, id, count);
    let datagram = front + header + part;
    assert(front.len() == 5);
    assert(forall|i: int| 0 <= i < 5 ==> datagram[i] == front[i]);
    assert(datagram.skip(5) =~= header + part);
}

proof fn lemma_first_fragment(
    s: u16,
    ack: u16,
    ack_bits: u32,
    count: int,
    part: Seq<u8>,
    max_fragments: int,
    size: int,
)
    requires
        0 < count <= max_fragments <= 256,
        fragment_size_fits(part.len() as int, 0, count, size),
    ensures
        ({
            let header = packet_header(s, ack, ack_bits);
            let datagram = fragment_header(s, 0, count) + header + part;
            &&& parse_fragment_header(datagram, max_fragments, size) == Some(
                FragmentHeader {
                    bytes: FRAGMENT_HEADER_BYTES,
                    fragment_id: 0,
                    num_fragments: count as usize,
                    sequence: s,
                    ack,
                    ack_bits,
                },
            )
            &&& datagram.skip(FRAGMENT_HEADER_BYTES as int).skip(header.len() as int) == part
            &&& datagram[0] == 1
            &&& datagram.len() == 5 + header.len() + part.len()
        }),
{
    let header = packet_header(s, ack, ack_bits);
    let datagram = fragment_header(s, 0, count) + header + part;
    let rest = datagram.skip(FRAGMENT_HEADER_BYTES as int);
    lemma_fragment_layout(s, 0, count, header, part);
    lemma_packet_header_layout(s, ack, ack_bits);
    law_packet_header_round_trip(s, ack, ack_bits, part);
    assert(rest.take(header.len() as int) =~= header);
    assert(rest.skip(header.len() as int) =~= part);
}

proof fn lemma_later_fragment(
    s: u16,
    fragment_id: int,
    count: int,
    part: Seq<u8>,
    max_fragments: int,
    size: int,
)
    requires
        0 < fragment_id < count <= max_fragments <= 256,
        fragment_size_fits(part.len() as int, fragment_id, count, size),
    ensures
        ({
            let datagram = fragment_header(s, fragment_id, count) + Seq::<u8>::empty() + part;
            &&& parse_fragment_header(datagram, max_fragments, size) == Some(
                FragmentHeader {
                    bytes: FRAGMENT_HEADER_BYTES,
                    fragment_id: fragment_id as usize,
                    num_fragments: count as usize,
                    sequence: s,
                    ack: 0,
                    ack_bits: 0,
                },
            )
            &&& datagram.skip(FRAGMENT_HEADER_BYTES as int) == part
            &&& datagram[0] == 1
            &&& datagram.len() == 5 + part.len()
        }),
{
    lemma_fragment_layout(s, fragment_id, count, Seq::empty(), part);
    assert(Seq::<u8>::empty() + part =~= part);
}

/// A packet that one endpoint splits into fragments is one that the other can put together:
/// both split at the same size, and the other takes that many fragments and bytes.
pub open spec fn can_fragment<I>(
    sender: EndpointView<I>,
    receiver: EndpointView<I>,
    data: Seq<u8>,
) -> bool {
    let count = num_fragments(data.len(), sender.config.fragment_size as nat);
    &&& sender.config.fragment_size > 0
    &&& sender.config.fragment_size == receiver.config.fragment_size
    &&& sender.config.fragment_above < data.len() <= sender.config.max_packet_size
    &&& data.len() <= receiver.config.max_packet_size
    &&& count <= receiver.config.max_fragments <= 256
}

/// The receiver already has the fragment of the packet that is to be sent.
pub open spec fn holds_fragment<I>(
    sender: EndpointView<I>,
    receiver: EndpointView<I>,
    fragment_id: int,
) -> bool {
    let buffer = receiver.fragment_reassembly;
    buffer.contains(sender.sequence) && buffer.entries[sender.sequence].has_fragment(fragment_id)
}

/// The receiver has not received the packet yet but can: the packet is under reassembly or
/// there is a place for it, and it will not be stale once it has been put together.
pub open spec fn can_reassemble<I>(
    sender: EndpointView<I>,
    receiver: EndpointView<I>,
    data: Seq<u8>,
) -> bool {
    let s = sender.sequence;
    let buffer = receiver.fragment_reassembly;
    &&& !receiver.received_packets.contains(s)
    &&& receiver.can_reassemble(s)
    &&& if buffer.contains(s) {
        &&& agrees(
            buffer.entries[s],
            sender.next_header(),
            data,
            sender.config.fragment_size as nat,
        )
        &&& !receiver.received_packets.is_stale(s)
    } else {
        !receiver.received_packets.advanced(s).is_stale(s)
    }
}

/// The receiver has all fragments of the packet but, possibly, one.
pub open spec fn holds_all_but<I>(
    sender: EndpointView<I>,
    receiver: EndpointView<I>,
    data: Seq<u8>,
    fragment_id: int,
) -> bool {
    forall|j: int|
        0 <= j < num_fragments(data.len(), sender.config.fragment_size as nat) && j != fragment_id
            ==> holds_fragment(sender, receiver, j)
}

/// A fragment that arrives is kept until the others are there, and with the last one missing
/// the packet is delivered as it was sent, in whatever order they came. A fragment that
/// arrives again changes nothing.
pub proof fn law_fragment_arrives<I>(
    sender: EndpointView<I>,
    receiver: EndpointView<I>,
    data: Seq<u8>,
    fragment_id: int,
)
    requires
        can_fragment(sender, receiver, data),
        can_reassemble(sender, receiver, data),
        0 <= fragment_id < sender.datagrams(data).len(),
    ensures
        ({
            let (opened, delivery) = receiver.open(sender.datagrams(data)[fragment_id]);
            let last = !holds_fragment(sender, receiver, fragment_id) && holds_all_but(
                sender,
                receiver,
                data,
                fragment_id,
            );
            &&& opened.config == receiver.config
            &&& delivery == (if last {
                Some(sender.outgoing(data))
            } else {
                None
            })
            &&& opened.counters == (if holds_fragment(sender, receiver, fragment_id) {
                receiver.counters
            } else if last {
                receiver.fragment_received().packet_received().counters
            } else {
                receiver.fragment_received().counters
            })
            &&& !last ==> can_reassemble(sender, opened, data)
            &&& !last ==> forall|j: int| #[trigger]
                holds_fragment(sender, opened, j) <==> j == fragment_id || holds_fragment(
                    sender,
                    receiver,
                    j,
                )
        }),
{
    let s = sender.sequence;
    let size = sender.config.fragment_size as nat;
    let header = sender.next_header();
    let count = num_fragments(data.len(), size);
    let datagram = sender.datagrams(data)[fragment_id];
    let fragment = fragment_says(sender, data, fragment_id);
    law_fragment_round_trip(sender, data, fragment_id, receiver.config.max_fragments as int);
    assert(datagram == fragment_datagram(s, header, data, fragment_id, size));
    assert(receiver.open(datagram) == receiver.open_fragment(datagram));
    let started = receiver.reassembling(fragment);
    let entry = started.fragment_reassembly.entries[s];
    assert(started.fragment_reassembly.contains(s));
    assert(agrees(entry, header, data, size));
    assert(!started.received_packets.is_stale(s));
    assert(!started.received_packets.contains(s));
    assert forall|j: int| entry.has_fragment(j) == holds_fragment(sender, receiver, j) by {}
    if !entry.has_fragment(fragment_id) {
        let stored = entry.stored(
            fragment_id,
            packet_header(fragment.sequence, fragment.ack, fragment.ack_bits),
            fragment_of(data, fragment_id, size),
        );
        assert forall|i: int| #[trigger] stored.has_fragment(i) implies 0 <= i < stored.total
            && stored.fragments[i] == fragment_of(data, i, size) by {
            assert(i == fragment_id || entry.has_fragment(i));
        }
        assert(entry.has_fragment(0) ==> entry.header == header);
        assert(stored.has_fragment(0) ==> stored.header == header);
        assert(agrees(stored, header, data, size));
        assert forall|j: int|
            stored.has_fragment(j) == (j == fragment_id || holds_fragment(sender, receiver, j)) by {}
        if stored.is_complete() {
            assert forall|j: int| 0 <= j < count && j != fragment_id implies holds_fragment(
                sender,
                receiver,
                j,
            ) by {
                assert(stored.has_fragment(j));
            }
            law_fragments_make_up_the_packet(stored, header, data, size);
            let removed = EndpointView {
                fragment_reassembly: started.fragment_reassembly.removed(s),
                ..started.fragment_received()
            };
            lemma_open_whole(sender, removed, data);
        } else {
            let missing = choose|j: int| 0 <= j < stored.total && !stored.has_fragment(j);
            assert(!holds_fragment(sender, receiver, missing));
        }
    }
}

impl<I> EndpointView<I> {
    /// The packets that a receiver which accepts them all is handed when the datagrams come
    /// in one after the other.
    pub open spec fn deliveries(self, datagrams: Seq<Seq<u8>>) -> Seq<DeliveryView>
        decreases datagrams.len(),
    {
        if datagrams.len() == 0 {
            Seq::empty()
        } else {
            (match self.open(datagrams[0]).1 {
                Some(delivery) => seq![delivery],
                None => Seq::empty(),
            }) + self.after_receive(datagrams[0], true).deliveries(datagrams.drop_first())
        }
    }

    /// The datagrams of a packet in some order, as they may come out of the network: some of
    /// them missing, some there more than once.
    pub open spec fn datagrams_in_order(self, data: Seq<u8>, order: Seq<int>) -> Seq<Seq<u8>> {
        Seq::new(order.len(), |i: int| self.datagrams(data)[order[i]])
    }
}

/// Once a packet has been received, its fragments are ignored.
proof fn lemma_received_ignores<I>(
    sender: EndpointView<I>,
    receiver: EndpointView<I>,
    data: Seq<u8>,
    order: Seq<int>,
)
    requires
        can_fragment(sender, receiver, data),
        receiver.received_packets.contains(sender.sequence),
        forall|i: int|
            0 <= i < order.len() ==> 0 <= #[trigger] order[i] < sender.datagrams(data).len(),
    ensures
        receiver.deliveries(sender.datagrams_in_order(data, order)) == Seq::<DeliveryView>::empty(),
    decreases order.len(),
{
    if order.len() > 0 {
        let rest = order.drop_first();
        law_fragment_round_trip(sender, data, order[0], receiver.config.max_fragments as int);
        assert(sender.datagrams_in_order(data, order).drop_first() =~= sender.datagrams_in_order(
            data,
            rest,
        ));
        lemma_received_ignores(sender, receiver, data, rest);
    }
}

proof fn lemma_completed<I>(
    sender: EndpointView<I>,
    receiver: EndpointView<I>,
    data: Seq<u8>,
    datagram: Seq<u8>,
)
    requires
        receiver.open(datagram).1 == Some(sender.outgoing(data)),
    ensures
        receiver.after_receive(datagram, true).received_packets.contains(sender.sequence),
        receiver.after_receive(datagram, true).config == receiver.config,
{
    let d = sender.outgoing(data);
    receiver.law_open_keeps_sending_side(datagram);
    let inserted = receiver.open(datagram).0.inserting(d);
    inserted.lemma_after_acks_frame(d.ack, d.ack_bits, 32);
    assert(inserted.received_packets.contains(sender.sequence));
}

/// What is delivered comes of the first datagram, and then of the others.
pub proof fn lemma_first_delivery<I>(
    sender: EndpointView<I>,
    receiver: EndpointView<I>,
    data: Seq<u8>,
    order: Seq<int>,
)
    requires
        order.len() > 0,
    ensures
        ({
            let datagram = sender.datagrams(data)[order[0]];
            let later = receiver.after_receive(datagram, true).deliveries(
                sender.datagrams_in_order(data, order.drop_first()),
            );
            receiver.deliveries(sender.datagrams_in_order(data, order)) == (match receiver.open(
                datagram,
            ).1 {
                Some(delivery) => seq![delivery] + later,
                None => later,
            })
        }),
{
    let datagrams = sender.datagrams_in_order(data, order);
    let rest = sender.datagrams_in_order(data, order.drop_first());
    let datagram = sender.datagrams(data)[order[0]];
    assert(datagrams[0] == datagram);
    assert(datagrams.drop_first() =~= rest);
    let later = receiver.after_receive(datagram, true).deliveries(rest);
    assert(Seq::<DeliveryView>::empty() + later =~= later);
}

proof fn lemma_contains_first(order: Seq<int>, j: int)
    requires
        order.len() > 0,
    ensures
        order.contains(j) <==> j == order[0] || order.drop_first().contains(j),
{
    let rest = order.drop_first();
    if order.contains(j) {
        let k = choose|k: int| 0 <= k < order.len() && order[k] == j;
        if k > 0 {
            assert(rest[k - 1] == j);
        }
    }
    if rest.contains(j) {
        let k = choose|k: int| 0 <= k < rest.len() && rest[k] == j;
        assert(order[k + 1] == j);
    }
}

/// The receiver has every fragment, or it is among those still to come.
spec fn all_come<I>(
    sender: EndpointView<I>,
    receiver: EndpointView<I>,
    count: nat,
    order: Seq<int>,
) -> bool {
    forall|j: int|
        #![trigger holds_fragment(sender, receiver, j)]
        0 <= j < count ==> holds_fragment(sender, receiver, j) || order.contains(j)
}

proof fn lemma_all_come_later<I>(
    sender: EndpointView<I>,
    receiver: EndpointView<I>,
    after: EndpointView<I>,
    count: nat,
    order: Seq<int>,
)
    requires
        order.len() > 0,
        forall|j: int| #[trigger]
            holds_fragment(sender, after, j) <==> j == order[0] || holds_fragment(
                sender,
                receiver,
                j,
            ),
    ensures
        all_come(sender, after, count, order.drop_first()) <==> all_come(
            sender,
            receiver,
            count,
            order,
        ),
{
    let rest = order.drop_first();
    if all_come(sender, after, count, rest) {
        assert forall|j: int|
            #![trigger holds_fragment(sender, receiver, j)]
            0 <= j < count implies holds_fragment(sender, receiver, j) || order.contains(j) by {
            lemma_contains_first(order, j);
            assert(holds_fragment(sender, after, j) || rest.contains(j));
        }
    }
    if all_come(sender, receiver, count, order) {
        assert forall|j: int|
            #![trigger holds_fragment(sender, after, j)]
            0 <= j < count implies holds_fragment(sender, after, j) || rest.contains(j) by {
            lemma_contains_first(order, j);
            assert(holds_fragment(sender, receiver, j) || order.contains(j));
        }
    }
}

proof fn lemma_in_any_order<I>(
    sender: EndpointView<I>,
    receiver: EndpointView<I>,
    data: Seq<u8>,
    order: Seq<int>,
    missing: int,
)
    requires
        can_fragment(sender, receiver, data),
        can_reassemble(sender, receiver, data),
        0 <= missing < sender.datagrams(data).len(),
        !holds_fragment(sender, receiver, missing),
        forall|i: int|
            0 <= i < order.len() ==> 0 <= #[trigger] order[i] < sender.datagrams(data).len(),
    ensures
        receiver.deliveries(sender.datagrams_in_order(data, order)) == (if all_come(
            sender,
            receiver,
            sender.datagrams(data).len(),
            order,
        ) {
            seq![sender.outgoing(data)]
        } else {
            Seq::empty()
        }),
    decreases order.len(),
{
    let count = sender.datagrams(data).len();
    if order.len() == 0 {
        assert(!order.contains(missing));
    } else {
        let id = order[0];
        let rest = order.drop_first();
        let datagram = sender.datagrams(data)[id];
        let after = receiver.after_receive(datagram, true);
        lemma_first_delivery(sender, receiver, data, order);
        law_fragment_arrives(sender, receiver, data, id);
        if !holds_fragment(sender, receiver, id) && holds_all_but(sender, receiver, data, id) {
            lemma_completed(sender, receiver, data, datagram);
            lemma_received_ignores(sender, after, data, rest);
            lemma_contains_first(order, id);
            assert(seq![sender.outgoing(data)] + Seq::<DeliveryView>::empty() =~= seq![
                sender.outgoing(data),
            ]);
        } else {
            let still = if holds_fragment(sender, receiver, id) {
                missing
            } else {
                choose|j: int|
                    0 <= j < count && j != id && !holds_fragment(sender, receiver, j)
            };
            assert(after == receiver.open(datagram).0);
            lemma_all_come_later(sender, receiver, after, count, order);
            lemma_in_any_order(sender, after, data, rest, still);
        }
    }
}

/// A packet that was split into fragments is delivered exactly once, as it was sent, when
/// its fragments come in: in any order, and even if some come more than once. If one never
/// comes, the packet is not delivered.
pub proof fn law_fragments_arrive_in_any_order<I>(
    sender: EndpointView<I>,
    receiver: EndpointView<I>,
    data: Seq<u8>,
    order: Seq<int>,
)
    requires
        can_fragment(sender, receiver, data),
        can_reassemble(sender, receiver, data),
        !receiver.fragment_reassembly.contains(sender.sequence),
        forall|i: int|
            0 <= i < order.len() ==> 0 <= #[trigger] order[i] < sender.datagrams(data).len(),
    ensures
        receiver.deliveries(sender.datagrams_in_order(data, order)) == (if forall|j: int|
            0 <= j < sender.datagrams(data).len() ==> order.contains(j) {
            seq![sender.outgoing(data)]
        } else {
            Seq::empty()
        }),
{
    lemma_fragment_count(data, sender.config.fragment_size as nat);
    lemma_in_any_order(sender, receiver, data, order, 0);
    if !forall|j: int| 0 <= j < sender.datagrams(data).len() ==> order.contains(j) {
        let j = choose|j: int| 0 <= j < sender.datagrams(data).len() && !order.contains(j);
        assert(!holds_fragment(sender, receiver, j));
    }
}

proof fn lemma_fragment_count(data: Seq<u8>, fragment_size: nat)
    requires
        data.len() > 0,
        fragment_size > 0,
    ensures
        num_fragments(data.len(), fragment_size) >= 1,
{
    lemma_fragments_needed(data.len() as int, fragment_size as int, 0);
}

/// A packet that was put together from fragments and then rejected is forgotten: nothing of
/// it is kept, and it can be put together anew when its fragments arrive again. This is for
/// buffers smaller than half the number circle, in which the packet is not stale.
pub proof fn law_rejected_fragments_may_come_again<I>(
    sender: EndpointView<I>,
    receiver: EndpointView<I>,
    data: Seq<u8>,
    fragment_id: int,
)
    requires
        can_fragment(sender, receiver, data),
        can_reassemble(sender, receiver, data),
        0 <= fragment_id < sender.datagrams(data).len(),
        !holds_fragment(sender, receiver, fragment_id),
        holds_all_but(sender, receiver, data, fragment_id),
        0 < receiver.received_packets.num_entries < 0x8000,
        0 < receiver.fragment_reassembly.num_entries < 0x8000,
        receiver.fragment_reassembly.contains(sender.sequence)
            ==> receiver.fragment_reassembly.can_insert(sender.sequence),
    ensures
        ({
            let after = receiver.after_receive(sender.datagrams(data)[fragment_id], false);
            &&& !after.fragment_reassembly.contains(sender.sequence)
            &&& can_fragment(sender, after, data)
            &&& can_reassemble(sender, after, data)
        }),
{
    let s = sender.sequence;
    let size = sender.config.fragment_size as nat;
    let datagram = sender.datagrams(data)[fragment_id];
    let fragment = fragment_says(sender, data, fragment_id);
    law_fragment_arrives(sender, receiver, data, fragment_id);
    law_fragment_round_trip(sender, data, fragment_id, receiver.config.max_fragments as int);
    assert(datagram == fragment_datagram(s, sender.next_header(), data, fragment_id, size));
    assert(receiver.open(datagram) == receiver.open_fragment(datagram));
    let started = receiver.reassembling(fragment);
    let after = receiver.after_receive(datagram, false);
    receiver.law_open_keeps_sending_side(datagram);
    lemma_moved_up_is_not_stale(receiver.received_packets, s);
    lemma_moved_up_is_not_stale(started.received_packets, s);
    lemma_moved_up_is_not_stale(receiver.fragment_reassembly, s);
    assert(after.fragment_reassembly == started.fragment_reassembly.removed(s));
    assert(after.received_packets == started.received_packets);
}

/// Moving a buffer forward to a number does not make that number stale.
proof fn lemma_moved_up_is_not_stale<T>(buffer: SequenceBufferView<T>, s: u16)
    requires
        0 < buffer.num_entries < 0x8000,
    ensures
        buffer.advances(s) || buffer.can_insert(s) ==> buffer.advanced(s).can_insert(s),
        buffer.advances(s) ==> !buffer.advanced(s).is_stale(s),
{
    if buffer.advances(s) {
        assert forall|t: u16| seq_behind(t, seq_add(s, 1)) >= 1 && seq_behind(s, seq_add(s, 1))
            == 1 by {}
    }
}

/// Inserting an entry into a buffer takes it from one well-formed state to another.
proof fn lemma_inserted_wf<T>(buffer: SequenceBufferView<T>, s: u16, value: T)
    requires
        buffer.wf(),
        buffer.advances(s) || buffer.can_insert(s),
    ensures
        buffer.inserted(s, value).wf(),
{
    let after = buffer.inserted(s, value);
    assert forall|a: u16, b: u16|
        #![trigger after.entries.dom().contains(a), after.entries.dom().contains(b)]
        after.contains(a) && after.contains(b) && after.same_slot(
            a as int,
            b as int,
        ) implies a == b by {
        if a != s {
            assert(buffer.entries.dom().contains(a));
        }
        if b != s {
            assert(buffer.entries.dom().contains(b));
        }
    }
    if buffer.num_entries > 1 {
        assert forall|t: u16| #[trigger] after.entries.dom().contains(t) implies after.in_window(
            t,
            after.sequence,
        ) by {
            if t == s {
                lemma_placed(buffer, s);
            } else {
                assert(buffer.entries.dom().contains(t));
                law_advance_keeps_the_window(buffer, t, s);
            }
        }
    }
}

/// The sequence number of the packet that a datagram is a fragment of, if it is one.
pub open spec fn fragment_number<I>(endpoint: EndpointView<I>, datagram: Seq<u8>) -> Option<u16> {
    match parse_fragment_header(
        datagram,
        endpoint.config.max_fragments as int,
        endpoint.config.fragment_size as int,
    ) {
        Some(fragment) => Some(fragment.sequence),
        None => None,
    }
}

/// The packet stays in the window while a buffer moves forward by so many steps.
pub open spec fn stays_in_window<T>(buffer: SequenceBufferView<T>, s: u16, steps: int) -> bool {
    let behind = seq_behind(s, buffer.sequence);
    &&& behind + steps <= buffer.num_entries
    &&& behind + steps <= 0x1_0000
    &&& slots_follow_on(buffer.num_entries, window_end(buffer, s), steps)
}

/// Packets under reassembly do not disturb one another: looking at a fragment of one leaves
/// another as it was, as long as that stays in the window and the slots of the window follow on
/// one another.
pub proof fn law_reassemblies_are_independent<I>(
    endpoint: EndpointView<I>,
    datagram: Seq<u8>,
    s: u16,
)
    requires
        endpoint.fragment_reassembly.wf(),
        endpoint.fragment_reassembly.contains(s),
        fragment_number(endpoint, datagram) != Some(s),
        fragment_number(endpoint, datagram) matches Some(t)
            ==> endpoint.fragment_reassembly.num_entries > 1 || !half_way(
            endpoint.fragment_reassembly,
            t,
        ),
        stays_in_window(
            endpoint.fragment_reassembly,
            s,
            seq_distance(
                endpoint.fragment_reassembly.sequence,
                endpoint.open(datagram).0.fragment_reassembly.sequence,
            ),
        ),
    ensures
        ({
            let after = endpoint.open(datagram).0.fragment_reassembly;
            &&& after.contains(s)
            &&& after.entries[s] == endpoint.fragment_reassembly.entries[s]
        }),
{
    let buffer = endpoint.fragment_reassembly;
    let parsed = parse_fragment_header(
        datagram,
        endpoint.config.max_fragments as int,
        endpoint.config.fragment_size as int,
    );
    let after = endpoint.open(datagram).0.fragment_reassembly;
    if after != buffer {
        let fragment = parsed.unwrap();
        let t = fragment.sequence;
        let entry = ReassemblyView::started(fragment.num_fragments as nat);
        let started = endpoint.reassembling(fragment).fragment_reassembly;
        if !buffer.contains(t) {
            lemma_steps(buffer, t);
            assert(after.sequence == buffer.advanced(t).sequence);
            law_insert_keeps_the_window(buffer, s, t, entry);
            lemma_inserted_wf(buffer, t, entry);
        }
        assert(started.wf());
        assert(started.entries.dom().contains(s) && started.entries.dom().contains(t));
        assert(!started.same_slot(s as int, t as int));
    }
}

/// What else comes in leaves a packet under reassembly alone: whether it is accepted or not,
/// the fragments held so far are still held, and those that are missing can still come. This
/// is as long as the packet stays in the window of those under reassembly, whose slots follow on
/// one another, and does not become stale.
pub proof fn law_others_leave_the_packet_alone<I>(
    sender: EndpointView<I>,
    receiver: EndpointView<I>,
    data: Seq<u8>,
    other: Seq<u8>,
    accepted: bool,
)
    requires
        receiver.fragment_reassembly.wf(),
        receiver.fragment_reassembly.contains(sender.sequence),
        can_reassemble(sender, receiver, data),
        // the datagram has to do with another packet
        fragment_number(receiver, other) != Some(sender.sequence),
        receiver.open(other).1 matches Some(delivery) ==> delivery.sequence != sender.sequence,
        fragment_number(receiver, other) matches Some(t)
            ==> receiver.fragment_reassembly.num_entries > 1 || !half_way(
            receiver.fragment_reassembly,
            t,
        ),
        ({
            let before = receiver.fragment_reassembly;
            let opened = receiver.open(other).0.fragment_reassembly;
            let after = receiver.after_receive(other, accepted);
            &&& stays_in_window(
                before,
                sender.sequence,
                seq_distance(before.sequence, opened.sequence) + seq_distance(
                    opened.sequence,
                    after.fragment_reassembly.sequence,
                ),
            )
            &&& !after.received_packets.is_stale(sender.sequence)
        }),
    ensures
        ({
            let after = receiver.after_receive(other, accepted);
            &&& can_reassemble(sender, after, data)
            &&& forall|i: int| #[trigger]
                holds_fragment(sender, after, i) <==> holds_fragment(sender, receiver, i)
        }),
{
    let s = sender.sequence;
    let before = receiver.fragment_reassembly;
    let (opened, delivery) = receiver.open(other);
    let middle = opened.fragment_reassembly;
    law_reassemblies_are_independent(receiver, other, s);
    receiver.law_open_keeps_sending_side(other);
    lemma_open_adds_nothing(receiver, other, s);
    if accepted && delivery is Some {
        let d = delivery.unwrap();
        let inserted = opened.inserting(d);
        inserted.lemma_after_acks_frame(d.ack, d.ack_bits, 32);
        assert(receiver.after_receive(other, accepted) == opened.accept(d));
        lemma_kept_by_accept(before, middle, d.sequence, s);
        assert(!inserted.received_packets.contains(s));
    } else {
        assert(receiver.after_receive(other, accepted) == opened);
    }
}

proof fn lemma_open_adds_nothing<I>(receiver: EndpointView<I>, other: Seq<u8>, s: u16)
    requires
        !receiver.received_packets.contains(s),
    ensures
        !receiver.open(other).0.received_packets.contains(s),
        receiver.open(other).0.fragment_reassembly.num_entries
            == receiver.fragment_reassembly.num_entries,
{
}

proof fn lemma_kept_by_accept<T>(
    before: SequenceBufferView<T>,
    middle: SequenceBufferView<T>,
    sequence: u16,
    s: u16,
)
    requires
        before.num_entries > 0,
        middle.num_entries == before.num_entries,
        middle.contains(s),
        stays_in_window(
            before,
            s,
            seq_distance(before.sequence, middle.sequence) + seq_distance(
                middle.sequence,
                middle.advanced(sequence).sequence,
            ),
        ),
    ensures
        middle.advanced(sequence).contains(s),
        middle.advanced(sequence).entries[s] == middle.entries[s],
{
    lemma_steps(middle, sequence);
    lemma_window_moves(s, before.sequence, middle.sequence);
    law_advance_keeps_the_window(middle, s, sequence);
}

proof fn lemma_window_moves(s: u16, from: u16, to: u16)
    requires
        seq_behind(s, from) + seq_distance(from, to) <= 0x1_0000,
    ensures
        seq_behind(s, to) == seq_behind(s, from) + seq_distance(from, to),
{
}

} // verus!
