//! Laws of how values are seen by the contracts: nothing is left out or made up.

use vstd::prelude::*;

use crate::endpoint::{bytes_of, delivery_view, pieces_of, Delivery};
use crate::laws::statistics::{below_with, lemma_below_one_more};
use crate::model::EndpointView;
use crate::reassembly::{count_set, FragmentReassemblyData};
use crate::sequence_buffer::SequenceBufferView;

verus! {

/// A list of datagrams is seen as the bytes of each of them, in the same order.
pub proof fn law_datagrams_are_seen_as_their_bytes(datagrams: Seq<Vec<u8>>, i: int)
    ensures
        bytes_of(datagrams).len() == datagrams.len(),
        0 <= i < datagrams.len() ==> bytes_of(datagrams)[i] == datagrams[i]@,
{
}

/// A packet to be delivered is seen with all that it has, and none as none.
pub proof fn law_delivery_is_seen_as_it_is(delivery: Option<Delivery>)
    ensures
        delivery_view(delivery) is Some <==> delivery is Some,
        delivery matches Some(d) ==> {
            let seen = delivery_view(delivery)->Some_0;
            &&& seen == d@
            &&& seen.sequence == d.sequence
            &&& seen.ack == d.ack
            &&& seen.ack_bits == d.ack_bits
            &&& seen.packet_bytes == d.packet_bytes
            &&& seen.payload == d.payload@
        },
{
}

/// A packet under reassembly is seen as the fragments that have come, each as the bytes at its place
/// in the buffer: as many as a fragment has, or those up to the end of the packet for the last one.
pub proof fn law_reassembly_is_seen_as_its_fragments(
    data: FragmentReassemblyData,
    fragment_size: int,
    i: int,
)
    ensures
        ({
            let seen = pieces_of(fragment_size)(data);
            let start = i * fragment_size;
            let end = if i == data.num_fragments_total - 1 {
                data.packet_bytes as int
            } else {
                start + fragment_size
            };
            &&& seen.total == data.num_fragments_total
            &&& seen.header == data.packet_data@.subrange(9 - data.packet_header_bytes, 9)
            &&& seen.fragments.dom().contains(i) <==> 0 <= i < data.num_fragments_total
                && data.fragment_received@[i]
            &&& seen.fragments.dom().contains(i) ==> seen.fragments[i]
                == data.packet_data@.subrange(9 + start, 9 + end)
        }),
{
}

/// The fragments that are counted as received are those that are marked.
pub proof fn law_count_is_of_the_marked(flags: Seq<bool>, n: nat)
    ensures
        count_set(flags, n) == below_with(n, |i: int| flags[i]).len(),
    decreases n,
{
    let marked = |i: int| flags[i];
    if n == 0 {
        assert(below_with(0, marked) =~= Set::empty());
    } else {
        law_count_is_of_the_marked(flags, (n - 1) as nat);
        lemma_below_one_more(n, marked);
    }
}

/// Seeing the entries of a buffer through a function changes neither which there are nor where the
/// buffer stands.
pub proof fn law_entries_are_seen_in_their_places<T, V>(
    buffer: SequenceBufferView<T>,
    f: spec_fn(T) -> V,
    s: u16,
)
    ensures
        ({
            let seen = buffer.map_values(f);
            &&& seen.sequence == buffer.sequence
            &&& seen.num_entries == buffer.num_entries
            &&& seen.entries.dom().contains(s) <==> buffer.entries.dom().contains(s)
            &&& buffer.entries.dom().contains(s) ==> seen.entries[s] == f(buffer.entries[s])
        }),
{
}

/// Receiving a datagram is opening it, and if that leads to a delivery which the receiver accepts,
/// accepting the packet.
pub proof fn law_receiving_is_opening_and_accepting<I>(endpoint: EndpointView<I>, data: Seq<u8>)
    ensures
        endpoint.after_receive(data, false) == endpoint.open(data).0,
        endpoint.open(data).1 is None ==> endpoint.after_receive(data, true) == endpoint.open(
            data,
        ).0,
        endpoint.open(data).1 matches Some(d) ==> endpoint.after_receive(data, true)
            == endpoint.open(data).0.accept(d),
{
}

} // verus!
