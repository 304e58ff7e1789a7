//! Laws of the buffer that the fragments of a packet are copied to.

use vstd::prelude::*;

use crate::reassembly::{FragmentReassemblyData, ReassemblyBuffer};
use crate::MAX_PACKET_HEADER_BYTES;

verus! {

/// The first `k` chunks, one after the other.
pub open spec fn joined(chunks: Seq<Seq<u8>>, k: nat) -> Seq<u8>
    decreases k,
{
    if k == 0 {
        Seq::empty()
    } else {
        joined(chunks, (k - 1) as nat) + chunks[k - 1]
    }
}

/// The chunks of a packet: all of the fragment size but the last, which may be shorter.
pub open spec fn are_chunks(chunks: Seq<Seq<u8>>, fragment_size: int) -> bool {
    &&& chunks.len() > 0
    &&& fragment_size >= 0
    &&& forall|k: int|
        0 <= k < chunks.len() - 1 ==> (#[trigger] chunks[k]).len() == fragment_size
    &&& chunks.last().len() <= fragment_size
}

impl ReassemblyBuffer {
    /// The chunks are stored in the given order. The packet header goes with the first chunk.
    pub open spec fn with_chunks(
        self,
        header: Seq<u8>,
        chunks: Seq<Seq<u8>>,
        fragment_size: int,
        order: Seq<int>,
    ) -> Self
        decreases order.len(),
    {
        if order.len() == 0 {
            self
        } else {
            let k = order.last();
            self.with_chunks(header, chunks, fragment_size, order.drop_last()).with_fragment(
                header,
                k,
                fragment_size,
                if k == 0 {
                    header + chunks[k]
                } else {
                    chunks[k]
                },
            )
        }
    }

    /// What stands in the buffer from `start` to `end`.
    spec fn part(self, start: int, end: int) -> Seq<u8> {
        self.packet_data.subrange(start, end)
    }

    /// The chunks that have been stored stand in their places.
    spec fn holds_chunks(
        self,
        header: Seq<u8>,
        chunks: Seq<Seq<u8>>,
        fragment_size: int,
        order: Seq<int>,
    ) -> bool {
        let last = chunks.len() - 1;
        &&& order.contains(0) ==> {
            &&& self.packet_header_bytes == header.len()
            &&& self.part(MAX_PACKET_HEADER_BYTES - header.len(), MAX_PACKET_HEADER_BYTES as int)
                == header
        }
        &&& order.contains(last) ==> self.packet_bytes == last * fragment_size
            + chunks[last].len()
        &&& forall|k: int| #[trigger]
            order.contains(k) ==> {
                let at = FragmentReassemblyData::offset(k, fragment_size);
                self.part(at, at + chunks[k].len()) == chunks[k]
            }
    }
}

/// A chunk ends before a later one starts.
proof fn lemma_chunk_before(i: int, j: int, fragment_size: int)
    requires
        0 <= i < j,
        fragment_size >= 0,
    ensures
        0 <= i * fragment_size,
        i * fragment_size + fragment_size <= j * fragment_size,
{
    assert(i * fragment_size + fragment_size <= j * fragment_size) by (nonlinear_arith)
        requires
            i + 1 <= j,
            fragment_size >= 0,
    ;
    assert(0 <= i * fragment_size) by (nonlinear_arith)
        requires
            0 <= i,
            fragment_size >= 0,
    ;
}

proof fn lemma_chunk_len(chunks: Seq<Seq<u8>>, fragment_size: int, k: int)
    requires
        are_chunks(chunks, fragment_size),
        0 <= k < chunks.len(),
    ensures
        chunks[k].len() <= fragment_size,
{
}

proof fn lemma_holds_chunks(
    start: ReassemblyBuffer,
    header: Seq<u8>,
    chunks: Seq<Seq<u8>>,
    fragment_size: int,
    order: Seq<int>,
)
    requires
        are_chunks(chunks, fragment_size),
        header.len() <= MAX_PACKET_HEADER_BYTES,
        start.num_fragments_total == chunks.len(),
        start.packet_data.len() == FragmentReassemblyData::offset(
            chunks.len() as int,
            fragment_size,
        ),
        forall|i: int| 0 <= i < order.len() ==> 0 <= #[trigger] order[i] < chunks.len(),
    ensures
        ({
            let after = start.with_chunks(header, chunks, fragment_size, order);
            &&& after.holds_chunks(header, chunks, fragment_size, order)
            &&& after.packet_data.len() == start.packet_data.len()
            &&& after.num_fragments_total == start.num_fragments_total
            &&& after.num_fragments_received == start.num_fragments_received
            &&& after.fragment_received == start.fragment_received
        }),
    decreases order.len(),
{
    if order.len() > 0 {
        let most = order.drop_last();
        let id = order.last();
        let n = chunks.len() as int;
        let before = start.with_chunks(header, chunks, fragment_size, most);
        let after = start.with_chunks(header, chunks, fragment_size, order);
        assert forall|i: int| 0 <= i < most.len() implies 0 <= #[trigger] most[i] < chunks.len() by {
            assert(most[i] == order[i]);
        }
        lemma_holds_chunks(start, header, chunks, fragment_size, most);
        lemma_chunk_before(id, n, fragment_size);
        lemma_chunk_len(chunks, fragment_size, id);
        assert((header + chunks[id]).skip(header.len() as int) =~= chunks[id]);
        assert forall|k: int| #[trigger] order.contains(k) implies k == id || most.contains(k) by {
            let j = choose|j: int| 0 <= j < order.len() && order[j] == k;
            if j < most.len() {
                assert(most[j] == k);
            }
        }
        assert forall|k: int| #[trigger] order.contains(k) implies {
            let at = FragmentReassemblyData::offset(k, fragment_size);
            after.part(at, at + chunks[k].len()) == chunks[k]
        } by {
            let at = FragmentReassemblyData::offset(k, fragment_size);
            let j = choose|j: int| 0 <= j < order.len() && order[j] == k;
            assert(0 <= order[j] < n);
            lemma_chunk_before(k, n, fragment_size);
            lemma_chunk_len(chunks, fragment_size, k);
            if k != id {
                assert(most.contains(k));
                if k < id {
                    lemma_chunk_before(k, id, fragment_size);
                } else {
                    lemma_chunk_before(id, k, fragment_size);
                }
                assert(after.part(at, at + chunks[k].len()) =~= before.part(
                    at,
                    at + chunks[k].len(),
                ));
            } else {
                assert(after.part(at, at + chunks[k].len()) =~= chunks[k]);
            }
        }
        if order.contains(0) {
            let at = MAX_PACKET_HEADER_BYTES - header.len();
            if id == 0 {
                assert(after.part(at, MAX_PACKET_HEADER_BYTES as int) =~= header);
            } else {
                assert(most.contains(0));
                assert(after.part(at, MAX_PACKET_HEADER_BYTES as int) =~= before.part(
                    at,
                    MAX_PACKET_HEADER_BYTES as int,
                ));
            }
        }
    }
}

proof fn lemma_chunks_in_a_row(
    buffer: ReassemblyBuffer,
    header: Seq<u8>,
    chunks: Seq<Seq<u8>>,
    fragment_size: int,
    order: Seq<int>,
    k: nat,
)
    requires
        are_chunks(chunks, fragment_size),
        buffer.packet_data.len() == FragmentReassemblyData::offset(
            chunks.len() as int,
            fragment_size,
        ),
        buffer.holds_chunks(header, chunks, fragment_size, order),
        forall|j: int| 0 <= j < chunks.len() ==> order.contains(j),
        k < chunks.len(),
    ensures
        joined(chunks, k).len() == k * fragment_size,
        0 <= k * fragment_size,
        k * fragment_size + fragment_size <= chunks.len() * fragment_size,
        buffer.part(
            MAX_PACKET_HEADER_BYTES as int,
            FragmentReassemblyData::offset(k as int, fragment_size),
        ) == joined(chunks, k),
    decreases k,
{
    lemma_chunk_before(k as int, chunks.len() as int, fragment_size);
    if k == 0 {
        assert(k * fragment_size == 0) by (nonlinear_arith)
            requires
                k == 0,
        ;
    } else {
        lemma_chunks_in_a_row(buffer, header, chunks, fragment_size, order, (k - 1) as nat);
        assert(k * fragment_size == (k - 1) * fragment_size + fragment_size) by (nonlinear_arith);
        assert(order.contains(k - 1));
        assert(chunks[k - 1].len() == fragment_size);
    }
    assert(buffer.part(
        MAX_PACKET_HEADER_BYTES as int,
        FragmentReassemblyData::offset(k as int, fragment_size),
    ) =~= joined(chunks, k));
}

/// Storing the fragments of a packet in any order, even some of them again, leaves the same
/// bytes in the buffer: the packet header and right behind it the packet, whose lengths are
/// known then. Nothing else of the state changes.
pub proof fn law_storage_order_does_not_matter(
    start: ReassemblyBuffer,
    header: Seq<u8>,
    chunks: Seq<Seq<u8>>,
    fragment_size: int,
    order: Seq<int>,
)
    requires
        are_chunks(chunks, fragment_size),
        header.len() <= MAX_PACKET_HEADER_BYTES,
        start.num_fragments_total == chunks.len(),
        start.packet_data.len() == MAX_PACKET_HEADER_BYTES + chunks.len() * fragment_size,
        forall|i: int| 0 <= i < order.len() ==> 0 <= #[trigger] order[i] < chunks.len(),
        forall|j: int| 0 <= j < chunks.len() ==> order.contains(j),
    ensures
        ({
            let after = start.with_chunks(header, chunks, fragment_size, order);
            let packet = joined(chunks, chunks.len());
            &&& after.packet_data.subrange(
                MAX_PACKET_HEADER_BYTES - header.len(),
                MAX_PACKET_HEADER_BYTES + after.packet_bytes,
            ) == header + packet
            &&& after.packet_header_bytes == header.len()
            &&& after.packet_bytes == packet.len()
            &&& after.packet_data.len() == start.packet_data.len()
            &&& after.num_fragments_total == start.num_fragments_total
            &&& after.num_fragments_received == start.num_fragments_received
            &&& after.fragment_received == start.fragment_received
        }),
{
    let after = start.with_chunks(header, chunks, fragment_size, order);
    let last = chunks.len() - 1;
    let middle = MAX_PACKET_HEADER_BYTES as int;
    lemma_holds_chunks(start, header, chunks, fragment_size, order);
    lemma_chunks_in_a_row(after, header, chunks, fragment_size, order, last as nat);
    lemma_chunk_len(chunks, fragment_size, last);
    assert(order.contains(0) && order.contains(last));
    let at = FragmentReassemblyData::offset(last, fragment_size);
    assert(after.packet_data.subrange(middle - header.len(), middle + after.packet_bytes)
        =~= after.part(middle - header.len(), middle) + (after.part(middle, at) + after.part(
        at,
        at + chunks[last].len(),
    )));
}

/// Where the bytes of a fragment go: to the place that its number says, after the room for the
/// packet header, and the header of the first one to the end of that room. All other bytes stay.
/// The last fragment tells how long the packet is. One that would not fit is left out.
pub proof fn law_fragment_goes_to_its_place(
    buffer: ReassemblyBuffer,
    header: Seq<u8>,
    fragment_id: int,
    fragment_size: int,
    fragment_data: Seq<u8>,
    at: int,
)
    requires
        header.len() <= 9,
        buffer.packet_data.len() >= 9,
        0 <= fragment_id,
        0 < fragment_size,
        fragment_id == 0 ==> header.len() <= fragment_data.len(),
        0 <= at < buffer.packet_data.len(),
    ensures
        ({
            let after = buffer.with_fragment(header, fragment_id, fragment_size, fragment_data);
            let body = if fragment_id == 0 {
                fragment_data.skip(header.len() as int)
            } else {
                fragment_data
            };
            let start = 9 + fragment_id * fragment_size;
            let fits = start + body.len() <= buffer.packet_data.len();
            &&& after.packet_data.len() == buffer.packet_data.len()
            &&& if fits && start <= at < start + body.len() {
                after.packet_data[at] == body[at - start]
            } else if fragment_id == 0 && 9 - header.len() <= at < 9 {
                after.packet_data[at] == header[at - (9 - header.len())]
            } else {
                after.packet_data[at] == buffer.packet_data[at]
            }
            &&& after.packet_header_bytes == (if fragment_id == 0 {
                header.len()
            } else {
                buffer.packet_header_bytes
            })
            &&& after.packet_bytes == (if fragment_id == buffer.num_fragments_total - 1 {
                fragment_id * fragment_size + body.len()
            } else {
                buffer.packet_bytes as int
            })
            &&& after.num_fragments_received == buffer.num_fragments_received
            &&& after.num_fragments_total == buffer.num_fragments_total
            &&& after.fragment_received == buffer.fragment_received
        }),
{
    assert(0 <= fragment_id * fragment_size) by (nonlinear_arith)
        requires
            0 <= fragment_id,
            0 < fragment_size,
    ;
}

} // verus!
