//! The reassembly of a packet from its fragments.

use vstd::prelude::*;
use vstd::slice::slice_subrange;

use crate::packet::{
    fragment_size_fits, lemma_packet_header_layout, packet_header, parse_fragment_header,
    write_packet_header, FragmentHeader,
};
use crate::sequence_buffer::is_default;
use crate::{FRAGMENT_HEADER_BYTES, MAX_PACKET_HEADER_BYTES};

verus! {

/// A packet under reassembly: how many fragments it has, the packet header that came with
/// the first of them (empty before that), and the fragments received so far.
#[verifier::ext_equal]
pub struct ReassemblyView {
    pub total: nat,
    pub header: Seq<u8>,
    pub fragments: Map<int, Seq<u8>>,
}

impl ReassemblyView {
    pub open spec fn started(total: nat) -> Self {
        ReassemblyView { total, header: Seq::empty(), fragments: Map::empty() }
    }

    pub open spec fn has_fragment(self, fragment_id: int) -> bool {
        self.fragments.dom().contains(fragment_id)
    }

    /// Fragment `fragment_id` is added, and the packet header with it if it is the first.
    pub open spec fn stored(self, fragment_id: int, header: Seq<u8>, bytes: Seq<u8>) -> Self {
        ReassemblyView {
            total: self.total,
            header: if fragment_id == 0 {
                header
            } else {
                self.header
            },
            fragments: self.fragments.insert(fragment_id, bytes),
        }
    }

    pub open spec fn is_complete(self) -> bool {
        forall|i: int| 0 <= i < self.total ==> self.has_fragment(i)
    }

    /// The first `n` fragments, one after the other.
    pub open spec fn joined(self, n: nat) -> Seq<u8>
        decreases n,
    {
        if n == 0 {
            Seq::empty()
        } else {
            self.joined((n - 1) as nat) + self.fragments[n - 1]
        }
    }

    /// The packet that the fragments make up.
    pub open spec fn packet(self) -> Seq<u8> {
        self.header + self.joined(self.total)
    }
}

/// How many of the first `n` flags are set.
pub open spec fn count_set(flags: Seq<bool>, n: nat) -> nat
    decreases n,
{
    if n == 0 {
        0
    } else if flags[n - 1] {
        count_set(flags, (n - 1) as nat) + 1
    } else {
        count_set(flags, (n - 1) as nat)
    }
}

proof fn lemma_count_bound(flags: Seq<bool>, n: nat)
    ensures
        count_set(flags, n) <= n,
        count_set(flags, n) == n <==> forall|i: int| 0 <= i < n ==> flags[i],
    decreases n,
{
    if n > 0 {
        lemma_count_bound(flags, (n - 1) as nat);
    }
}

proof fn lemma_count_update(flags: Seq<bool>, n: nat, at: int)
    requires
        0 <= at < flags.len(),
        n <= flags.len(),
        !flags[at],
    ensures
        count_set(flags.update(at, true), n) == count_set(flags, n) + (if at < n {
            1int
        } else {
            0
        }),
    decreases n,
{
    if n > 0 {
        lemma_count_update(flags, (n - 1) as nat, at);
    }
}

proof fn lemma_count_none(flags: Seq<bool>, n: nat)
    requires
        forall|i: int| 0 <= i < n ==> !flags[i],
    ensures
        count_set(flags, n) == 0,
    decreases n,
{
    if n > 0 {
        lemma_count_none(flags, (n - 1) as nat);
    }
}

/// A fragment of full size ends where or before a later one starts.
proof fn lemma_fragment_before(i: int, j: int, fragment_size: int)
    requires
        i < j,
        fragment_size > 0,
    ensures
        i * fragment_size + fragment_size <= j * fragment_size,
{
    assert(i * fragment_size + fragment_size <= j * fragment_size) by (nonlinear_arith)
        requires
            i + 1 <= j,
            fragment_size > 0,
    ;
}

/// The bytes of the packet in a fragment: what follows the packet header in the first one,
/// all of the data in the others.
pub open spec fn fragment_body(fragment: FragmentHeader, data: Seq<u8>) -> Seq<u8> {
    if fragment.fragment_id == 0 {
        data.skip(packet_header(fragment.sequence, fragment.ack, fragment.ack_bits).len() as int)
    } else {
        data
    }
}

/// What holds of a fragment whose header could be read.
pub proof fn lemma_parsed_fragment(data: Seq<u8>, max_fragments: int, fragment_size: int)
    ensures
        parse_fragment_header(data, max_fragments, fragment_size) matches Some(fragment) ==> {
            let rest = data.skip(FRAGMENT_HEADER_BYTES as int);
            &&& data.len() >= FRAGMENT_HEADER_BYTES
            &&& fragment.fragment_id < fragment.num_fragments <= max_fragments
            &&& fragment.num_fragments <= 256
            &&& fragment_size_fits(
                fragment_body(fragment, rest).len() as int,
                fragment.fragment_id as int,
                fragment.num_fragments as int,
                fragment_size,
            )
            &&& fragment.fragment_id == 0 ==> rest.len() >= packet_header(
                fragment.sequence,
                fragment.ack,
                fragment.ack_bits,
            ).len()
        },
{
}

/// `bytes` stand in `buffer` from position `at` on.
pub open spec fn overwritten(buffer: Seq<u8>, at: int, bytes: Seq<u8>) -> Seq<u8> {
    buffer.take(at) + bytes + buffer.skip(at + bytes.len())
}

fn overwrite(buffer: &mut Vec<u8>, at: usize, bytes: &[u8])
    requires
        at + bytes@.len() <= old(buffer)@.len(),
    ensures
        final(buffer)@ == overwritten(old(buffer)@, at as int, bytes@),
{
    let ghost before = buffer@;
    let ghost end = before.len();
    assert(buffer.len() <= usize::MAX);
    let mut i: usize = 0;
    while i < bytes.len()
        invariant
            i <= bytes@.len(),
            at + bytes@.len() <= end,
            before.len() == end,
            end <= usize::MAX,
            buffer@.len() == end,
            buffer@ =~= overwritten(before, at as int, bytes@.take(i as int)),
        decreases bytes@.len() - i,
    {
        buffer[at + i] = bytes[i];
        i += 1;
    }
    assert(bytes@.take(i as int) =~= bytes@);
}

proof fn lemma_stored(
    before: FragmentReassemblyData,
    after: FragmentReassemblyData,
    fragment: FragmentHeader,
    fragment_size: int,
    data: Seq<u8>,
)
    requires
        before.wf(fragment_size),
        fragment.fragment_id < before.num_fragments_total,
        !before.fragment_received@[fragment.fragment_id as int],
        after.num_fragments_total == before.num_fragments_total,
        after.num_fragments_received == before.num_fragments_received + 1,
        after.fragment_received@ == before.fragment_received@.update(
            fragment.fragment_id as int,
            true,
        ),
        fragment_size_fits(
            fragment_body(fragment, data).len() as int,
            fragment.fragment_id as int,
            before.num_fragments_total as int,
            fragment_size,
        ),
        ({
            let header = packet_header(fragment.sequence, fragment.ack, fragment.ack_bits);
            let body = fragment_body(fragment, data);
            let headed = if fragment.fragment_id == 0 {
                overwritten(before.packet_data@, MAX_PACKET_HEADER_BYTES - header.len(), header)
            } else {
                before.packet_data@
            };
            let offset = FragmentReassemblyData::offset(fragment.fragment_id as int, fragment_size);
            &&& after.packet_header_bytes == (if fragment.fragment_id == 0 {
                header.len() as usize
            } else {
                before.packet_header_bytes
            })
            &&& after.packet_bytes == (if fragment.fragment_id == before.num_fragments_total - 1 {
                (fragment.fragment_id * fragment_size + body.len()) as usize
            } else {
                before.packet_bytes
            })
            &&& after.packet_data@ == overwritten(headed, offset, body)
        }),
        FragmentReassemblyData::offset(before.num_fragments_total as int, fragment_size) <= usize::MAX,
    ensures
        after.wf(fragment_size),
        after.pieces(fragment_size) == before.pieces(fragment_size).stored(
            fragment.fragment_id as int,
            packet_header(fragment.sequence, fragment.ack, fragment.ack_bits),
            fragment_body(fragment, data),
        ),
{
    let id = fragment.fragment_id as int;
    let header = packet_header(fragment.sequence, fragment.ack, fragment.ack_bits);
    let body = fragment_body(fragment, data);
    let expected = before.pieces(fragment_size).stored(id, header, body);
    let got = after.pieces(fragment_size);
    lemma_packet_header_layout(fragment.sequence, fragment.ack, fragment.ack_bits);
    lemma_count_update(before.fragment_received@, before.num_fragments_total as nat, id);
    lemma_fragment_before(id, before.num_fragments_total as int, fragment_size);
    assert(0 <= id * fragment_size) by (nonlinear_arith)
        requires
            0 <= id,
            0 < fragment_size,
    ;
    assert(got.header =~= expected.header);
    assert forall|i: int| #[trigger] got.fragments.dom().contains(i) implies got.fragments[i]
        == expected.fragments[i] by {
        lemma_fragment_before(i, before.num_fragments_total as int, fragment_size);
        assert(0 <= i * fragment_size) by (nonlinear_arith)
            requires
                0 <= i,
                0 < fragment_size,
        ;
        if i < id {
            lemma_fragment_before(i, id, fragment_size);
        } else if id < i {
            lemma_fragment_before(id, i, fragment_size);
        }
        assert(got.fragments[i] =~= expected.fragments[i]);
    }
    assert(got.fragments =~= expected.fragments);
}

/// The state of a packet under reassembly: the buffer that its fragments are copied to, at
/// the place where each belongs, with room for the packet header in front.
pub struct FragmentReassemblyData {
    pub num_fragments_received: usize,
    pub num_fragments_total: usize,
    pub packet_data: Vec<u8>,
    pub packet_bytes: usize,
    pub packet_header_bytes: usize,
    pub fragment_received: Vec<bool>,
}

/// The state of a packet under reassembly, as mathematics.
#[verifier::ext_equal]
pub struct ReassemblyBuffer {
    pub num_fragments_received: nat,
    pub num_fragments_total: nat,
    pub packet_data: Seq<u8>,
    pub packet_bytes: nat,
    pub packet_header_bytes: nat,
    pub fragment_received: Seq<bool>,
}

impl ReassemblyBuffer {
    /// A fragment is copied to its place. The first one starts with the packet header, which is
    /// put in front of the payload; the last one tells how long the packet is. A fragment that
    /// would not fit in the buffer is not copied.
    pub open spec fn with_fragment(
        self,
        header: Seq<u8>,
        fragment_id: int,
        fragment_size: int,
        fragment_data: Seq<u8>,
    ) -> Self {
        let (body, headed, header_bytes) = if fragment_id == 0 {
            (
                fragment_data.skip(header.len() as int),
                overwritten(self.packet_data, MAX_PACKET_HEADER_BYTES - header.len(), header),
                header.len(),
            )
        } else {
            (fragment_data, self.packet_data, self.packet_header_bytes)
        };
        let offset = FragmentReassemblyData::offset(fragment_id, fragment_size);
        ReassemblyBuffer {
            packet_header_bytes: header_bytes,
            packet_bytes: if fragment_id == self.num_fragments_total - 1 {
                (fragment_id * fragment_size + body.len()) as nat
            } else {
                self.packet_bytes
            },
            packet_data: if offset + body.len() <= headed.len() {
                overwritten(headed, offset, body)
            } else {
                headed
            },
            ..self
        }
    }
}

impl View for FragmentReassemblyData {
    type V = ReassemblyBuffer;

    open spec fn view(&self) -> ReassemblyBuffer {
        ReassemblyBuffer {
            num_fragments_received: self.num_fragments_received as nat,
            num_fragments_total: self.num_fragments_total as nat,
            packet_data: self.packet_data@,
            packet_bytes: self.packet_bytes as nat,
            packet_header_bytes: self.packet_header_bytes as nat,
            fragment_received: self.fragment_received@,
        }
    }
}

impl Default for FragmentReassemblyData {
    fn default() -> (data: Self)
        ensures
            data.num_fragments_received == 0,
            data.num_fragments_total == 0,
            data.packet_data@ == Seq::<u8>::empty(),
            data.packet_bytes == 0,
            data.packet_header_bytes == 0,
            data.fragment_received@ == Seq::<bool>::empty(),
    {
        FragmentReassemblyData {
            num_fragments_received: 0,
            num_fragments_total: 0,
            packet_data: Vec::new(),
            packet_bytes: 0,
            packet_header_bytes: 0,
            fragment_received: Vec::new(),
        }
    }
}

impl FragmentReassemblyData {
    /// The number of bytes of a fragment that has been received.
    pub open spec fn fragment_bytes(&self, fragment_id: int, fragment_size: int) -> int {
        if fragment_id == self.num_fragments_total - 1 {
            self.packet_bytes - fragment_id * fragment_size
        } else {
            fragment_size
        }
    }

    /// Where a fragment starts in the buffer.
    pub open spec fn offset(fragment_id: int, fragment_size: int) -> int {
        MAX_PACKET_HEADER_BYTES + fragment_id * fragment_size
    }

    /// The packet under reassembly, given the size of its fragments.
    pub open spec fn pieces(&self, fragment_size: int) -> ReassemblyView {
        ReassemblyView {
            total: self.num_fragments_total as nat,
            header: self.packet_data@.subrange(
                MAX_PACKET_HEADER_BYTES - self.packet_header_bytes,
                MAX_PACKET_HEADER_BYTES as int,
            ),
            fragments: Map::new(
                |i: int| 0 <= i < self.num_fragments_total && self.fragment_received@[i],
                |i: int|
                    self.packet_data@.subrange(
                        Self::offset(i, fragment_size),
                        Self::offset(i, fragment_size) + self.fragment_bytes(i, fragment_size),
                    ),
            ),
        }
    }

    pub open spec fn wf(&self, fragment_size: int) -> bool {
        let last = self.num_fragments_total - 1;
        &&& fragment_size > 0
        &&& 1 <= self.num_fragments_total <= 256
        &&& self.fragment_received@.len() == self.num_fragments_total
        &&& self.packet_data@.len() == Self::offset(self.num_fragments_total as int, fragment_size)
        &&& self.num_fragments_received == count_set(
            self.fragment_received@,
            self.num_fragments_total as nat,
        )
        &&& self.packet_header_bytes <= MAX_PACKET_HEADER_BYTES
        &&& if self.fragment_received@[0] {
            self.packet_header_bytes >= 4
        } else {
            self.packet_header_bytes == 0
        }
        &&& self.fragment_received@[last] ==> 0 <= self.fragment_bytes(last, fragment_size)
            <= fragment_size
    }

    /// Copies a fragment to its place in the packet. The first fragment starts with the
    /// packet header, which is written anew in front of the payload. A fragment that would
    /// not fit in the buffer is not copied.
    pub fn store_fragment(
        &mut self,
        sequence: u16,
        ack: u16,
        ack_bits: u32,
        fragment_id: usize,
        fragment_size: usize,
        fragment_data: &[u8],
    )
        requires
            old(self).num_fragments_total >= 1,
            Self::offset(fragment_id as int, fragment_size as int) + fragment_data@.len() - (
            if fragment_id == 0 {
                packet_header(sequence, ack, ack_bits).len() as int
            } else {
                0
            }) <= usize::MAX,
            fragment_id == 0 ==> old(self).packet_data@.len() >= MAX_PACKET_HEADER_BYTES,
            fragment_id == 0 ==> fragment_data@.len() >= packet_header(
                sequence,
                ack,
                ack_bits,
            ).len(),
        ensures
            final(self)@ == old(self)@.with_fragment(
                packet_header(sequence, ack, ack_bits),
                fragment_id as int,
                fragment_size as int,
                fragment_data@,
            ),
    {
        let mut body = fragment_data;
        if fragment_id == 0 {
            let mut header = [0u8;MAX_PACKET_HEADER_BYTES];
            proof {
                lemma_packet_header_layout(sequence, ack, ack_bits);
            }
            let header_bytes: usize = write_packet_header(&mut header, sequence, ack, ack_bits);
            let header_slice = slice_subrange(&header, 0, header_bytes);
            assert(header_slice@ =~= packet_header(sequence, ack, ack_bits));
            self.packet_header_bytes = header_bytes;
            overwrite(
                &mut self.packet_data,
                MAX_PACKET_HEADER_BYTES - header_bytes,
                header_slice,
            );
            body = slice_subrange(fragment_data, header_bytes, fragment_data.len());
            assert(body@ =~= fragment_data@.skip(header_bytes as int));
        }
        assert(0 <= fragment_id * fragment_size) by (nonlinear_arith);
        let start: usize = fragment_id * fragment_size;
        if fragment_id == self.num_fragments_total - 1 {
            self.packet_bytes = start + body.len();
        }
        let offset: usize = MAX_PACKET_HEADER_BYTES + start;
        if offset + body.len() <= self.packet_data.len() {
            overwrite(&mut self.packet_data, offset, body);
        }
    }

    /// Starts the reassembly of a packet.
    pub fn start(&mut self, num_fragments: usize, fragment_size: usize)
        requires
            1 <= num_fragments <= 256,
            fragment_size > 0,
            Self::offset(num_fragments as int, fragment_size as int) <= usize::MAX,
            is_default(*old(self)),
        ensures
            final(self).wf(fragment_size as int),
            final(self).pieces(fragment_size as int) == ReassemblyView::started(
                num_fragments as nat,
            ),
    {
        assert(0 <= num_fragments * fragment_size) by (nonlinear_arith);
        let packet_buffer_size: usize = MAX_PACKET_HEADER_BYTES + num_fragments * fragment_size;
        self.num_fragments_total = num_fragments;
        self.packet_data = vec![0;packet_buffer_size];
        self.fragment_received = vec![false;num_fragments];
        proof {
            lemma_count_none(self.fragment_received@, num_fragments as nat);
            assert(self.pieces(fragment_size as int) =~= ReassemblyView::started(
                num_fragments as nat,
            ));
        }
    }

    /// Takes in a fragment of the packet that was not there yet.
    pub fn receive_fragment(
        &mut self,
        fragment: &FragmentHeader,
        fragment_size: usize,
        fragment_data: &[u8],
    )
        requires
            old(self).wf(fragment_size as int),
            fragment.fragment_id < old(self).num_fragments_total,
            !old(self).pieces(fragment_size as int).has_fragment(fragment.fragment_id as int),
            fragment_size_fits(
                fragment_body(*fragment, fragment_data@).len() as int,
                fragment.fragment_id as int,
                old(self).num_fragments_total as int,
                fragment_size as int,
            ),
            fragment.fragment_id == 0 ==> fragment_data@.len() >= packet_header(
                fragment.sequence,
                fragment.ack,
                fragment.ack_bits,
            ).len(),
        ensures
            final(self).wf(fragment_size as int),
            final(self).pieces(fragment_size as int) == old(self).pieces(
                fragment_size as int,
            ).stored(
                fragment.fragment_id as int,
                packet_header(fragment.sequence, fragment.ack, fragment.ack_bits),
                fragment_body(*fragment, fragment_data@),
            ),
    {
        let ghost before = *self;
        proof {
            assert(self.packet_data.len() <= usize::MAX);
            lemma_count_update(
                self.fragment_received@,
                self.num_fragments_total as nat,
                fragment.fragment_id as int,
            );
            lemma_count_bound(
                self.fragment_received@.update(fragment.fragment_id as int, true),
                self.num_fragments_total as nat,
            );
            lemma_packet_header_layout(fragment.sequence, fragment.ack, fragment.ack_bits);
            lemma_fragment_before(
                fragment.fragment_id as int,
                self.num_fragments_total as int,
                fragment_size as int,
            );
        }
        self.num_fragments_received += 1;
        self.fragment_received[fragment.fragment_id] = true;
        self.store_fragment(
            fragment.sequence,
            fragment.ack,
            fragment.ack_bits,
            fragment.fragment_id,
            fragment_size,
            fragment_data,
        );
        proof {
            lemma_stored(before, *self, *fragment, fragment_size as int, fragment_data@);
        }
    }

    proof fn lemma_joined(&self, n: nat, fragment_size: int)
        requires
            self.wf(fragment_size),
            self.pieces(fragment_size).is_complete(),
            n < self.num_fragments_total,
        ensures
            n * fragment_size <= self.num_fragments_total * fragment_size,
            0 <= n * fragment_size,
            self.pieces(fragment_size).joined(n) == self.packet_data@.subrange(
                MAX_PACKET_HEADER_BYTES as int,
                Self::offset(n as int, fragment_size),
            ),
        decreases n,
    {
        lemma_fragment_before(n as int, self.num_fragments_total as int, fragment_size);
        if n == 0 {
            assert(n * fragment_size == 0) by (nonlinear_arith)
                requires
                    n == 0,
            ;
        } else {
            self.lemma_joined((n - 1) as nat, fragment_size);
            assert(n * fragment_size == (n - 1) * fragment_size + fragment_size)
                by (nonlinear_arith);
            assert(self.pieces(fragment_size).has_fragment(n - 1));
        }
        assert(self.pieces(fragment_size).joined(n) =~= self.packet_data@.subrange(
            MAX_PACKET_HEADER_BYTES as int,
            Self::offset(n as int, fragment_size),
        ));
    }

    /// Whether every fragment has been received.
    pub fn is_complete(&self, fragment_size: usize) -> (complete: bool)
        requires
            self.wf(fragment_size as int),
        ensures
            complete == self.pieces(fragment_size as int).is_complete(),
    {
        proof {
            lemma_count_bound(self.fragment_received@, self.num_fragments_total as nat);
            assert(forall|i: int|
                0 <= i < self.num_fragments_total ==> self.pieces(
                    fragment_size as int,
                ).has_fragment(i) == self.fragment_received@[i]);
        }
        self.num_fragments_received == self.num_fragments_total
    }

    /// The packet that the fragments make up.
    pub fn packet(&self, fragment_size: usize) -> (packet: &[u8])
        requires
            self.wf(fragment_size as int),
            self.pieces(fragment_size as int).is_complete(),
        ensures
            packet@ == self.pieces(fragment_size as int).packet(),
    {
        let ghost last = (self.num_fragments_total - 1) as nat;
        let ghost pieces = self.pieces(fragment_size as int);
        proof {
            self.lemma_joined(last, fragment_size as int);
            lemma_fragment_before(last as int, self.num_fragments_total as int, fragment_size as int);
            assert(pieces.has_fragment(0));
            assert(pieces.has_fragment(last as int));
            assert(self.packet_data.len() <= usize::MAX);
        }
        let packet = slice_subrange(
            self.packet_data.as_slice(),
            MAX_PACKET_HEADER_BYTES - self.packet_header_bytes,
            MAX_PACKET_HEADER_BYTES + self.packet_bytes,
        );
        assert(packet@ =~= pieces.header + (pieces.joined(last) + pieces.fragments[last as int]));
        packet
    }
}

} // verus!
