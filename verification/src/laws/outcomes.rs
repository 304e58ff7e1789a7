//! Laws of what becomes of a datagram: whether it leads to a delivery, what is kept of it, and how
//! it is counted.

use vstd::prelude::*;

use crate::config::Counters;
use crate::laws::bounds::header_is_for;
use crate::laws::receiving::{ahead_of, carried};
use crate::laws::window::law_moving_forward;
use crate::laws::wire::{law_bytes_of_a_packet_header, law_reading_a_fragment_header, one_if};
use crate::model::EndpointView;
use crate::packet::{packet_header, parse_fragment_header, parse_packet_header, FragmentHeader};
use crate::reassembly::{fragment_body, ReassemblyView};
use crate::sequence_buffer::SequenceBufferView;

verus! {

impl<I> EndpointView<I> {
    /// What becomes of a packet in one piece. One that is longer than a packet can be with both
    /// headers is only counted as too large. Any other counts as received, and is delivered unless
    /// it has no header that can be read, has too large a payload, is stale or a duplicate; it is
    /// counted as the first of these that holds. Nothing else changes.
    pub proof fn law_outcome_of_a_whole_packet(self, data: Seq<u8>)
        requires
            self.counters.room(),
            data.len() > 0,
            data.len() > self.config.max_packet_size + 14 || data[0] as int % 2 == 0,
        ensures
            ({
                let (after, delivery) = self.open(data);
                let c = self.counters;
                let read = parse_packet_header(data);
                let h = read->Some_0;
                let long = data.len() > self.config.max_packet_size + 14;
                let readable = !long && read is Some;
                let large = readable && data.len() - h.bytes > self.config.max_packet_size;
                let stale = readable && !large && self.received_packets.is_stale(h.sequence);
                let duplicate = readable && !large && !stale
                    && self.received_packets.entries.dom().contains(h.sequence);
                &&& after == (EndpointView { counters: after.counters, ..self })
                &&& after.counters == (Counters {
                    num_packets_received: (c.num_packets_received + one_if(!long)) as u64,
                    num_packets_invalid: (c.num_packets_invalid + one_if(!long && !readable)) as u64,
                    num_packets_too_large_to_receive: (c.num_packets_too_large_to_receive + one_if(
                        long || large,
                    )) as u64,
                    num_packets_stale: (c.num_packets_stale + one_if(stale)) as u64,
                    num_packets_duplicate: (c.num_packets_duplicate + one_if(duplicate)) as u64,
                    ..c
                })
                &&& delivery is Some <==> readable && !large && !stale && !duplicate
                &&& delivery matches Some(d) ==> {
                    &&& d.sequence == h.sequence
                    &&& d.ack == h.ack
                    &&& d.ack_bits == h.ack_bits
                    &&& d.packet_bytes == data.len()
                    &&& d.payload == data.skip(h.bytes as int)
                }
            }),
    {
    }

    /// The fragment that a datagram is, if it is one that can be read.
    pub open spec fn fragment_in(self, data: Seq<u8>) -> Option<FragmentHeader> {
        if data.len() <= self.config.max_packet_size + 14 {
            parse_fragment_header(
                data,
                self.config.max_fragments as int,
                self.config.fragment_size as int,
            )
        } else {
            None
        }
    }

    /// What becomes of a fragment that is of no use. One that cannot be read, one of a packet that
    /// there is no place for, and one that gives another number of fragments than those before it
    /// are only counted as invalid. One of a packet that was received, and one that is there
    /// already, change nothing.
    pub proof fn law_outcome_of_a_useless_fragment(self, data: Seq<u8>)
        requires
            self.counters.room(),
            0 < data.len() <= self.config.max_packet_size + 14,
            data[0] as int % 2 == 1,
        ensures
            ({
                let (after, delivery) = self.open(data);
                let invalid = EndpointView {
                    counters: Counters {
                        num_fragments_invalid: (self.counters.num_fragments_invalid + 1) as u64,
                        ..self.counters
                    },
                    ..self
                };
                let t = carried(data);
                let received = self.received_packets.entries.dom().contains(t);
                let under_way = self.fragment_reassembly.entries.dom().contains(t);
                let entry = self.fragment_reassembly.entries[t];
                match self.fragment_in(data) {
                    None => after == invalid && delivery is None,
                    Some(f) => {
                        &&& f.sequence == t
                        &&& received ==> after == self && delivery is None
                        &&& !received && !under_way && ahead_of(
                            self.fragment_reassembly.sequence,
                            t,
                        ) == 0 && !self.fragment_reassembly.can_insert(t) ==> after == invalid
                            && delivery is None
                        &&& !received && under_way && entry.total != f.num_fragments ==> after
                            == invalid && delivery is None
                        &&& !received && under_way && entry.total == f.num_fragments
                            && entry.fragments.dom().contains(f.fragment_id as int) ==> after
                            == self && delivery is None
                    },
                }
            }),
    {
        law_moving_forward(self.fragment_reassembly, carried(data));
        law_reading_a_fragment_header(
            data,
            self.config.max_fragments as int,
            self.config.fragment_size as int,
        );
    }

    /// What is there of the packet of a fragment before the fragment: nothing if it is the first to
    /// come.
    pub open spec fn kept_for(self, f: FragmentHeader) -> ReassemblyView {
        if self.fragment_reassembly.entries.dom().contains(f.sequence) {
            self.fragment_reassembly.entries[f.sequence]
        } else {
            ReassemblyView {
                total: f.num_fragments as nat,
                header: Seq::empty(),
                fragments: Map::empty(),
            }
        }
    }

    /// The fragment can be read and is of use: its packet was not received, there is a place for
    /// it, and it is one of those that are missing.
    pub open spec fn is_missing(self, data: Seq<u8>) -> bool {
        self.fragment_in(data) matches Some(f) && {
            let under_way = self.fragment_reassembly.entries.dom().contains(f.sequence);
            &&& !self.received_packets.entries.dom().contains(f.sequence)
            &&& under_way || ahead_of(self.fragment_reassembly.sequence, f.sequence) > 0
                || self.fragment_reassembly.can_insert(f.sequence)
            &&& self.kept_for(f).total == f.num_fragments
            &&& !self.kept_for(f).fragments.dom().contains(f.fragment_id as int)
        }
    }

    /// The bytes of its packet that a fragment carries.
    pub open spec fn part_in(self, data: Seq<u8>) -> Seq<u8> {
        if data[3] == 0 {
            data.skip(5).skip(parse_packet_header(data.skip(5))->Some_0.bytes as int)
        } else {
            data.skip(5)
        }
    }

    /// Some other fragment than `f` of its packet has not come yet.
    pub open spec fn others_missing(self, f: FragmentHeader) -> bool {
        exists|i: int|
            0 <= i < f.num_fragments && i != f.fragment_id && !#[trigger] self.kept_for(
                f,
            ).fragments.dom().contains(i)
    }

    /// A fragment that is of use is stored with what is there of its packet.
    proof fn lemma_missing_is_stored(self, data: Seq<u8>)
        requires
            data.len() > 0,
            self.is_missing(data),
        ensures
            ({
                let f = self.fragment_in(data)->Some_0;
                let started = self.reassembling(f);
                &&& self.open(data) == started.store_fragment(f, data.skip(5))
                &&& started.fragment_reassembly.entries[f.sequence] == self.kept_for(f)
                &&& fragment_body(f, data.skip(5)) == self.part_in(data)
            }),
    {
        let f = self.fragment_in(data)->Some_0;
        law_moving_forward(self.fragment_reassembly, f.sequence);
        law_reading_a_fragment_header(
            data,
            self.config.max_fragments as int,
            self.config.fragment_size as int,
        );
        let entry = self.reassembling(f).fragment_reassembly.entries[f.sequence];
        assert(entry =~= self.kept_for(f));
        if f.fragment_id == 0 {
            let inner = parse_packet_header(data.skip(5))->Some_0;
            let header = packet_header(inner.sequence, inner.ack, inner.ack_bits);
            assert(data.skip(5).take(inner.bytes as int).len() == header.len());
        }
    }

    /// A fragment that is of use, while others of its packet have not come yet, is counted and kept
    /// beside those of the packet that are there, the first one with the packet header. The
    /// packets under reassembly are otherwise those that were there; if the packet is a new one,
    /// those of them that stay in the window and have another slot.
    pub proof fn law_fragment_is_kept(self, data: Seq<u8>, s: u16)
        requires
            self.counters.room(),
            data.len() > 0,
            self.is_missing(data),
            self.others_missing(self.fragment_in(data)->Some_0),
        ensures
            ({
                let f = self.fragment_in(data)->Some_0;
                let t = f.sequence;
                let (after, delivery) = self.open(data);
                let before = self.fragment_reassembly;
                let kept = after.fragment_reassembly;
                let under_way = before.entries.dom().contains(t);
                &&& delivery is None
                &&& after.counters == (Counters {
                    num_fragments_received: (self.counters.num_fragments_received + 1) as u64,
                    ..self.counters
                })
                &&& kept.entries.dom().contains(t)
                &&& kept.entries[t].total == f.num_fragments
                &&& kept.entries[t].fragments == self.kept_for(f).fragments.insert(
                    f.fragment_id as int,
                    self.part_in(data),
                )
                &&& kept.entries[t].header == (if f.fragment_id == 0 {
                    packet_header(t, f.ack, f.ack_bits)
                } else {
                    self.kept_for(f).header
                })
                &&& under_way ==> kept.sequence == before.sequence && kept.entries.dom()
                    == before.entries.dom()
                &&& !under_way ==> kept.sequence == before.advanced(t).sequence && (s != t ==> (
                kept.entries.dom().contains(s) <==> before.advanced(t).entries.dom().contains(s)
                    && s as int % (before.num_entries as int) != t as int % (
                before.num_entries as int)))
                &&& s != t && kept.entries.dom().contains(s) ==> kept.entries[s]
                    == before.entries[s]
            }),
    {
        let f = self.fragment_in(data)->Some_0;
        self.lemma_missing_is_stored(data);
        let i = choose|i: int|
            0 <= i < f.num_fragments && i != f.fragment_id && !#[trigger] self.kept_for(
                f,
            ).fragments.dom().contains(i);
        let stored = self.kept_for(f).stored(
            f.fragment_id as int,
            packet_header(f.sequence, f.ack, f.ack_bits),
            self.part_in(data),
        );
        assert(!stored.has_fragment(i));
        lemma_kept_among_others(self.fragment_reassembly, f.sequence, self.kept_for(f), stored, s);
    }

    /// Once the last missing fragment of a packet comes, it is counted, the packet is no longer
    /// under reassembly, and what happens is what happens when the packet comes in one piece: the
    /// header that came with the first fragment, and the fragments in a row.
    pub proof fn law_last_fragment_opens_the_packet(self, data: Seq<u8>)
        requires
            self.reassembly_sound(),
            self.counters.room(),
            data.len() > 0,
            self.is_missing(data),
            !self.others_missing(self.fragment_in(data)->Some_0),
        ensures
            ({
                let f = self.fragment_in(data)->Some_0;
                let t = f.sequence;
                let under_way = self.fragment_reassembly.entries.dom().contains(t);
                let all = ReassemblyView {
                    header: if f.fragment_id == 0 {
                        packet_header(t, f.ack, f.ack_bits)
                    } else {
                        self.kept_for(f).header
                    },
                    fragments: self.kept_for(f).fragments.insert(
                        f.fragment_id as int,
                        self.part_in(data),
                    ),
                    ..self.kept_for(f)
                };
                let without = EndpointView {
                    fragment_reassembly: (if under_way {
                        self.fragment_reassembly
                    } else {
                        self.fragment_reassembly.inserted(t, self.kept_for(f))
                    }).removed(t),
                    received_packets: if under_way {
                        self.received_packets
                    } else {
                        self.received_packets.advanced(t)
                    },
                    counters: Counters {
                        num_fragments_received: (self.counters.num_fragments_received + 1) as u64,
                        ..self.counters
                    },
                    ..self
                };
                self.open(data) == without.open(all.packet())
            }),
    {
        let f = self.fragment_in(data)->Some_0;
        let t = f.sequence;
        self.lemma_missing_is_stored(data);
        let entry = self.kept_for(f);
        let all = entry.stored(
            f.fragment_id as int,
            packet_header(t, f.ack, f.ack_bits),
            self.part_in(data),
        );
        assert forall|i: int| 0 <= i < all.total implies all.has_fragment(i) by {
            if i != f.fragment_id {
                assert(entry.fragments.dom().contains(i));
            }
        }
        assert(all.is_complete());
        assert(all.has_fragment(0));
        if f.fragment_id != 0 {
            assert(entry.has_fragment(0));
            assert(self.fragment_reassembly.contains(t));
            assert(header_is_for(entry, t));
        }
        assert(header_is_for(all, t));
        self.reassembling(f).lemma_complete_is_opened(f, data.skip(5), all);
    }

    /// What happens to a packet of which all fragments are there.
    proof fn lemma_complete_is_opened(self, f: FragmentHeader, rest: Seq<u8>, all: ReassemblyView)
        requires
            all == self.fragment_reassembly.entries[f.sequence].stored(
                f.fragment_id as int,
                packet_header(f.sequence, f.ack, f.ack_bits),
                fragment_body(f, rest),
            ),
            all.is_complete(),
            all.has_fragment(0),
            header_is_for(all, f.sequence),
        ensures
            self.store_fragment(f, rest) == (EndpointView {
                fragment_reassembly: self.fragment_reassembly.removed(f.sequence),
                counters: Counters {
                    num_fragments_received: (self.counters.num_fragments_received + 1) as u64,
                    ..self.counters
                },
                ..self
            }).open(all.packet()),
    {
        let (ack, ack_bits) = choose|ack: u16, ack_bits: u32|
            all.header == #[trigger] packet_header(f.sequence, ack, ack_bits);
        law_bytes_of_a_packet_header(f.sequence, ack, ack_bits);
        let packet = all.packet();
        assert(packet[0] == all.header[0]);
        let without = EndpointView {
            fragment_reassembly: self.fragment_reassembly.removed(f.sequence),
            counters: Counters {
                num_fragments_received: (self.counters.num_fragments_received + 1) as u64,
                ..self.counters
            },
            ..self
        };
        assert(without.open(packet) == without.open_whole(packet));
    }
}

/// What is there of the entries when one is kept for a number, a new one if there was none, and
/// then changed.
proof fn lemma_kept_among_others<T>(
    before: SequenceBufferView<T>,
    t: u16,
    value: T,
    changed: T,
    s: u16,
)
    ensures
        ({
            let after = before.inserted(t, value).updated(t, changed);
            &&& after.sequence == before.advanced(t).sequence
            &&& after.entries.dom().contains(t)
            &&& after.entries[t] == changed
            &&& s != t ==> (after.entries.dom().contains(s) <==> before.advanced(
                t,
            ).entries.dom().contains(s) && s as int % (before.num_entries as int) != t as int % (
            before.num_entries as int))
            &&& s != t && after.entries.dom().contains(s) ==> after.entries[s] == before.entries[s]
        }),
        before.entries.dom().contains(t) ==> {
            let after = before.updated(t, changed);
            &&& after.entries.dom() == before.entries.dom()
            &&& after.entries[t] == changed
            &&& s != t && after.entries.dom().contains(s) ==> after.entries[s] == before.entries[s]
        },
{
    if before.entries.dom().contains(t) {
        assert(before.updated(t, changed).entries.dom() =~= before.entries.dom());
    }
}

/// Where the bytes of a packet that is put together stand: the header first, and then each fragment
/// as many whole fragments after it as its number says.
pub proof fn law_fragments_stand_in_a_row(entry: ReassemblyView, size: int, i: int)
    requires
        size > 0,
        0 <= i < entry.total,
        forall|j: int| 0 <= j < entry.total - 1 ==> #[trigger] entry.fragments[j].len() == size,
    ensures
        ({
            let packet = entry.packet();
            let start = entry.header.len() + i * size;
            let last = entry.fragments[entry.total - 1];
            &&& packet.len() == entry.header.len() + (entry.total - 1) * size + last.len()
            &&& packet.take(entry.header.len() as int) == entry.header
            &&& 0 <= start && start + entry.fragments[i].len() <= packet.len()
            &&& packet.subrange(start, start + entry.fragments[i].len()) == entry.fragments[i]
        }),
{
    let header = entry.header;
    let packet = entry.packet();
    let last = (entry.total - 1) as nat;
    let start = header.len() + i * size;
    lemma_joined_start(entry, size, last);
    lemma_joined_start(entry, size, i as nat);
    assert(0 <= i * size) by (nonlinear_arith)
        requires
            0 <= i,
            0 < size,
    ;
    assert(packet == header + (entry.joined(last) + entry.fragments[last as int]));
    assert(packet.take(header.len() as int) =~= header);
    if i < last {
        assert((i + 1) * size == i * size + size) by (nonlinear_arith);
        lemma_joined_start(entry, size, (i + 1) as nat);
        lemma_joined_prefix(entry, (i + 1) as nat, last);
        assert((i + 1) * size <= last * size) by (nonlinear_arith)
            requires
                i + 1 <= last,
                0 < size,
        ;
    }
    assert forall|k: int| 0 <= k < entry.fragments[i].len() implies #[trigger] packet[start + k]
        == entry.fragments[i][k] by {
        if i < last {
            let joined = entry.joined((i + 1) as nat);
            assert(packet[start + k] == entry.joined(last)[i * size + k]);
            assert(entry.joined(last).take(joined.len() as int)[i * size + k] == joined[i * size
                + k]);
            assert(entry.fragments[i].len() == size);
        }
    }
    let part = packet.subrange(start, start + entry.fragments[i].len());
    if i < last {
        assert(entry.fragments[i].len() == size);
    }
    assert(start + entry.fragments[i].len() <= packet.len());
    assert forall|k: int| 0 <= k < part.len() implies part[k] == entry.fragments[i][k] by {
        assert(part[k] == packet[start + k]);
    }
    assert(part =~= entry.fragments[i]);
}

proof fn lemma_joined_start(entry: ReassemblyView, size: int, n: nat)
    requires
        n < entry.total,
        forall|j: int| 0 <= j < entry.total - 1 ==> #[trigger] entry.fragments[j].len() == size,
    ensures
        entry.joined(n).len() == n * size,
    decreases n,
{
    if n > 0 {
        lemma_joined_start(entry, size, (n - 1) as nat);
        assert(n * size == (n - 1) * size + size) by (nonlinear_arith);
        assert(entry.fragments[n - 1].len() == size);
    } else {
        assert(n * size == 0) by (nonlinear_arith)
            requires
                n == 0,
        ;
    }
}

proof fn lemma_joined_prefix(entry: ReassemblyView, m: nat, n: nat)
    requires
        m <= n,
    ensures
        entry.joined(m).len() <= entry.joined(n).len(),
        entry.joined(n).take(entry.joined(m).len() as int) == entry.joined(m),
    decreases n,
{
    if m < n {
        lemma_joined_prefix(entry, m, (n - 1) as nat);
        let shorter = entry.joined((n - 1) as nat);
        let k = entry.joined(m).len() as int;
        assert(entry.joined(n).take(k) =~= shorter.take(k));
    } else {
        assert(entry.joined(n).take(entry.joined(m).len() as int) =~= entry.joined(m));
    }
}

} // verus!
