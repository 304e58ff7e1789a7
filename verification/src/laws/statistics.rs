//! Laws of the counts and samples that packet loss, bandwidth and round trip times are taken from.

use vstd::arithmetic::div_mod::lemma_mod_bound;
use vstd::prelude::*;
use vstd::set_lib::{lemma_int_range, lemma_len_subset, set_int_range};

use crate::model::{
    bytes_of_samples, BandwidthSample, DeliveryView, EndpointView, RttSample,
};
use crate::sequence::seq_add;

verus! {

/// The numbers below `n` that satisfy a condition.
pub open spec fn below_with(n: nat, condition: spec_fn(int) -> bool) -> Set<int> {
    Set::new(|i: int| 0 <= i < n && condition(i))
}

/// One more number is looked at: it is counted if it satisfies the condition.
pub proof fn lemma_below_one_more(n: nat, condition: spec_fn(int) -> bool)
    requires
        n > 0,
    ensures
        below_with(n, condition).finite(),
        below_with((n - 1) as nat, condition).finite(),
        below_with(n, condition).len() == below_with((n - 1) as nat, condition).len() + (
        if condition(n - 1) {
            1nat
        } else {
            0
        }),
{
    let fewer = below_with((n - 1) as nat, condition);
    let more = below_with(n, condition);
    lemma_int_range(0, n as int);
    lemma_len_subset(fewer, set_int_range(0, n as int));
    lemma_len_subset(more, set_int_range(0, n as int));
    if condition(n - 1) {
        assert(more =~= fewer.insert(n - 1));
    } else {
        assert(more =~= fewer);
    }
}

/// The numbers below `n` that satisfy a condition, in ascending order.
pub open spec fn listed(n: nat, condition: spec_fn(int) -> bool) -> Seq<int> {
    Seq::new(n, |i: int| i).filter(condition)
}

proof fn lemma_listed_one_more(n: nat, condition: spec_fn(int) -> bool)
    requires
        n > 0,
    ensures
        listed(n, condition) == (if condition(n - 1) {
            listed((n - 1) as nat, condition).push(n - 1)
        } else {
            listed((n - 1) as nat, condition)
        }),
{
    let all = Seq::new(n, |i: int| i);
    assert(all.drop_last() =~= Seq::new((n - 1) as nat, |i: int| i));
    reveal(Seq::filter);
}

impl<I> EndpointView<I> {
    /// The packet `i` on from the oldest that the sent packet buffer can hold is tracked.
    pub open spec fn tracks_sent(self) -> spec_fn(int) -> bool {
        |i: int|
            self.sent_packets.entries.dom().contains(
                seq_add(self.sequence, i - self.config.sent_packets_buffer_size),
            )
    }

    /// It is tracked and has been acked.
    pub open spec fn tracks_acked(self) -> spec_fn(int) -> bool {
        |i: int|
            {
                let s = seq_add(self.sequence, i - self.config.sent_packets_buffer_size);
                self.sent_packets.entries.dom().contains(s) && self.sent_packets.entries[s].acked
            }
    }

    /// It is tracked and has not been acked.
    pub open spec fn tracks_unacked(self) -> spec_fn(int) -> bool {
        |i: int|
            {
                let s = seq_add(self.sequence, i - self.config.sent_packets_buffer_size);
                self.sent_packets.entries.dom().contains(s) && !self.sent_packets.entries[s].acked
            }
    }

    /// The packet `i` on from the oldest that the received packet buffer can hold is tracked.
    pub open spec fn tracks_received(self) -> spec_fn(int) -> bool {
        |i: int|
            self.received_packets.entries.dom().contains(
                seq_add(
                    self.received_packets.sequence,
                    i - self.config.received_packets_buffer_size,
                ),
            )
    }

    proof fn lemma_same_numbers(self, i: int)
        requires
            self.wf(),
        ensures
            seq_add(self.sent_packets.oldest(), i) == seq_add(
                self.sequence,
                i - self.config.sent_packets_buffer_size,
            ),
            seq_add(self.received_packets.oldest(), i) == seq_add(
                self.received_packets.sequence,
                i - self.config.received_packets_buffer_size,
            ),
    {
    }

    /// Of the `n` oldest packets that the sent packet buffer can hold, the first count is the
    /// number of those that are tracked, and the second the number of those of them that have not
    /// been acked. The difference is the number of those that have.
    pub proof fn law_loss_counts_the_packets(self, n: nat)
        requires
            self.wf(),
        ensures
            self.num_sent(n) == below_with(n, self.tracks_sent()).len(),
            self.num_dropped(n) == below_with(n, self.tracks_unacked()).len(),
            self.num_sent(n) - self.num_dropped(n) == below_with(n, self.tracks_acked()).len(),
        decreases n,
    {
        if n == 0 {
            assert(below_with(0, self.tracks_sent()) =~= Set::empty());
            assert(below_with(0, self.tracks_unacked()) =~= Set::empty());
            assert(below_with(0, self.tracks_acked()) =~= Set::empty());
        } else {
            self.law_loss_counts_the_packets((n - 1) as nat);
            self.lemma_same_numbers(n - 1);
            lemma_below_one_more(n, self.tracks_sent());
            lemma_below_one_more(n, self.tracks_unacked());
            lemma_below_one_more(n, self.tracks_acked());
        }
    }

    /// The bandwidth samples of sent packets are those of the tracked ones, or of those of them
    /// that have been acked, each with the time and the bytes that are kept of it, from the oldest
    /// on.
    pub proof fn law_sent_samples_are_those_tracked(self, acked_only: bool, n: nat, k: int)
        requires
            self.wf(),
        ensures
            ({
                let places = listed(
                    n,
                    if acked_only {
                        self.tracks_acked()
                    } else {
                        self.tracks_sent()
                    },
                );
                let samples = self.sent_samples(acked_only, n);
                let packet = self.sent_packets.entries[seq_add(
                    self.sequence,
                    places[k] - self.config.sent_packets_buffer_size,
                )];
                &&& samples.len() == places.len()
                &&& 0 <= k < samples.len() ==> samples[k].time == packet.time
                    && samples[k].packet_bytes == packet.packet_bytes
            }),
        decreases n,
    {
        let condition = if acked_only {
            self.tracks_acked()
        } else {
            self.tracks_sent()
        };
        if n == 0 {
            reveal(Seq::filter);
            assert(listed(0, condition) =~= Seq::empty());
        } else {
            self.law_sent_samples_are_those_tracked(acked_only, (n - 1) as nat, k);
            self.lemma_same_numbers(n - 1);
            lemma_listed_one_more(n, condition);
        }
    }

    /// The bandwidth samples of received packets are those of the tracked ones, each with the time
    /// and the bytes that are kept of it, from the oldest on.
    pub proof fn law_received_samples_are_those_tracked(self, n: nat, k: int)
        requires
            self.wf(),
        ensures
            ({
                let places = listed(n, self.tracks_received());
                let samples = self.received_samples(n);
                let packet = self.received_packets.entries[seq_add(
                    self.received_packets.sequence,
                    places[k] - self.config.received_packets_buffer_size,
                )];
                &&& samples.len() == places.len()
                &&& 0 <= k < samples.len() ==> samples[k].time == packet.time
                    && samples[k].packet_bytes == packet.packet_bytes
            }),
        decreases n,
    {
        if n == 0 {
            reveal(Seq::filter);
            assert(listed(0, self.tracks_received()) =~= Seq::empty());
        } else {
            self.law_received_samples_are_those_tracked((n - 1) as nat, k);
            self.lemma_same_numbers(n - 1);
            lemma_listed_one_more(n, self.tracks_received());
        }
    }

    /// The ack at `k` is one that a state reports and an earlier one did not, and none of the acks
    /// after it has the same remainder by the size of the history of round trips.
    pub open spec fn last_new_ack_of_slot(self, before: Self, k: int) -> bool {
        let size = self.config.rtt_history_size as int;
        &&& before.acks.len() <= k < self.acks.len()
        &&& forall|j: int|
            k < j < self.acks.len() ==> #[trigger] self.acks[j] as int % size
                != self.acks[k] as int % size
    }

    /// The history of round trips has a place for each remainder of a sequence number by its size.
    /// After acks were processed, the place of each newly acked packet holds its round trip, from
    /// when it was sent to now, unless a later one of the new acks has the same place. A place that
    /// is not that of any of the new acks is as it was.
    pub proof fn law_round_trips_are_kept(self, ack: u16, ack_bits: u32, n: nat, k: int, slot: int)
        requires
            n <= 32,
            self.config.rtt_history_size > 0,
            self.rtt_history.len() == self.config.rtt_history_size,
            self.acks.len() == self.ack_samples.len(),
            self.acks.len() <= self.config.ack_buffer_size,
        ensures
            ({
                let after = self.after_acks(ack, ack_bits, n);
                let size = self.config.rtt_history_size as int;
                let s = after.acks[k];
                &&& after.rtt_history.len() == size
                &&& after.last_new_ack_of_slot(self, k) ==> after.rtt_history[s as int % size]
                    == Some(
                    RttSample { sent: self.sent_packets.entries[s].time, acked: self.time },
                )
                &&& (0 <= slot < size && forall|j: int|
                    self.acks.len() <= j < after.acks.len() ==> #[trigger] after.acks[j] as int
                        % size != slot) ==> after.rtt_history[slot] == self.rtt_history[slot]
            }),
        decreases n,
    {
        self.law_news_is_reported(ack, ack_bits, n);
        self.lemma_after_acks_frame(ack, ack_bits, n);
        if n > 0 {
            let i = n - 1;
            let before = self.after_acks(ack, ack_bits, i as nat);
            let after = self.after_acks(ack, ack_bits, n);
            let s = seq_add(ack, -i);
            let size = self.config.rtt_history_size as int;
            lemma_mod_bound(s as int, size);
            self.law_round_trips_are_kept(ack, ack_bits, i as nat, k, slot);
            self.law_news_is_reported(ack, ack_bits, i as nat);
            self.lemma_after_acks_frame(ack, ack_bits, i as nat);
            if after != before {
                assert(before.sent_packets.contains(s));
                assert(self.sent_packets.entries[s].time == before.sent_packets.entries[s].time);
                assert(after.acks == before.acks.push(s));
                assert(after.acks[before.acks.len() as int] == s);
                assert(forall|j: int|
                    0 <= j < before.acks.len() ==> after.acks[j] == before.acks[j]);
                if k < before.acks.len() && after.last_new_ack_of_slot(self, k) {
                    assert(after.acks[k] as int % size != s as int % size);
                    assert(before.last_new_ack_of_slot(self, k)) by {
                        assert forall|j: int| k < j < before.acks.len() implies (
                        #[trigger] before.acks[j]) as int % size != before.acks[k] as int % size by {
                            assert(after.acks[j] as int % size != after.acks[k] as int % size);
                        }
                    }
                    lemma_mod_bound(after.acks[k] as int, size);
                }
                if 0 <= slot < size && (forall|j: int|
                    self.acks.len() <= j < after.acks.len() ==> #[trigger] after.acks[j] as int
                        % size != slot) {
                    assert forall|j: int| self.acks.len() <= j < before.acks.len() implies (
                    #[trigger] before.acks[j]) as int % size != slot by {
                        assert(after.acks[j] as int % size != slot);
                    }
                    assert(after.acks[before.acks.len() as int] as int % size != slot);
                }
            }
        }
    }
}

impl<I> EndpointView<I> {
    /// Accepting a packet puts the round trip of each packet that it newly acks, from when that was
    /// sent to now, in its place in the history, unless a later one of the new acks has the same
    /// place, and leaves all places alone that are not those of new acks.
    pub proof fn law_accepting_keeps_round_trips(self, d: DeliveryView, k: int, slot: int)
        requires
            self.wf(),
        ensures
            ({
                let after = self.accept(d);
                let size = self.config.rtt_history_size as int;
                let s = after.acks[k];
                &&& after.rtt_history.len() == size
                &&& after.last_new_ack_of_slot(self, k) ==> after.rtt_history[s as int % size]
                    == Some(
                    RttSample { sent: self.sent_packets.entries[s].time, acked: self.time },
                )
                &&& (0 <= slot < size && forall|j: int|
                    self.acks.len() <= j < after.acks.len() ==> #[trigger] after.acks[j] as int
                        % size != slot) ==> after.rtt_history[slot] == self.rtt_history[slot]
            }),
    {
        self.inserting(d).law_round_trips_are_kept(d.ack, d.ack_bits, 32, k, slot);
    }
}

/// The bytes of samples add up: none for no sample, those of the sample for a single one, and for
/// two lists one after the other those of the one and of the other.
pub proof fn law_bytes_add_up<I>(
    first: Seq<BandwidthSample<I>>,
    second: Seq<BandwidthSample<I>>,
    sample: BandwidthSample<I>,
)
    ensures
        bytes_of_samples(Seq::<BandwidthSample<I>>::empty(), 0) == 0,
        bytes_of_samples(seq![sample], 1) == sample.packet_bytes,
        bytes_of_samples(first + second, first.len() + second.len()) == bytes_of_samples(
            first,
            first.len(),
        ) + bytes_of_samples(second, second.len()),
    decreases second.len(),
{
    reveal_with_fuel(bytes_of_samples, 2);
    if second.len() == 0 {
        lemma_bytes_of_start(first, first + second, first.len());
    } else {
        let shorter = second.drop_last();
        law_bytes_add_up(first, shorter, sample);
        lemma_bytes_of_start(first + shorter, first + second, first.len() + shorter.len());
        lemma_bytes_of_start(shorter, second, shorter.len());
        assert((first + second)[first.len() + second.len() - 1] == second[second.len() - 1]);
    }
}

proof fn lemma_bytes_of_start<I>(
    samples: Seq<BandwidthSample<I>>,
    longer: Seq<BandwidthSample<I>>,
    n: nat,
)
    requires
        n <= samples.len(),
        n <= longer.len(),
        forall|i: int| 0 <= i < n ==> samples[i] == longer[i],
    ensures
        bytes_of_samples(samples, n) == bytes_of_samples(longer, n),
    decreases n,
{
    if n > 0 {
        lemma_bytes_of_start(samples, longer, (n - 1) as nat);
    }
}

} // verus!
