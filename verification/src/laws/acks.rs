//! Laws of acknowledgement.

use vstd::arithmetic::power2::pow2;
use vstd::bits::lemma_u32_shr_is_div;
use vstd::prelude::*;

use crate::config::Counters;
use crate::model::{DeliveryView, EndpointView, RttSample, SentPacketData};
use crate::sequence::seq_add;
use crate::sequence_buffer::{ack_bit, SequenceBufferView};

verus! {

proof fn lemma_bits_below<T>(buffer: SequenceBufferView<T>, n: nat, i: int)
    requires
        n <= 32,
        0 <= i < 32,
    ensures
        ack_bit(buffer.ack_bits_below(n), i) <==> i < n && buffer.contains(
            seq_add(buffer.newest(), -i),
        ),
    decreases n,
{
    let j = i as u32;
    if n == 0 {
        assert((0u32 >> j) & 1 == 0) by (bit_vector);
    } else {
        let below = buffer.ack_bits_below((n - 1) as nat);
        let k = (n - 1) as u32;
        lemma_bits_below(buffer, (n - 1) as nat, i);
        assert(((below | (1u32 << k)) >> j) & 1 == (if j == k {
            1u32
        } else {
            (below >> j) & 1
        })) by (bit_vector)
            requires
                j < 32,
                k < 32,
        ;
    }
}

/// The ack bits that an endpoint sends tell exactly which of the packets up to the most
/// recent one have been received: bit `i` is set if and only if the packet `i` before the
/// most recent one has.
pub proof fn law_ack_bits_tell_what_was_received<T>(buffer: SequenceBufferView<T>, i: int)
    requires
        0 <= i < 32,
    ensures
        ack_bit(buffer.ack_bits(), i) <==> buffer.contains(seq_add(buffer.newest(), -i)),
{
    lemma_bits_below(buffer, 32, i);
}

/// The lowest `n` of the ack bits acknowledge a packet.
pub open spec fn acknowledges(ack: u16, ack_bits: u32, n: nat, s: u16) -> bool {
    exists|i: int| 0 <= i < n && #[trigger] ack_bit(ack_bits, i) && s == seq_add(ack, -i)
}

impl<I> EndpointView<I> {
    /// The acks that are reported in a state and were not in an earlier one.
    pub open spec fn new_acks(self, before: Self) -> Seq<u16> {
        self.acks.skip(before.acks.len() as int)
    }

    /// Exactly the acks that are news are reported. Looking at the lowest `n` ack bits of a
    /// packet adds to the list of acks, and what it adds are packets that awaited their ack
    /// and are acknowledged by the bits, none of them twice, each with the round trip that it
    /// made. A packet that awaited its ack and is acknowledged is left out only if the ack
    /// buffer is full, and then still awaits its ack.
    pub proof fn law_news_is_reported(self, ack: u16, ack_bits: u32, n: nat)
        requires
            n <= 32,
            self.acks.len() == self.ack_samples.len(),
            self.acks.len() <= self.config.ack_buffer_size,
        ensures
            ({
                let after = self.after_acks(ack, ack_bits, n);
                let news = after.new_acks(self);
                &&& self.acks.len() <= after.acks.len() <= self.config.ack_buffer_size
                &&& after.acks.len() <= self.acks.len() + n
                &&& after.acks == self.acks + news
                &&& news.no_duplicates()
                &&& forall|s: u16| #[trigger]
                    news.contains(s) ==> self.awaits_ack(s) && acknowledges(ack, ack_bits, n, s)
                &&& forall|s: u16|
                    #![trigger news.contains(s)]
                    self.awaits_ack(s) && acknowledges(ack, ack_bits, n, s) && !news.contains(s)
                        ==> after.acks.len() == self.config.ack_buffer_size
                &&& forall|s: u16| #[trigger]
                    after.awaits_ack(s) <==> self.awaits_ack(s) && !news.contains(s)
                &&& forall|s: u16| #[trigger]
                    after.sent_packets.contains(s) <==> self.sent_packets.contains(s)
                &&& forall|s: u16| #[trigger]
                    after.sent_packets.contains(s) ==> after.sent_packets.entries[s] == (
                    SentPacketData {
                        acked: self.sent_packets.entries[s].acked || news.contains(s),
                        ..self.sent_packets.entries[s]
                    })
                &&& after.ack_samples.len() == after.acks.len()
                &&& forall|j: int|
                    0 <= j < self.acks.len() ==> #[trigger] after.ack_samples[j]
                        == self.ack_samples[j]
                &&& forall|j: int|
                    self.acks.len() <= j < after.acks.len() ==> #[trigger] after.ack_samples[j] == (
                    RttSample {
                        sent: self.sent_packets.entries[after.acks[j]].time,
                        acked: self.time,
                    })
            }),
        decreases n,
    {
        self.lemma_after_acks_frame(ack, ack_bits, n);
        if n > 0 {
            let i = n - 1;
            let before = self.after_acks(ack, ack_bits, i as nat);
            let s = seq_add(ack, -i);
            self.law_news_is_reported(ack, ack_bits, i as nat);
            self.lemma_after_acks_frame(ack, ack_bits, i as nat);
            let after = self.after_acks(ack, ack_bits, n);
            let old_news = before.new_acks(self);
            let news = after.new_acks(self);
            assert forall|t: u16| acknowledges(ack, ack_bits, n, t) implies acknowledges(
                ack,
                ack_bits,
                i as nat,
                t,
            ) || (t == s && ack_bit(ack_bits, i)) by {
                let k = choose|k: int|
                    0 <= k < n && #[trigger] ack_bit(ack_bits, k) && t == seq_add(ack, -k);
                if k < i {
                    assert(acknowledges(ack, ack_bits, i as nat, t));
                }
            }
            assert forall|t: u16| acknowledges(ack, ack_bits, i as nat, t) implies acknowledges(
                ack,
                ack_bits,
                n,
                t,
            ) by {
                let k = choose|k: int|
                    0 <= k < i && #[trigger] ack_bit(ack_bits, k) && t == seq_add(ack, -k);
                assert(acknowledges(ack, ack_bits, n, t));
            }
            if ack_bit(ack_bits, i) && before.awaits_ack(s) && before.acks.len()
                < self.config.ack_buffer_size {
                assert(acknowledges(ack, ack_bits, n, s));
                assert(news =~= old_news.push(s));
                assert forall|t: u16| #[trigger] news.contains(t) <==> old_news.contains(t) || t
                    == s by {
                    if old_news.contains(t) {
                        let k = choose|k: int| 0 <= k < old_news.len() && old_news[k] == t;
                        assert(news[k] == t);
                    }
                    assert(news[old_news.len() as int] == s);
                }
                assert(!old_news.contains(s));
                assert(before.sent_packets.contains(s));
                assert(self.sent_packets.entries[s].time == before.sent_packets.entries[s].time);
            } else {
                assert(news =~= old_news);
            }
            assert forall|t: u16| #[trigger]
                after.sent_packets.contains(t) <==> self.sent_packets.contains(t) by {
                assert(before.sent_packets.contains(t) <==> self.sent_packets.contains(t));
            }
            assert forall|t: u16| #[trigger]
                after.sent_packets.contains(t) implies after.sent_packets.entries[t] == (
            SentPacketData {
                acked: self.sent_packets.entries[t].acked || news.contains(t),
                ..self.sent_packets.entries[t]
            }) by {
                assert(before.sent_packets.contains(t));
            }
        } else {
            assert(self.new_acks(self) =~= Seq::empty());
        }
    }

    /// The list of packets that ack bits acknowledge and that await their ack holds exactly
    /// those, each once.
    pub proof fn lemma_awaited(self, ack: u16, ack_bits: u32, n: nat)
        requires
            n <= 32,
        ensures
            self.awaited(ack, ack_bits, n).len() <= n,
            self.awaited(ack, ack_bits, n).no_duplicates(),
            forall|s: u16| #[trigger]
                self.awaited(ack, ack_bits, n).contains(s) <==> self.awaits_ack(s) && acknowledges(
                    ack,
                    ack_bits,
                    n,
                    s,
                ),
        decreases n,
    {
        if n > 0 {
            let i = n - 1;
            let t = seq_add(ack, -i);
            let before = self.awaited(ack, ack_bits, i as nat);
            let after = self.awaited(ack, ack_bits, n);
            self.lemma_awaited(ack, ack_bits, i as nat);
            lemma_acknowledges_one_more(ack, ack_bits, n);
            assert(!before.contains(t));
            assert forall|s: u16| #[trigger] after.contains(s) <==> self.awaits_ack(s)
                && acknowledges(ack, ack_bits, n, s) by {
                assert(before.contains(s) <==> self.awaits_ack(s) && acknowledges(
                    ack,
                    ack_bits,
                    i as nat,
                    s,
                ));
                if after.len() > before.len() {
                    lemma_pushed(before, t, s);
                }
            }
        }
    }

    /// The new acks come by ascending bit, the most recent packet first, and are as many as
    /// there is room for: of the packets that are acknowledged and await their ack, the first
    /// that fit are added to the list and counted, and the others still await their ack.
    pub proof fn law_new_acks_are_the_first_that_fit(self, ack: u16, ack_bits: u32, n: nat)
        requires
            n <= 32,
            self.acks.len() == self.ack_samples.len(),
            self.acks.len() <= self.config.ack_buffer_size,
            self.counters.num_packets_acked <= u64::MAX - 32,
        ensures
            ({
                let after = self.after_acks(ack, ack_bits, n);
                let awaited = self.awaited(ack, ack_bits, n);
                let room = self.config.ack_buffer_size - self.acks.len();
                let fit = if awaited.len() <= room {
                    awaited.len() as int
                } else {
                    room
                };
                &&& after.acks == self.acks + awaited.take(fit)
                &&& after.counters == (Counters {
                    num_packets_acked: (self.counters.num_packets_acked + fit) as u64,
                    ..self.counters
                })
                &&& forall|j: int|
                    fit <= j < awaited.len() ==> after.awaits_ack(#[trigger] awaited[j])
            }),
        decreases n,
    {
        let after = self.after_acks(ack, ack_bits, n);
        let awaited = self.awaited(ack, ack_bits, n);
        let room = self.config.ack_buffer_size - self.acks.len();
        if n == 0 {
            assert(self.acks + awaited.take(0) =~= self.acks);
        } else {
            let i = n - 1;
            let s = seq_add(ack, -i);
            let before = self.after_acks(ack, ack_bits, i as nat);
            let old_awaited = self.awaited(ack, ack_bits, i as nat);
            self.law_new_acks_are_the_first_that_fit(ack, ack_bits, i as nat);
            self.lemma_awaited(ack, ack_bits, i as nat);
            self.law_news_is_reported(ack, ack_bits, i as nat);
            self.lemma_after_acks_frame(ack, ack_bits, i as nat);
            lemma_acknowledges_one_more(ack, ack_bits, n);
            assert(!before.new_acks(self).contains(s));
            assert(before.awaits_ack(s) == self.awaits_ack(s));
            if ack_bit(ack_bits, i) && self.awaits_ack(s) {
                if old_awaited.len() < room {
                    assert(old_awaited.take(old_awaited.len() as int) =~= old_awaited);
                    assert(awaited.take(awaited.len() as int) =~= awaited);
                    assert(self.acks + awaited =~= (self.acks + old_awaited).push(s));
                } else {
                    assert(awaited.take(room) =~= old_awaited.take(room));
                }
            }
            self.law_news_is_reported(ack, ack_bits, n);
            self.lemma_awaited(ack, ack_bits, n);
            let fit = if awaited.len() <= room {
                awaited.len() as int
            } else {
                room
            };
            assert(after.new_acks(self) =~= awaited.take(fit));
            assert forall|j: int| fit <= j < awaited.len() implies after.awaits_ack(
                #[trigger] awaited[j],
            ) by {
                assert(awaited.contains(awaited[j]));
                if awaited.take(fit).contains(awaited[j]) {
                    let k = choose|k: int| 0 <= k < fit && awaited.take(fit)[k] == awaited[j];
                    assert(awaited[k] == awaited[j]);
                }
            }
        }
    }

    /// An ack that was left out for want of room is reported by a later packet that carries it,
    /// once there is room for all that are due.
    pub proof fn law_ack_comes_once_there_is_room(self, ack: u16, ack_bits: u32, s: u16)
        requires
            self.acks.len() == self.ack_samples.len(),
            self.counters.num_packets_acked <= u64::MAX - 32,
            self.acks.len() + self.awaited(ack, ack_bits, 32).len() <= self.config.ack_buffer_size,
            self.awaits_ack(s),
            acknowledges(ack, ack_bits, 32, s),
        ensures
            self.after_acks(ack, ack_bits, 32).new_acks(self).contains(s),
            self.after_acks(ack, ack_bits, 32).acks == self.acks + self.awaited(ack, ack_bits, 32),
    {
        let awaited = self.awaited(ack, ack_bits, 32);
        self.law_new_acks_are_the_first_that_fit(ack, ack_bits, 32);
        self.lemma_awaited(ack, ack_bits, 32);
        assert(awaited.take(awaited.len() as int) =~= awaited);
        assert(self.after_acks(ack, ack_bits, 32).new_acks(self) =~= awaited);
        assert(awaited.contains(s));
    }
}

proof fn lemma_pushed(list: Seq<u16>, t: u16, s: u16)
    ensures
        list.push(t).contains(s) <==> list.contains(s) || s == t,
{
    let longer = list.push(t);
    if list.contains(s) {
        let k = choose|k: int| 0 <= k < list.len() && list[k] == s;
        assert(longer[k] == s);
    }
    assert(longer[list.len() as int] == t);
    if longer.contains(s) {
        let k = choose|k: int| 0 <= k < longer.len() && longer[k] == s;
        if k < list.len() {
            assert(list[k] == s);
        }
    }
}

/// One more ack bit acknowledges one more packet, if it is set.
proof fn lemma_acknowledges_one_more(ack: u16, ack_bits: u32, n: nat)
    requires
        0 < n <= 32,
    ensures
        forall|s: u16| #[trigger]
            acknowledges(ack, ack_bits, n, s) <==> acknowledges(ack, ack_bits, (n - 1) as nat, s)
                || (ack_bit(ack_bits, n - 1) && s == seq_add(ack, -(n - 1))),
        !acknowledges(ack, ack_bits, (n - 1) as nat, seq_add(ack, -(n - 1))),
{
    let m = (n - 1) as nat;
    assert forall|s: u16| #[trigger] acknowledges(ack, ack_bits, n, s) <==> acknowledges(
        ack,
        ack_bits,
        m,
        s,
    ) || (ack_bit(ack_bits, n - 1) && s == seq_add(ack, -(n - 1))) by {
        if acknowledges(ack, ack_bits, n, s) {
            let k = choose|k: int|
                0 <= k < n && #[trigger] ack_bit(ack_bits, k) && s == seq_add(ack, -k);
            if k < m {
                assert(acknowledges(ack, ack_bits, m, s));
            }
        }
        if acknowledges(ack, ack_bits, m, s) {
            let k = choose|k: int|
                0 <= k < m && #[trigger] ack_bit(ack_bits, k) && s == seq_add(ack, -k);
            assert(acknowledges(ack, ack_bits, n, s));
        }
    }
}

/// Bit `i` of the ack bits is the one that stands for two to the power of `i`.
pub proof fn law_ack_bits_are_binary_digits(ack_bits: u32, i: int)
    requires
        0 <= i < 32,
    ensures
        ack_bit(ack_bits, i) <==> ack_bits as nat / pow2(i as nat) % 2 == 1,
{
    let shifted = ack_bits >> (i as u32);
    lemma_u32_shr_is_div(ack_bits, i as u32);
    assert(shifted & 1 == shifted % 2) by (bit_vector);
}

/// How far back from the ack a packet is.
pub open spec fn back_from(ack: u16, s: u16) -> int {
    (ack - s) % 0x1_0000
}

/// The bit that acknowledges a packet is the one for how far back from the ack it is.
proof fn lemma_acknowledges_back(ack: u16, ack_bits: u32, s: u16)
    ensures
        acknowledges(ack, ack_bits, 32, s) <==> back_from(ack, s) < 32 && ack_bit(
            ack_bits,
            back_from(ack, s),
        ),
{
    let back = back_from(ack, s);
    if acknowledges(ack, ack_bits, 32, s) {
        let i = choose|i: int|
            0 <= i < 32 && #[trigger] ack_bit(ack_bits, i) && s == seq_add(ack, -i);
        assert(i == back);
    }
    if back < 32 && ack_bit(ack_bits, back) {
        assert(s == seq_add(ack, -back));
        assert(acknowledges(ack, ack_bits, 32, s));
    }
}

impl<I> EndpointView<I> {
    proof fn lemma_awaited_order(self, ack: u16, ack_bits: u32, n: nat, j: int, k: int)
        requires
            n <= 32,
        ensures
            0 <= j < self.awaited(ack, ack_bits, n).len() ==> back_from(
                ack,
                self.awaited(ack, ack_bits, n)[j],
            ) < n,
            0 <= j < k < self.awaited(ack, ack_bits, n).len() ==> back_from(
                ack,
                self.awaited(ack, ack_bits, n)[j],
            ) < back_from(ack, self.awaited(ack, ack_bits, n)[k]),
        decreases n,
    {
        if n > 0 {
            self.lemma_awaited_order(ack, ack_bits, (n - 1) as nat, j, k);
        }
    }

    /// The list of packets that the ack bits acknowledge and that await their ack starts with the
    /// most recent one and goes back from there. It has a packet exactly if that is less than 32
    /// before the ack, the bit for it is set, and it is tracked and not acked.
    pub proof fn law_awaited_goes_back(self, ack: u16, ack_bits: u32, s: u16, j: int, k: int)
        ensures
            ({
                let awaited = self.awaited(ack, ack_bits, 32);
                let back = back_from(ack, s);
                &&& awaited.contains(s) <==> back < 32 && ack_bit(ack_bits, back)
                    && self.sent_packets.entries.dom().contains(s)
                    && !self.sent_packets.entries[s].acked
                &&& 0 <= j < k < awaited.len() ==> back_from(ack, awaited[j]) < back_from(
                    ack,
                    awaited[k],
                )
            }),
    {
        self.lemma_awaited(ack, ack_bits, 32);
        self.lemma_awaited_order(ack, ack_bits, 32, j, k);
        lemma_acknowledges_back(ack, ack_bits, s);
    }

    /// The acks that accepting a packet adds are of packets less than 32 before the ack that it
    /// carries, whose bits are set, and that were tracked and not acked. The most recent one comes
    /// first, and the list goes back from there. A packet of which this holds is left out only if
    /// the list is full and those added are all more recent. Each ack that is added is counted, and
    /// makes the packet an acked one; of the tracked packets nothing else changes.
    pub proof fn law_new_acks_go_back(self, d: DeliveryView, s: u16, j: int, k: int)
        requires
            self.wf(),
            self.counters.num_packets_acked <= u64::MAX - 32,
        ensures
            ({
                let after = self.accept(d);
                let old = self.acks.len() as int;
                let back = back_from(d.ack, s);
                let was_there = self.sent_packets.entries.dom().contains(s);
                let due = back < 32 && ack_bit(d.ack_bits, back) && was_there
                    && !self.sent_packets.entries[s].acked;
                let added = after.acks.skip(old).contains(s);
                &&& old <= after.acks.len() <= self.config.ack_buffer_size
                &&& after.acks.take(old) == self.acks
                &&& added ==> due
                &&& due && !added ==> after.acks.len() == self.config.ack_buffer_size && (old <= j
                    < after.acks.len() ==> back_from(d.ack, after.acks[j]) < back)
                &&& old <= j < k < after.acks.len() ==> back_from(d.ack, after.acks[j])
                    < back_from(d.ack, after.acks[k])
                &&& after.counters.num_packets_acked == self.counters.num_packets_acked
                    + after.acks.len() - old
                &&& after.sent_packets.entries.dom().contains(s) <==> was_there
                &&& was_there ==> after.sent_packets.entries[s] == (SentPacketData {
                    acked: self.sent_packets.entries[s].acked || added,
                    ..self.sent_packets.entries[s]
                })
                &&& after.ack_samples.len() == after.acks.len()
                &&& 0 <= j < old ==> after.ack_samples[j] == self.ack_samples[j]
                &&& old <= j < after.acks.len() ==> after.ack_samples[j] == (RttSample {
                    sent: self.sent_packets.entries[after.acks[j]].time,
                    acked: self.time,
                })
            }),
    {
        let inserted = self.inserting(d);
        let after = self.accept(d);
        let old = self.acks.len() as int;
        let awaited = inserted.awaited(d.ack, d.ack_bits, 32);
        inserted.lemma_awaited(d.ack, d.ack_bits, 32);
        inserted.law_news_is_reported(d.ack, d.ack_bits, 32);
        inserted.law_new_acks_are_the_first_that_fit(d.ack, d.ack_bits, 32);
        inserted.law_awaited_goes_back(d.ack, d.ack_bits, s, j - old, k - old);
        let added = after.acks.skip(old);
        assert(added == after.new_acks(inserted));
        assert(after.acks.take(old) =~= self.acks);
        assert(after.sent_packets.contains(s) <==> inserted.sent_packets.contains(s));
        if added.contains(s) {
            assert(inserted.awaits_ack(s));
            let i = choose|i: int| 0 <= i < added.len() && added[i] == s;
            assert(awaited[i] == s);
        }
        if awaited.contains(s) && !added.contains(s) {
            let i = choose|i: int| 0 <= i < awaited.len() && awaited[i] == s;
            if i < added.len() {
                assert(added[i] == s);
            }
            if old <= j < after.acks.len() {
                assert(after.acks[j] == awaited[j - old]);
                inserted.law_awaited_goes_back(d.ack, d.ack_bits, s, j - old, i);
            }
        }
    }
}

} // verus!
