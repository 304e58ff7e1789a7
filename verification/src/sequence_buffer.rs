//! A circular buffer of entries indexed by sequence number.

use vstd::arithmetic::div_mod::{
    lemma_fundamental_div_mod, lemma_mod_bound, lemma_mod_equivalence, lemma_mod_multiples_vanish,
    lemma_small_mod,
};
use vstd::prelude::*;

use crate::sequence::{
    seq_add, seq_behind, seq_distance, seq_newer, sequence_greater_than, sequence_less_than,
};

verus! {

/// What `T::default()` may return.
pub open spec fn is_default<T: Default>(value: T) -> bool {
    call_ensures(T::default, (), value)
}

/// Bit `i` of a word of acknowledgements.
pub open spec fn ack_bit(ack_bits: u32, i: int) -> bool {
    (ack_bits >> (i as u32)) & 1 == 1
}

/// The slot that a number uses, of `n` slots.
pub open spec fn slot_of(number: int, n: nat) -> int {
    number % (n as int)
}

/// The number of slots divides the number of sequence numbers, or each has a slot of its own.
pub open spec fn slots_divide_the_circle(num_entries: nat) -> bool {
    0x1_0000int % (num_entries as int) == 0 || num_entries >= 0x1_0000
}

proof fn lemma_slot_bound(n: nat)
    requires
        n > 0,
    ensures
        forall|s: int| 0 <= #[trigger] slot_of(s, n) < n,
{
    assert forall|s: int| 0 <= #[trigger] slot_of(s, n) < n by {
        lemma_mod_bound(s, n as int);
    }
}

/// What a [`SequenceBuffer`] holds: the entries present, each under its sequence number.
///
/// There are `num_entries` slots, and a sequence number always uses the slot that it is
/// congruent to modulo `num_entries`. Two numbers that share a slot are never present together,
/// and none is present that has fallen out of the window of the last `num_entries` numbers. (A
/// single entry may be one that is half way around the number circle.)
#[verifier::ext_equal]
pub struct SequenceBufferView<T> {
    /// The most recent sequence number inserted, plus one.
    pub sequence: u16,
    pub num_entries: nat,
    pub entries: Map<u16, T>,
}

impl<T> SequenceBufferView<T> {
    pub open spec fn wf(self) -> bool {
        &&& self.num_entries > 0
        &&& forall|a: u16, b: u16|
            #![trigger self.entries.dom().contains(a), self.entries.dom().contains(b)]
            self.contains(a) && self.contains(b) && self.same_slot(a as int, b as int) ==> a == b
        &&& self.num_entries > 1 ==> forall|s: u16| #[trigger]
            self.entries.dom().contains(s) ==> self.in_window(s, self.sequence)
    }

    pub open spec fn empty(num_entries: nat) -> Self {
        SequenceBufferView { sequence: 0, num_entries, entries: Map::empty() }
    }

    pub open spec fn contains(self, sequence: u16) -> bool {
        self.entries.dom().contains(sequence)
    }

    pub open spec fn same_slot(self, a: int, b: int) -> bool {
        slot_of(a, self.num_entries) == slot_of(b, self.num_entries)
    }

    /// The oldest sequence number that is not stale.
    pub open spec fn oldest(self) -> u16 {
        seq_add(self.sequence, -self.num_entries)
    }

    /// The sequence number is not too old to be inserted.
    pub open spec fn can_insert(self, sequence: u16) -> bool {
        !seq_newer(self.oldest(), sequence)
    }

    /// Inserting the sequence number moves the buffer forward.
    pub open spec fn advances(self, sequence: u16) -> bool {
        seq_newer(seq_add(sequence, 1), self.sequence)
    }

    /// The sequence number is among the last `num_entries` numbers before `next`.
    pub open spec fn in_window(self, sequence: u16, next: u16) -> bool {
        seq_behind(sequence, next) <= self.num_entries
    }

    /// The number `s` is one of those that come in when the buffer moves forward to `sequence`:
    /// what was under it is a whole turn of the number circle old.
    pub open spec fn comes_in(self, sequence: u16, s: u16) -> bool {
        seq_distance(self.sequence, s) <= seq_distance(self.sequence, sequence)
    }

    /// How many slots are in use: no more than there are sequence numbers.
    pub open spec fn slots_in_use(self) -> nat {
        if self.num_entries < 0x1_0000 {
            self.num_entries
        } else {
            0x1_0000
        }
    }

    /// The slot of `s` is one of those visited when walking from the slot of `start` as far as it
    /// is to `finish`.
    pub open spec fn in_slots(self, start: u16, finish: u16, s: u16) -> bool {
        if self.num_entries < 0x1_0000 {
            slot_of(s - start, self.num_entries) <= seq_distance(start, finish)
        } else {
            seq_distance(start, s) <= seq_distance(start, finish)
        }
    }

    /// An entry under `s` falls out of the window when the buffer moves forward to `sequence`.
    pub open spec fn leaves(self, sequence: u16, s: u16) -> bool {
        self.comes_in(sequence, s) || !self.in_window(s, seq_add(sequence, 1))
    }

    /// The buffer moved forward to `sequence`, if that is newer than all before it. The entries
    /// that fall out of the window are dropped, and no others.
    pub open spec fn advanced(self, sequence: u16) -> Self {
        if self.advances(sequence) {
            SequenceBufferView {
                sequence: seq_add(sequence, 1),
                entries: self.entries.remove_keys(Set::new(|s: u16| self.leaves(sequence, s))),
                ..self
            }
        } else {
            self
        }
    }

    /// A more recent number has taken the slot of the sequence number.
    pub open spec fn superseded(self, sequence: u16) -> bool {
        exists|t: u16| #[trigger]
            self.entries.dom().contains(t) && self.same_slot(t as int, sequence as int)
                && seq_behind(t, self.sequence) < seq_behind(sequence, self.sequence)
    }

    /// The sequence number is too old to be kept: it has fallen out of the window, or a more
    /// recent one has taken its slot.
    pub open spec fn is_stale(self, sequence: u16) -> bool {
        ||| !self.can_insert(sequence)
        ||| !self.advances(sequence) && (!self.in_window(sequence, self.sequence)
            || self.superseded(sequence))
    }

    /// The slot of `sequence` is emptied, whichever number is in it.
    pub open spec fn removed(self, sequence: u16) -> Self {
        SequenceBufferView {
            entries: self.entries.remove_keys(
                Set::new(|s: u16| self.same_slot(s as int, sequence as int)),
            ),
            ..self
        }
    }

    /// `value` stands under `sequence`, in place of what was in its slot.
    pub open spec fn inserted(self, sequence: u16, value: T) -> Self {
        let emptied = self.advanced(sequence).removed(sequence);
        SequenceBufferView { entries: emptied.entries.insert(sequence, value), ..emptied }
    }

    /// The entry present under `sequence` takes another value.
    pub open spec fn updated(self, sequence: u16, value: T) -> Self {
        SequenceBufferView { entries: self.entries.insert(sequence, value), ..self }
    }

    /// The most recent sequence number.
    pub open spec fn newest(self) -> u16 {
        seq_add(self.sequence, -1)
    }

    /// The lowest `n` bits of the acknowledgements: bit `i` tells whether the number `i`
    /// before the most recent one is present.
    pub open spec fn ack_bits_below(self, n: nat) -> u32
        decreases n,
    {
        if n == 0 {
            0
        } else {
            let i = (n - 1) as nat;
            let below = self.ack_bits_below(i);
            if self.contains(seq_add(self.newest(), -i)) {
                below | (1u32 << (i as u32))
            } else {
                below
            }
        }
    }

    pub open spec fn ack_bits(self) -> u32 {
        self.ack_bits_below(32)
    }

    /// The same buffer with each entry seen through `f`.
    pub open spec fn map_values<V>(self, f: spec_fn(T) -> V) -> SequenceBufferView<V> {
        SequenceBufferView {
            sequence: self.sequence,
            num_entries: self.num_entries,
            entries: self.entries.map_values(f),
        }
    }
}

impl<T> SequenceBufferView<T> {
    /// Seeing the entries through a function does not depend on what happens to the buffer.
    pub proof fn lemma_map_values<V>(self, f: spec_fn(T) -> V)
        ensures
            forall|s: u16| #[trigger] self.advanced(s).map_values(f) == self.map_values(f).advanced(s),
            forall|s: u16| #[trigger] self.removed(s).map_values(f) == self.map_values(f).removed(s),
            forall|s: u16, value: T| #[trigger]
                self.inserted(s, value).map_values(f) == self.map_values(f).inserted(s, f(value)),
            forall|s: u16, value: T| #[trigger]
                self.updated(s, value).map_values(f) == self.map_values(f).updated(s, f(value)),
            self.wf() ==> self.map_values(f).wf(),
    {
        assert forall|s: u16| #[trigger]
            self.advanced(s).map_values(f) == self.map_values(f).advanced(s) by {
            assert(self.advanced(s).map_values(f) =~= self.map_values(f).advanced(s));
        }
        assert forall|s: u16| #[trigger]
            self.removed(s).map_values(f) == self.map_values(f).removed(s) by {
            assert(self.removed(s).map_values(f) =~= self.map_values(f).removed(s));
        }
        assert forall|s: u16, value: T| #[trigger]
            self.inserted(s, value).map_values(f) == self.map_values(f).inserted(s, f(value)) by {
            assert(self.inserted(s, value).map_values(f) =~= self.map_values(f).inserted(
                s,
                f(value),
            ));
        }
        assert forall|s: u16, value: T| #[trigger]
            self.updated(s, value).map_values(f) == self.map_values(f).updated(s, f(value)) by {
            assert(self.updated(s, value).map_values(f) =~= self.map_values(f).updated(
                s,
                f(value),
            ));
        }
    }
}

/// Adding the whole number circle any number of times leads back to the same slot, if the
/// number of slots divides it.
pub proof fn lemma_slot_around(x: int, turns: int, n: nat)
    requires
        n > 0,
        0x1_0000int % (n as int) == 0,
    ensures
        slot_of(x + 0x1_0000 * turns, n) == slot_of(x, n),
{
    let m = n as int;
    let k = 0x1_0000int / m;
    lemma_fundamental_div_mod(0x1_0000, m);
    assert(0x1_0000 * turns == m * (k * turns)) by (nonlinear_arith)
        requires
            0x1_0000 == m * k,
    ;
    lemma_mod_multiples_vanish(k * turns, x, m);
}

/// Where the slots divide the number circle, the entries of a window that leave it when it moves
/// forward are those in the slots of the numbers that come in.
proof fn lemma_leaves_by_slot<T>(buffer: SequenceBufferView<T>, finish: u16, s: u16)
    requires
        buffer.wf(),
        slots_divide_the_circle(buffer.num_entries),
        buffer.contains(s),
    ensures
        buffer.leaves(finish, s) <==> buffer.in_slots(buffer.sequence, finish, s),
{
    let m = buffer.slots_in_use();
    let start = buffer.sequence;
    let behind = seq_behind(s, start);
    lemma_leaves(buffer, finish, s);
    lemma_behind_is_unique(s, s, start);
    if buffer.num_entries == 1 {
        lemma_slot_bound(1);
    } else {
        assert(buffer.in_window(s, start));
        assert(0x1_0000int % (m as int) == 0);
        if s - start == -behind + 0x1_0000 {
            lemma_slot_around(-behind, 1, m);
        }
        assert(slot_of(s - start, m) == slot_of(-behind, m));
        lemma_mod_multiples_vanish(-1, m - behind, m as int);
        lemma_small_mod((m - behind) as nat, m);
    }
}

/// A number lies in the slot `i` steps on from that of `start` exactly when its distance to
/// `start`, modulo the number of slots, is `i`.
pub proof fn lemma_slot_steps(k: int, start: int, i: int, slots: nat)
    requires
        0 <= i < slots,
    ensures
        slot_of(start + i, slots) == slot_of(k, slots) <==> slot_of(k - start, slots) == i,
{
    let n = slots as int;
    let a = k - start;
    let r = a % n;
    let q = a / n;
    lemma_fundamental_div_mod(a, n);
    lemma_mod_bound(a, n);
    assert(k == n * q + (start + r));
    lemma_mod_multiples_vanish(q, start + r, n);
    assert(k % n == (start + r) % n);
    if (start + i) % n == (start + r) % n {
        lemma_mod_equivalence(start + i, start + r, n);
        assert((i - r) % n == 0);
        if i > r {
            lemma_small_mod((i - r) as nat, n as nat);
        } else if i < r {
            lemma_mod_equivalence(start + r, start + i, n);
            lemma_small_mod((r - i) as nat, n as nat);
        }
    }
}

/// Two ways to say which keys are removed come to the same if they agree on those present.
proof fn lemma_same_removal<T>(entries: Map<u16, T>, a: Set<u16>, b: Set<u16>)
    requires
        forall|s: u16| #[trigger] entries.dom().contains(s) ==> a.contains(s) == b.contains(s),
    ensures
        entries.remove_keys(a) == entries.remove_keys(b),
{
    assert(entries.remove_keys(a) =~= entries.remove_keys(b));
}

/// What leaves the window is what comes to be further behind than it reaches.
#[verifier::rlimit(40)]
pub proof fn lemma_leaves<T>(buffer: SequenceBufferView<T>, sequence: u16, s: u16)
    ensures
        ({
            let behind = seq_behind(s, buffer.sequence);
            let steps = seq_distance(buffer.sequence, sequence) + 1;
            &&& buffer.leaves(sequence, s) <==> behind + steps > buffer.num_entries || behind + steps
                > 0x1_0000
            &&& behind + steps <= 0x1_0000 ==> seq_behind(s, seq_add(sequence, 1)) == behind + steps
        }),
{
}

/// The number `i` on from the oldest one of a window is so many fewer behind.
proof fn lemma_behind_of_oldest(start: u16, window: int, i: int)
    requires
        0 <= i < window <= 0x1_0000,
    ensures
        seq_behind((((start - window) % 0x1_0000 + i) % 0x1_0000) as u16, start) == window - i,
{
}

/// No two numbers are equally far behind.
pub proof fn lemma_behind_is_unique(a: u16, b: u16, next: u16)
    ensures
        seq_behind(a, next) == seq_behind(b, next) ==> a == b,
        1 <= seq_behind(a, next) <= 0x1_0000,
{
}

/// A number that can be inserted without moving the buffer forward lies in the window.
pub proof fn lemma_in_window<T>(buffer: SequenceBufferView<T>, sequence: u16)
    requires
        buffer.num_entries > 1,
        buffer.can_insert(sequence),
        !buffer.advances(sequence),
    ensures
        buffer.in_window(sequence, buffer.sequence),
{
}

/// Where a number that can be inserted comes to stand.
pub proof fn lemma_placed<T>(buffer: SequenceBufferView<T>, sequence: u16)
    requires
        buffer.num_entries > 0,
        buffer.advances(sequence) || buffer.can_insert(sequence),
    ensures
        buffer.num_entries > 1 ==> buffer.advanced(sequence).in_window(
            sequence,
            buffer.advanced(sequence).sequence,
        ),
{
    if buffer.num_entries > 1 && !buffer.advances(sequence) {
        lemma_in_window(buffer, sequence);
    }
}

/// Counting back and on again is the same with the lowest sixteen bits of the counts.
proof fn lemma_counted_on(sequence: u16, n: int, i: int)
    ensures
        seq_add(sequence, -n) == (sequence - n % 0x1_0000) % 0x1_0000,
        seq_add(seq_add(sequence, -n), i) == (seq_add(sequence, -n) + i % 0x1_0000) % 0x1_0000,
{
}

/// The lowest sixteen bits of a count.
fn low_bits(count: usize) -> (low: u16)
    ensures
        low == count % 0x1_0000,
{
    assert(count as u16 == count % 0x1_0000) by (bit_vector);
    count as u16
}

/// A circular buffer of entries indexed by u16 sequence number. This is the core data
/// structure used to track sent packets, received packets and packets under reassembly.
pub struct SequenceBuffer<T> {
    sequence: u16,
    entry_sequence: Vec<Option<u16>>,
    entries: Vec<T>,
}

impl<T> View for SequenceBuffer<T> {
    type V = SequenceBufferView<T>;

    closed spec fn view(&self) -> SequenceBufferView<T> {
        let n = self.entries@.len();
        SequenceBufferView {
            sequence: self.sequence,
            num_entries: self.entries@.len(),
            entries: Map::new(
                |s: u16| self.entry_sequence@[slot_of(s as int, n)] == Some(s),
                |s: u16| self.entries@[slot_of(s as int, n)],
            ),
        }
    }
}

impl<T: Default> SequenceBuffer<T> {
    pub closed spec fn inv(&self) -> bool {
        let n = self.entries@.len();
        &&& n > 0
        &&& self.entry_sequence@.len() == n
        &&& forall|i: int| #![trigger self.entry_sequence@[i]]
            0 <= i < n ==> match self.entry_sequence@[i] {
                Some(s) => slot_of(s as int, n) == i && (n > 1 ==> seq_behind(s, self.sequence)
                    <= n),
                None => is_default(self.entries@[i]),
            }
    }

    /// The slots agree with the sequence numbers in them, which lie in the window, and an empty
    /// slot holds a default value.
    pub open spec fn wf(&self) -> bool {
        &&& self.inv()
        &&& self@.wf()
    }

    pub fn new(num_entries: usize) -> (buffer: Self)
        requires
            num_entries > 0,
        ensures
            buffer.wf(),
            buffer@ == SequenceBufferView::<T>::empty(num_entries as nat),
    {
        let mut entry_sequence: Vec<Option<u16>> = Vec::with_capacity(num_entries);
        let mut entries: Vec<T> = Vec::with_capacity(num_entries);
        let mut i: usize = 0;
        while i < num_entries
            invariant
                i <= num_entries,
                entry_sequence@.len() == i,
                entries@.len() == i,
                forall|j: int| 0 <= j < i ==> entry_sequence@[j] is None,
                forall|j: int| 0 <= j < i ==> is_default(entries@[j]),
            decreases num_entries - i,
        {
            entry_sequence.push(None);
            entries.push(T::default());
            i += 1;
        }
        let buffer = SequenceBuffer { sequence: 0, entry_sequence, entries };
        proof {
            lemma_slot_bound(num_entries as nat);
            assert(buffer@.entries =~= Map::empty());
        }
        buffer
    }

    /// The most recent sequence number inserted, plus one.
    pub fn sequence(&self) -> (sequence: u16)
        ensures
            sequence == self@.sequence,
    {
        self.sequence
    }

    pub fn num_entries(&self) -> (n: usize)
        ensures
            n == self@.num_entries,
    {
        self.entries.len()
    }

    fn slot(&self, sequence: u16) -> (index: usize)
        requires
            self.wf(),
        ensures
            index == slot_of(sequence as int, self.entries@.len()),
            index < self.entries@.len(),
    {
        proof {
            lemma_slot_bound(self.entries@.len());
        }
        sequence as usize % self.entries.len()
    }

    /// Returns false if the sequence number is too old to be inserted (stale).
    pub fn can_insert(&self, sequence: u16) -> (fresh: bool)
        requires
            self.wf(),
        ensures
            fresh == self@.can_insert(sequence),
    {
        let n: usize = self.entries.len();
        assert(n as u16 == n % 0x1_0000) by (bit_vector);
        !sequence_less_than(sequence, self.sequence.wrapping_sub(n as u16))
    }

    /// Whether the sequence number is too old to be kept: it has fallen out of the window, or a
    /// more recent one has taken its slot, as can happen around the wrap-around when the number
    /// of entries does not divide 65536.
    pub fn is_stale(&self, sequence: u16) -> (stale: bool)
        requires
            self.wf(),
        ensures
            stale == self@.is_stale(sequence),
    {
        if !self.can_insert(sequence) {
            return true;
        }
        if sequence_greater_than(sequence.wrapping_add(1), self.sequence) {
            return false;
        }
        if self.behind(sequence) > self.entries.len() {
            return true;
        }
        let index: usize = self.slot(sequence);
        proof {
            lemma_slot_bound(self.entries@.len());
        }
        match self.entry_sequence[index] {
            Some(t) => {
                assert(self@.entries.dom().contains(t));
                self.behind(t) < self.behind(sequence)
            },
            None => false,
        }
    }

    /// How far the sequence number is behind the next one.
    fn behind(&self, sequence: u16) -> (distance: usize)
        ensures
            distance == seq_behind(sequence, self@.sequence),
    {
        if sequence == self.sequence {
            65536
        } else {
            self.sequence.wrapping_sub(sequence) as usize
        }
    }

    /// Whether the sequence number has an entry.
    pub fn contains(&self, sequence: u16) -> (found: bool)
        requires
            self.wf(),
        ensures
            found == self@.contains(sequence),
    {
        self.entry_sequence[self.slot(sequence)] == Some(sequence)
    }

    pub fn find(&self, sequence: u16) -> (entry: Option<&T>)
        requires
            self.wf(),
        ensures
            entry is Some <==> self@.contains(sequence),
            entry matches Some(value) ==> *value == self@.entries[sequence],
    {
        let index: usize = self.slot(sequence);
        if self.entry_sequence[index] == Some(sequence) {
            Some(&self.entries[index])
        } else {
            None
        }
    }

    pub fn find_mut(&mut self, sequence: u16) -> (entry: Option<&mut T>)
        requires
            old(self).wf(),
        ensures
            entry is Some <==> old(self)@.contains(sequence),
            entry is None ==> final(self)@ == old(self)@,
            entry matches Some(value) ==> {
                &&& *value == old(self)@.entries[sequence]
                &&& final(self)@ == old(self)@.updated(sequence, *final(value))
            },
            final(self).wf(),
    {
        let index: usize = self.slot(sequence);
        if self.entry_sequence[index] == Some(sequence) {
            Some(&mut self.entries[index])
        } else {
            None
        }
    }

    /// Drops the entries under the oldest `steps` numbers of the window.
    fn remove_oldest(&mut self, window: usize, steps: usize)
        requires
            old(self).inv(),
            1 <= steps < window <= 65536,
            window <= old(self).entries@.len(),
            window == 65536 || window == old(self).entries@.len(),
        ensures
            final(self).inv(),
            final(self).sequence == old(self).sequence,
            final(self).entries@.len() == old(self).entries@.len(),
            forall|j: int| #![trigger final(self).entry_sequence@[j]]
                0 <= j < old(self).entries@.len() ==> {
                    if old(self).entry_sequence@[j] is Some && window - seq_behind(
                        old(self).entry_sequence@[j].unwrap(),
                        old(self).sequence,
                    ) < steps {
                        final(self).entry_sequence@[j] is None
                    } else {
                        &&& final(self).entry_sequence@[j] == old(self).entry_sequence@[j]
                        &&& final(self).entries@[j] == old(self).entries@[j]
                    }
                },
    {
        let num_entries: usize = self.entries.len();
        let ghost n = num_entries as nat;
        let ghost before = *self;
        let next: u16 = self.sequence;
        assert(window as u16 == window % 0x1_0000) by (bit_vector);
        let oldest: u16 = next.wrapping_sub(window as u16);
        proof {
            assert forall|j: int| 0 <= j < n && (#[trigger]
                before.entry_sequence@[j]) is Some implies seq_behind(
                before.entry_sequence@[j].unwrap(),
                next,
            ) <= window by {
                lemma_behind_is_unique(before.entry_sequence@[j].unwrap(), 0, next);
            }
        }
        let mut i: usize = 0;
        while i < steps
            invariant
                i <= steps < window <= 65536,
                window <= num_entries,
                n == num_entries,
                next == before.sequence,
                oldest == (next - window) % 0x1_0000,
                before.inv(),
                self.inv(),
                self.sequence == before.sequence,
                before.entries@.len() == n,
                self.entries@.len() == n,
                forall|j: int| #![trigger self.entry_sequence@[j]]
                    0 <= j < n ==> {
                        if before.entry_sequence@[j] is Some && window - seq_behind(
                            before.entry_sequence@[j].unwrap(),
                            next,
                        ) < i {
                            self.entry_sequence@[j] is None
                        } else {
                            &&& self.entry_sequence@[j] == before.entry_sequence@[j]
                            &&& self.entries@[j] == before.entries@[j]
                        }
                    },
            decreases steps - i,
        {
            assert(i as u16 == i % 0x1_0000) by (bit_vector);
            let sequence: u16 = oldest.wrapping_add(i as u16);
            let index: usize = sequence as usize % num_entries;
            proof {
                lemma_slot_bound(n);
                assert(index == slot_of(sequence as int, n));
                lemma_behind_of_oldest(next, window as int, i as int);
                assert forall|j: int| 0 <= j < n && (#[trigger]
                    before.entry_sequence@[j]) is Some && window - seq_behind(
                    before.entry_sequence@[j].unwrap(),
                    next,
                ) == i implies before.entry_sequence@[j] == Some(sequence) && j == index by {
                    lemma_behind_is_unique(before.entry_sequence@[j].unwrap(), sequence, next);
                }
            }
            if self.entry_sequence[index] == Some(sequence) {
                self.entry_sequence[index] = None;
                self.entries[index] = T::default();
            }
            i += 1;
        }
    }

    /// Empties every slot.
    fn clear(&mut self)
        requires
            old(self).inv(),
        ensures
            final(self).inv(),
            final(self).sequence == old(self).sequence,
            final(self).entries@.len() == old(self).entries@.len(),
            forall|j: int|
                0 <= j < old(self).entries@.len() ==> final(self).entry_sequence@[j] is None,
    {
        let num_entries: usize = self.entries.len();
        let ghost before = *self;
        let mut index: usize = 0;
        while index < num_entries
            invariant
                index <= num_entries,
                self.inv(),
                self.sequence == before.sequence,
                self.entries@.len() == num_entries,
                forall|j: int| 0 <= j < index ==> self.entry_sequence@[j] is None,
            decreases num_entries - index,
        {
            self.entry_sequence[index] = None;
            self.entries[index] = T::default();
            index += 1;
        }
    }

    /// Drops the entries that fall out of the window when the numbers up to `finish_sequence`
    /// come in.
    fn remove_leaving(&mut self, finish_sequence: u16)
        requires
            old(self).wf(),
        ensures
            final(self).inv(),
            final(self)@.sequence == old(self)@.sequence,
            final(self)@.num_entries == old(self)@.num_entries,
            final(self)@.entries == old(self)@.entries.remove_keys(
                Set::new(|s: u16| old(self)@.leaves(finish_sequence, s)),
            ),
    {
        let start_sequence: u16 = self.sequence;
        let num_entries: usize = self.entries.len();
        let window: usize = if num_entries < 65536 { num_entries } else { 65536 };
        let steps: usize = finish_sequence.wrapping_sub(start_sequence) as usize + 1;
        let ghost before = *self;
        proof {
            lemma_slot_bound(num_entries as nat);
            assert(steps == seq_distance(start_sequence, finish_sequence) + 1);
            assert forall|s: u16| before@.leaves(finish_sequence, s) == (window - seq_behind(
                s,
                start_sequence,
            ) < steps) by {
                lemma_leaves(before@, finish_sequence, s);
            }
        }
        if steps < window {
            self.remove_oldest(window, steps);
        } else {
            self.clear();
            assert forall|s: u16| before@.leaves(finish_sequence, s) by {
                lemma_behind_is_unique(s, s, start_sequence);
            }
        }
        assert(self@.entries =~= before@.entries.remove_keys(
            Set::new(|s: u16| before@.leaves(finish_sequence, s)),
        ));
    }

    /// Drops the entries that the numbers from `start_sequence` to `finish_sequence` take the
    /// place of. From the next number on these are the entries that fall out of the window when
    /// the numbers come in, and from elsewhere those in the slots of the numbers. If the number
    /// of slots divides the number of sequence numbers, the two are the same.
    pub fn remove_entries(&mut self, start_sequence: u16, finish_sequence: u16)
        requires
            old(self).wf(),
        ensures
            final(self).wf(),
            final(self)@.sequence == old(self)@.sequence,
            final(self)@.num_entries == old(self)@.num_entries,
            start_sequence == old(self)@.sequence ==> final(self)@.entries
                == old(self)@.entries.remove_keys(
                Set::new(|s: u16| old(self)@.leaves(finish_sequence, s)),
            ),
            start_sequence != old(self)@.sequence || slots_divide_the_circle(
                old(self)@.num_entries,
            ) ==> final(self)@.entries == old(self)@.entries.remove_keys(
                Set::new(|s: u16| old(self)@.in_slots(start_sequence, finish_sequence, s)),
            ),
    {
        let ghost before = *self;
        if start_sequence == self.sequence {
            self.remove_leaving(finish_sequence);
            proof {
                if slots_divide_the_circle(before@.num_entries) {
                    assert forall|s: u16| #[trigger]
                        before@.entries.dom().contains(s) implies before@.leaves(finish_sequence, s)
                        == before@.in_slots(start_sequence, finish_sequence, s) by {
                        lemma_leaves_by_slot(before@, finish_sequence, s);
                    }
                    lemma_same_removal(
                        before@.entries,
                        Set::new(|s: u16| before@.leaves(finish_sequence, s)),
                        Set::new(|s: u16| before@.in_slots(start_sequence, finish_sequence, s)),
                    );
                }
            }
            return ;
        }
        self.remove_slots(start_sequence, finish_sequence);
    }

    /// Empties the slots from that of `start_sequence` as far as it is to `finish_sequence`.
    fn remove_slots(&mut self, start_sequence: u16, finish_sequence: u16)
        requires
            old(self).wf(),
        ensures
            final(self).wf(),
            final(self)@.sequence == old(self)@.sequence,
            final(self)@.num_entries == old(self)@.num_entries,
            final(self)@.entries == old(self)@.entries.remove_keys(
                Set::new(|s: u16| old(self)@.in_slots(start_sequence, finish_sequence, s)),
            ),
    {
        let num_entries: usize = self.entries.len();
        let in_use: usize = if num_entries < 65536 { num_entries } else { 65536 };
        let start: usize = start_sequence as usize;
        let span: usize = finish_sequence.wrapping_sub(start_sequence) as usize;
        let ghost n = num_entries as nat;
        let ghost m = in_use as nat;
        let ghost before = *self;
        proof {
            lemma_slot_bound(n);
            lemma_slot_bound(m);
            assert(span == seq_distance(start_sequence, finish_sequence));
            assert(m == before@.slots_in_use());
        }
        if span < in_use {
            let mut i: usize = 0;
            while i <= span
                invariant
                    0 <= i <= span + 1,
                    span < in_use <= 65536,
                    in_use <= num_entries,
                    in_use == num_entries || in_use == 65536,
                    start == start_sequence,
                    n == num_entries,
                    m == in_use,
                    before.wf(),
                    self.inv(),
                    self.sequence == before.sequence,
                    before.entries@.len() == n,
                    self.entries@.len() == n,
                    forall|k: u16| #![trigger self.entry_sequence@[slot_of(k as int, n)]] {
                        if slot_of(k - start, m) < i {
                            self.entry_sequence@[slot_of(k as int, n)] is None
                        } else {
                            &&& self.entry_sequence@[slot_of(k as int, n)]
                                == before.entry_sequence@[slot_of(k as int, n)]
                            &&& self.entries@[slot_of(k as int, n)]
                                == before.entries@[slot_of(k as int, n)]
                        }
                    },
                decreases span + 1 - i,
            {
                let index: usize = (start + i) % in_use;
                proof {
                    lemma_slot_bound(n);
                    lemma_slot_bound(m);
                    assert(index == slot_of(start + i, m));
                    assert forall|k: u16|
                        (#[trigger] slot_of(k as int, n) == index) == (slot_of(k - start, m) == i) by {
                        if n >= 0x1_0000 {
                            lemma_small_mod(k as nat, n);
                            lemma_small_mod(k as nat, m);
                        }
                        lemma_slot_steps(k as int, start as int, i as int, m);
                    }
                }
                self.entry_sequence[index] = None;
                self.entries[index] = T::default();
                i += 1;
            }
        } else {
            self.clear();
        }
        assert(self@.entries =~= before@.entries.remove_keys(
            Set::new(|s: u16| before@.in_slots(start_sequence, finish_sequence, s)),
        ));
    }

    /// Puts a default value under the sequence number, in place of what is in its slot.
    fn place(&mut self, sequence: u16) -> (entry: &mut T)
        requires
            old(self).wf(),
            old(self)@.num_entries > 1 ==> old(self)@.in_window(sequence, old(self)@.sequence),
        ensures
            is_default(*entry),
            final(self)@.sequence == old(self)@.sequence,
            final(self)@.num_entries == old(self)@.num_entries,
            final(self)@.entries == old(self)@.removed(sequence).entries.insert(
                sequence,
                *final(entry),
            ),
            final(self).wf(),
    {
        let index: usize = self.slot(sequence);
        proof {
            lemma_slot_bound(self.entries@.len());
        }
        self.entry_sequence[index] = Some(sequence);
        self.entries[index] = T::default();
        &mut self.entries[index]
    }

    /// Inserts an entry, advancing the buffer if the sequence number is newer than the
    /// most recent. Returns None if the sequence number is stale. The returned entry is
    /// reset to its default value.
    pub fn insert(&mut self, sequence: u16) -> (entry: Option<&mut T>)
        requires
            old(self).wf(),
        ensures
            entry is Some <==> old(self)@.can_insert(sequence),
            entry is None ==> final(self)@ == old(self)@,
            entry matches Some(value) ==> {
                &&& is_default(*value)
                &&& final(self)@ == old(self)@.inserted(sequence, *final(value))
            },
            final(self).wf(),
    {
        if !self.can_insert(sequence) {
            return None;
        }
        proof {
            lemma_placed(self@, sequence);
        }
        self.advance(sequence);
        Some(self.place(sequence))
    }

    /// Like [`insert`](Self::insert), but the advance check runs before the stale check:
    /// a sequence number far enough ahead to be ambiguous under wrap-around advances the
    /// buffer instead of being rejected as stale.
    pub fn insert_advance_first(&mut self, sequence: u16) -> (entry: Option<&mut T>)
        requires
            old(self).wf(),
        ensures
            entry is Some <==> old(self)@.advances(sequence) || old(self)@.can_insert(sequence),
            entry is None ==> final(self)@ == old(self)@,
            entry matches Some(value) ==> {
                &&& is_default(*value)
                &&& final(self)@ == old(self)@.inserted(sequence, *final(value))
            },
            final(self).wf(),
    {
        proof {
            if self@.advances(sequence) || self@.can_insert(sequence) {
                lemma_placed(self@, sequence);
            }
        }
        if sequence_greater_than(sequence.wrapping_add(1), self.sequence) {
            self.advance(sequence);
        } else if !self.can_insert(sequence) {
            return None;
        }
        Some(self.place(sequence))
    }

    /// Advances the buffer to the given sequence number without inserting an entry,
    /// dropping any entries that fall out of the window.
    pub fn advance(&mut self, sequence: u16)
        requires
            old(self).wf(),
        ensures
            final(self).wf(),
            final(self)@ == old(self)@.advanced(sequence),
    {
        let ghost before = *self;
        if sequence_greater_than(sequence.wrapping_add(1), self.sequence) {
            self.remove_entries(self.sequence, sequence);
            self.sequence = sequence.wrapping_add(1);
            proof {
                lemma_slot_bound(self.entries@.len());
                assert forall|j: int| 0 <= j < self.entries@.len() && (#[trigger]
                    self.entry_sequence@[j]) is Some implies self@.in_window(
                    self.entry_sequence@[j].unwrap(),
                    self.sequence,
                ) by {
                    let s = self.entry_sequence@[j].unwrap();
                    assert(self@.entries.dom().contains(s));
                    assert(!before@.leaves(sequence, s));
                }
                assert(self@ =~= before@.advanced(sequence));
            }
        }
    }

    /// Empties the slot of the sequence number.
    pub fn remove(&mut self, sequence: u16)
        requires
            old(self).wf(),
        ensures
            final(self).wf(),
            final(self)@ == old(self)@.removed(sequence),
    {
        let index: usize = self.slot(sequence);
        let ghost before = *self;
        proof {
            lemma_slot_bound(self.entries@.len());
        }
        if self.entry_sequence[index].is_some() {
            self.entry_sequence[index] = None;
            self.entries[index] = T::default();
        }
        assert(self@ =~= before@.removed(sequence));
    }

    /// Empties every slot and starts over at sequence number zero.
    pub fn reset(&mut self)
        requires
            old(self).wf(),
        ensures
            final(self).wf(),
            final(self)@ == SequenceBufferView::<T>::empty(old(self)@.num_entries),
    {
        self.clear();
        self.sequence = 0;
        proof {
            lemma_slot_bound(self.entries@.len());
            assert(self@.entries =~= Map::empty());
        }
    }

    /// Generates the (ack, ack_bits) pair describing the most recent received packet and
    /// the 31 packets preceding it, for inclusion in an outgoing packet header.
    pub fn generate_ack_bits(&self) -> (pair: (u16, u32))
        requires
            self.wf(),
        ensures
            pair.0 == self@.newest(),
            pair.1 == self@.ack_bits(),
    {
        let ack: u16 = self.sequence.wrapping_sub(1);
        let mut ack_bits: u32 = 0;
        let mut mask: u32 = 1;
        let mut i: u16 = 0;
        assert(1u32 << 0u32 == 1) by (bit_vector);
        while i < 32
            invariant
                i <= 32,
                self.wf(),
                ack == self@.newest(),
                i < 32 ==> mask == 1u32 << (i as u32),
                ack_bits == self@.ack_bits_below(i as nat),
            decreases 32 - i,
        {
            if self.contains(ack.wrapping_sub(i)) {
                ack_bits |= mask;
            }
            let ghost b = i as u32;
            assert(b < 31 ==> (1u32 << b) << 1 == 1u32 << ((b + 1) as u32)) by (bit_vector);
            mask <<= 1;
            i += 1;
        }
        (ack, ack_bits)
    }

    /// What is in the slot at `index`: the sequence number if there is one, and the value.
    pub fn raw_entry(&self, index: usize) -> (slot: (Option<u16>, &T))
        requires
            self.wf(),
            index < self@.num_entries,
        ensures
            forall|s: u16|
                slot.0 == Some(s) <==> #[trigger] self@.contains(s) && slot_of(
                    s as int,
                    self@.num_entries,
                ) == index,
            slot.0 matches Some(s) ==> *slot.1 == self@.entries[s],
            slot.0 is None ==> is_default(*slot.1),
    {
        (self.entry_sequence[index], &self.entries[index])
    }

    /// The entry `i` sequence numbers on from the oldest one that is not stale.
    pub fn find_in_window(&self, i: usize) -> (entry: Option<&T>)
        requires
            self.wf(),
        ensures
            entry is Some <==> self@.contains(seq_add(self@.oldest(), i as int)),
            entry matches Some(value) ==> *value == self@.entries[seq_add(self@.oldest(), i as int)],
    {
        let n: usize = self.entries.len();
        let n_low: u16 = low_bits(n);
        let i_low: u16 = low_bits(i);
        let oldest: u16 = self.sequence.wrapping_sub(n_low);
        let sequence: u16 = oldest.wrapping_add(i_low);
        proof {
            lemma_counted_on(self.sequence, n as int, i as int);
        }
        self.find(sequence)
    }
}

} // verus!
