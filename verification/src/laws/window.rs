//! Laws of the window of sequence numbers that a sequence buffer keeps.

use vstd::arithmetic::div_mod::{
    lemma_fundamental_div_mod, lemma_mod_bound, lemma_mod_equivalence, lemma_mod_multiples_basic,
    lemma_small_mod,
};
use vstd::prelude::*;

use crate::sequence::{seq_add, seq_behind, seq_distance};
use crate::sequence_buffer::{
    lemma_behind_is_unique, lemma_in_window, lemma_leaves, lemma_slot_around, lemma_slot_steps,
    slot_of, slots_divide_the_circle, SequenceBufferView,
};

verus! {

/// The slots follow on one another without a break over `steps` more sequence numbers, for
/// the window that ends with the number before `end`. They always do if the number of slots
/// divides the number of sequence numbers, or if each sequence number has a slot of its own.
/// Else they do as long as the window does not straddle the wrap-around.
pub open spec fn slots_follow_on(num_entries: nat, end: int, steps: int) -> bool {
    ||| 0x1_0000int % (num_entries as int) == 0
    ||| num_entries >= 0x1_0000
    ||| num_entries <= end && end + steps <= 0x1_0000
}

/// Where the window of a buffer ends, counted on from the sequence number `s` in it.
pub open spec fn window_end<T>(buffer: SequenceBufferView<T>, s: u16) -> int {
    s + seq_behind(s, buffer.sequence)
}

/// How far a buffer moves forward when the sequence number comes in.
pub open spec fn steps_to<T>(buffer: SequenceBufferView<T>, sequence: u16) -> int {
    if buffer.advances(sequence) {
        seq_distance(buffer.sequence, sequence) + 1
    } else {
        0
    }
}

/// The sequence number is exactly half the number circle away from the next one, so that it
/// is as much ahead of the window as behind it.
pub open spec fn half_way<T>(buffer: SequenceBufferView<T>, sequence: u16) -> bool {
    seq_distance(sequence, buffer.sequence) == 0x8001
}

/// A sequence number that is behind the window by no more than half the number circle is
/// stale exactly if it is further behind than the buffer has entries.
pub proof fn law_stale_is_out_of_window<T>(buffer: SequenceBufferView<T>, s: u16)
    requires
        0 < buffer.num_entries < 0x8000,
        1 <= seq_distance(s, buffer.sequence) <= 0x8000,
    ensures
        buffer.can_insert(s) <==> seq_distance(s, buffer.sequence) <= buffer.num_entries,
{
}

/// A sequence number that is ahead of the window is not stale, unless it is so far ahead that
/// it could as well be behind.
pub proof fn law_newer_is_not_stale<T>(buffer: SequenceBufferView<T>, s: u16)
    requires
        0 < buffer.num_entries < 0x8000,
        seq_distance(buffer.sequence, s) < 0x8000 - buffer.num_entries,
    ensures
        buffer.advances(s),
        buffer.can_insert(s),
        buffer.advanced(s).can_insert(s),
{
}

/// The buffer moves forward by as much as its next sequence number does.
pub proof fn lemma_steps<T>(buffer: SequenceBufferView<T>, sequence: u16)
    ensures
        seq_distance(buffer.sequence, buffer.advanced(sequence).sequence) == steps_to(
            buffer,
            sequence,
        ),
{
}

/// Two numbers in the same window have slots of their own.
proof fn lemma_slots_differ(n: nat, end: int, d1: int, d2: int, x: u16, y: u16)
    requires
        n > 0,
        0 <= end <= 0x2_0000,
        1 <= d1 <= n,
        1 <= d2 <= n,
        d1 < 0x1_0000,
        d2 < 0x1_0000,
        x == (end - d1) % 0x1_0000,
        y == (end - d2) % 0x1_0000,
        slots_follow_on(n, end, 0),
        slot_of(x as int, n) == slot_of(y as int, n),
    ensures
        d1 == d2,
{
    let m = n as int;
    if n >= 0x1_0000 {
        lemma_small_mod(x as nat, n);
        lemma_small_mod(y as nat, n);
    } else {
        if 0x1_0000int % m == 0 {
            lemma_slot_around(x as int, (end - d1) / 0x1_0000, n);
            lemma_slot_around(y as int, (end - d2) / 0x1_0000, n);
            assert(slot_of(end - d1, n) == slot_of(x as int, n));
            assert(slot_of(end - d2, n) == slot_of(y as int, n));
        } else {
            assert(x == end - d1);
            assert(y == end - d2);
        }
        if d1 < d2 {
            lemma_mod_equivalence(end - d1, end - d2, m);
            lemma_small_mod((d2 - d1) as nat, n);
        } else if d2 < d1 {
            lemma_mod_equivalence(end - d2, end - d1, m);
            lemma_small_mod((d1 - d2) as nat, n);
        }
    }
}

/// Moving a buffer forward drops the entries that fall out of the window, and keeps those that
/// do not, as they were. An entry falls out when it comes to be further behind than the buffer
/// has entries, or a whole turn of the number circle.
pub proof fn law_advance_keeps_the_window<T>(
    buffer: SequenceBufferView<T>,
    s: u16,
    sequence: u16,
)
    ensures
        ({
            let after = buffer.advanced(sequence);
            let behind = seq_behind(s, buffer.sequence) + steps_to(buffer, sequence);
            &&& after.contains(s) <==> buffer.contains(s) && (buffer.advances(sequence) ==> behind
                <= buffer.num_entries && behind <= 0x1_0000)
            &&& after.contains(s) ==> after.entries[s] == buffer.entries[s]
            &&& behind <= 0x1_0000 ==> seq_behind(s, after.sequence) == behind
        }),
{
    lemma_leaves(buffer, sequence, s);
}

/// After a buffer has moved forward it contains exactly those numbers that it did before and
/// that lie in the window that it has moved to. In a buffer larger than half the number circle,
/// a number that has been passed over is not taken for one of the new window.
pub proof fn law_advanced_is_the_new_window<T>(
    buffer: SequenceBufferView<T>,
    s: u16,
    sequence: u16,
)
    requires
        buffer.wf(),
        1 < buffer.num_entries < 0x1_0000,
        buffer.advances(sequence),
    ensures
        ({
            let after = buffer.advanced(sequence);
            let in_new_window = 1 <= seq_distance(s, after.sequence) <= buffer.num_entries;
            &&& after.contains(s) <==> buffer.contains(s) && in_new_window && !buffer.comes_in(
                sequence,
                s,
            )
            &&& buffer.num_entries <= 0x8000 ==> (after.contains(s) <==> buffer.contains(s)
                && in_new_window)
        }),
{
    lemma_leaves(buffer, sequence, s);
    if buffer.contains(s) {
        assert(buffer.in_window(s, buffer.sequence));
    }
}

/// What is inserted can be found, and nothing else appears.
pub proof fn law_insert_is_found<T>(buffer: SequenceBufferView<T>, sequence: u16, value: T)
    ensures
        buffer.inserted(sequence, value).contains(sequence),
        buffer.inserted(sequence, value).entries[sequence] == value,
        forall|s: u16|
            s != sequence && #[trigger] buffer.inserted(sequence, value).contains(s)
                ==> buffer.contains(s) && buffer.inserted(sequence, value).entries[s]
                == buffer.entries[s],
{
}

/// A number that is not stale and does not move the buffer forward lies in the window.
proof fn lemma_stands_in_window<T>(buffer: SequenceBufferView<T>, sequence: u16)
    requires
        buffer.num_entries > 1 || !half_way(buffer, sequence),
        buffer.num_entries > 0,
        buffer.can_insert(sequence),
        !buffer.advances(sequence),
    ensures
        1 <= seq_behind(sequence, buffer.sequence) <= buffer.num_entries,
        seq_behind(sequence, buffer.sequence) < 0x1_0000,
{
}

/// Where a number in the window stands, seen from the end of the window.
proof fn lemma_from_end(s: u16, sequence: u16, x: u16, steps: int)
    requires
        0 <= steps <= 0x1_0000,
    ensures
        ({
            let end = s + seq_behind(s, sequence);
            &&& s == (end + steps - (seq_behind(s, sequence) + steps)) % 0x1_0000
            &&& x == (end - seq_behind(x, sequence)) % 0x1_0000
            &&& x == (end + (seq_distance(sequence, x) + 1) - 1) % 0x1_0000
        }),
{
}

/// Two numbers in the same window have slots of their own, where the slots follow on one
/// another.
pub proof fn lemma_slot_of_other<T>(buffer: SequenceBufferView<T>, s: u16, sequence: u16)
    requires
        buffer.num_entries > 1 || !half_way(buffer, sequence),
        buffer.num_entries > 0,
        seq_behind(s, buffer.sequence) + steps_to(buffer, sequence) <= 0x1_0000,
        seq_behind(s, buffer.sequence) + steps_to(buffer, sequence) <= buffer.num_entries,
        slots_follow_on(
            buffer.num_entries,
            window_end(buffer, s),
            steps_to(buffer, sequence),
        ),
        buffer.advances(sequence) || buffer.can_insert(sequence),
        s != sequence,
    ensures
        !buffer.same_slot(s as int, sequence as int),
{
    let n = buffer.num_entries;
    let steps = steps_to(buffer, sequence);
    let d = seq_behind(s, buffer.sequence);
    let end = window_end(buffer, s) + steps;
    lemma_behind_is_unique(s, sequence, buffer.sequence);
    if n >= 0x1_0000 {
        lemma_small_mod(s as nat, n);
        lemma_small_mod(sequence as nat, n);
    } else if buffer.same_slot(s as int, sequence as int) {
        lemma_from_end(s, buffer.sequence, sequence, steps);
        if buffer.advances(sequence) {
            lemma_slots_differ(n, end, d + steps, 1, s, sequence);
        } else {
            lemma_stands_in_window(buffer, sequence);
            let e = seq_behind(sequence, buffer.sequence);
            lemma_slots_differ(n, end, d, e, s, sequence);
        }
    }
}

/// Inserting an entry keeps all the other entries that stay in the window, where the slots
/// follow on one another.
///
/// This leaves out a number half way around the circle in a buffer with a single entry: it
/// takes the place of the entry without moving the buffer forward.
pub proof fn law_insert_keeps_the_window<T>(
    buffer: SequenceBufferView<T>,
    s: u16,
    sequence: u16,
    value: T,
)
    requires
        buffer.num_entries > 1 || !half_way(buffer, sequence),
        buffer.num_entries > 0,
        buffer.contains(s),
        seq_behind(s, buffer.sequence) + steps_to(buffer, sequence) <= 0x1_0000,
        seq_behind(s, buffer.sequence) + steps_to(buffer, sequence) <= buffer.num_entries,
        slots_follow_on(
            buffer.num_entries,
            window_end(buffer, s),
            steps_to(buffer, sequence),
        ),
        buffer.advances(sequence) || buffer.can_insert(sequence),
        s != sequence,
    ensures
        buffer.inserted(sequence, value).contains(s),
        buffer.inserted(sequence, value).entries[s] == buffer.entries[s],
{
    law_advance_keeps_the_window(buffer, s, sequence);
    lemma_slot_of_other(buffer, s, sequence);
}

/// Where the number of slots divides the number of sequence numbers, a number is too old to be
/// kept exactly if it has fallen out of the window: no more recent number ever takes its slot.
/// At other sizes a number in the window is too old as well once a more recent one has taken its
/// slot, and in a buffer with a single entry one that is half way around the number circle.
pub proof fn law_stale_is_too_old_to_insert<T>(buffer: SequenceBufferView<T>, s: u16)
    requires
        buffer.wf(),
        buffer.num_entries > 1,
        slots_divide_the_circle(buffer.num_entries),
    ensures
        buffer.is_stale(s) <==> !buffer.can_insert(s),
{
    if buffer.can_insert(s) && !buffer.advances(s) {
        lemma_in_window(buffer, s);
        assert forall|t: u16| #[trigger]
            buffer.entries.dom().contains(t) && seq_behind(t, buffer.sequence) < seq_behind(
                s,
                buffer.sequence,
            ) implies !buffer.same_slot(t as int, s as int) by {
            lemma_behind_is_unique(t, s, buffer.sequence);
            lemma_slot_of_other(buffer, t, s);
        }
    }
}

/// Where the number of slots divides the number of sequence numbers, the slots from that of one
/// number as far as it is to another are the slots of the numbers between the two.
pub proof fn law_slots_are_those_of_the_numbers<T>(
    buffer: SequenceBufferView<T>,
    start: u16,
    finish: u16,
    s: u16,
)
    requires
        buffer.num_entries > 0,
        slots_divide_the_circle(buffer.num_entries),
    ensures
        buffer.in_slots(start, finish, s) <==> exists|k: int|
            0 <= k <= seq_distance(start, finish) && #[trigger] buffer.same_slot(
                s as int,
                seq_add(start, k) as int,
            ),
{
    let m = buffer.slots_in_use();
    let span = seq_distance(start, finish);
    let r = slot_of(s - start, m);
    lemma_mod_bound(s - start, m as int);
    lemma_slot_of_number(buffer, start, s, r);
    if buffer.in_slots(start, finish, s) {
        assert(buffer.same_slot(s as int, seq_add(start, r) as int));
    }
    if exists|k: int|
        0 <= k <= span && #[trigger] buffer.same_slot(s as int, seq_add(start, k) as int) {
        let k = choose|k: int|
            0 <= k <= span && #[trigger] buffer.same_slot(s as int, seq_add(start, k) as int);
        if k < m {
            lemma_slot_of_number(buffer, start, s, k);
        }
    }
}

proof fn lemma_slot_of_number<T>(buffer: SequenceBufferView<T>, start: u16, s: u16, k: int)
    requires
        buffer.num_entries > 0,
        slots_divide_the_circle(buffer.num_entries),
        0 <= k < buffer.slots_in_use(),
    ensures
        buffer.same_slot(s as int, seq_add(start, k) as int) <==> slot_of(
            s - start,
            buffer.slots_in_use(),
        ) == k,
{
    let n = buffer.num_entries;
    let m = buffer.slots_in_use();
    let t = seq_add(start, k);
    lemma_slot_around(t as int, (start + k) / 0x1_0000, m);
    assert(slot_of(start + k, m) == slot_of(t as int, m));
    lemma_slot_steps(s as int, start as int, k, m);
    if n >= 0x1_0000 {
        lemma_small_mod(s as nat, n);
        lemma_small_mod(t as nat, n);
        lemma_small_mod(s as nat, m);
        lemma_small_mod(t as nat, m);
    }
}

/// The slot of a number is its remainder.
pub proof fn law_slot_is_the_remainder(number: int, n: nat)
    requires
        n > 0,
    ensures
        0 <= slot_of(number, n) < n,
        (number - slot_of(number, n)) % (n as int) == 0,
{
    lemma_mod_bound(number, n as int);
    lemma_fundamental_div_mod(number, n as int);
    lemma_mod_multiples_basic(number / (n as int), n as int);
    assert((number / (n as int)) * (n as int) == (n as int) * (number / (n as int)))
        by (nonlinear_arith);
}

/// A buffer starts out at the number zero, with nothing in it.
pub proof fn law_empty_buffer_holds_nothing<T>(n: nat, s: u16)
    ensures
        SequenceBufferView::<T>::empty(n).sequence == 0,
        SequenceBufferView::<T>::empty(n).num_entries == n,
        !SequenceBufferView::<T>::empty(n).entries.dom().contains(s),
        !SequenceBufferView::<T>::empty(n).contains(s),
{
}

/// The most recent number is the one before the next, and the oldest that is kept is as many
/// before the next as the buffer has entries.
pub proof fn law_ends_of_the_window<T>(buffer: SequenceBufferView<T>)
    ensures
        (buffer.newest() + 1 - buffer.sequence) % 0x1_0000 == 0,
        (buffer.oldest() + buffer.num_entries - buffer.sequence) % 0x1_0000 == 0,
{
}

/// Which numbers can be inserted: a number is too old if it lies behind the window by less than
/// half the number circle. Exactly half the circle behind, the smaller number is too old.
pub proof fn law_what_can_be_inserted<T>(buffer: SequenceBufferView<T>, s: u16)
    ensures
        ({
            let beyond = (buffer.sequence - s - buffer.num_entries) % 0x1_0000;
            let oldest = (buffer.sequence - buffer.num_entries) % 0x1_0000;
            &&& 0 < beyond < 0x8000 ==> !buffer.can_insert(s)
            &&& beyond == 0 || beyond > 0x8000 ==> buffer.can_insert(s)
            &&& beyond == 0x8000 ==> (buffer.can_insert(s) <==> oldest <= s)
        }),
{
}

/// A buffer moves forward to a number exactly if the number after it is newer than the one that
/// was to come next; the number after it comes next then. Otherwise nothing changes.
pub proof fn law_moving_forward<T>(buffer: SequenceBufferView<T>, sequence: u16)
    ensures
        ({
            let after = buffer.advanced(sequence);
            let ahead = (sequence + 1 - buffer.sequence) % 0x1_0000;
            let moves = 0 < ahead < 0x8000 || (ahead == 0x8000 && buffer.sequence < 0x8000);
            &&& buffer.advances(sequence) <==> moves
            &&& moves ==> after.sequence == (sequence + 1) % 0x1_0000
            &&& !moves ==> after == buffer
            &&& after.num_entries == buffer.num_entries
        }),
{
}

/// What is in a buffer after an insert: the new entry, and of the others exactly those that have
/// not fallen out of the window and have another slot, as they were.
pub proof fn law_what_is_there_after_insert<T>(
    buffer: SequenceBufferView<T>,
    sequence: u16,
    value: T,
    s: u16,
)
    ensures
        ({
            let after = buffer.inserted(sequence, value);
            let n = buffer.num_entries as int;
            let moves = after.sequence != buffer.sequence;
            let behind = seq_behind(s, buffer.sequence) + seq_distance(
                buffer.sequence,
                after.sequence,
            );
            &&& after.sequence == buffer.advanced(sequence).sequence
            &&& after.num_entries == buffer.num_entries
            &&& after.entries.dom().contains(sequence)
            &&& after.entries[sequence] == value
            &&& s != sequence ==> (after.entries.dom().contains(s)
                <==> buffer.entries.dom().contains(s) && s as int % n != sequence as int % n && (moves
                ==> behind <= n && behind <= 0x1_0000))
            &&& s != sequence && after.entries.dom().contains(s) ==> after.entries[s]
                == buffer.entries[s]
        }),
{
    lemma_steps(buffer, sequence);
    law_advance_keeps_the_window(buffer, s, sequence);
    law_moving_forward(buffer, sequence);
}

/// Removing a number empties its slot, and no other.
pub proof fn law_what_is_there_after_remove<T>(buffer: SequenceBufferView<T>, sequence: u16, s: u16)
    ensures
        ({
            let after = buffer.removed(sequence);
            let n = buffer.num_entries as int;
            &&& after.sequence == buffer.sequence
            &&& after.num_entries == buffer.num_entries
            &&& after.entries.dom().contains(s) <==> buffer.entries.dom().contains(s) && s as int % n
                != sequence as int % n
            &&& after.entries.dom().contains(s) ==> after.entries[s] == buffer.entries[s]
        }),
{
}

/// Changing an entry changes that entry, and no other.
pub proof fn law_what_is_there_after_update<T>(
    buffer: SequenceBufferView<T>,
    sequence: u16,
    value: T,
    s: u16,
)
    requires
        buffer.entries.dom().contains(sequence),
    ensures
        ({
            let after = buffer.updated(sequence, value);
            &&& after.sequence == buffer.sequence
            &&& after.num_entries == buffer.num_entries
            &&& after.entries.dom() == buffer.entries.dom()
            &&& after.entries[sequence] == value
            &&& s != sequence && buffer.entries.dom().contains(s) ==> after.entries[s]
                == buffer.entries[s]
        }),
{
    assert(buffer.updated(sequence, value).entries.dom() =~= buffer.entries.dom());
}

/// A number counts as present exactly if it has an entry.
pub proof fn law_present_means_an_entry<T>(buffer: SequenceBufferView<T>, s: u16)
    ensures
        buffer.contains(s) <==> buffer.entries.dom().contains(s),
{
}

/// Which numbers are stale: those that are too old to be inserted, and of those that are not newer
/// than all before the ones that are further behind than the buffer has entries, or whose slot is
/// taken by an entry less far behind.
pub proof fn law_what_is_stale<T>(buffer: SequenceBufferView<T>, s: u16)
    ensures
        ({
            let n = buffer.num_entries as int;
            buffer.is_stale(s) <==> !buffer.can_insert(s) || !buffer.advances(s) && (seq_behind(
                s,
                buffer.sequence,
            ) > n || exists|t: u16| #[trigger]
                buffer.entries.dom().contains(t) && t as int % n == s as int % n && seq_behind(
                    t,
                    buffer.sequence,
                ) < seq_behind(s, buffer.sequence))
        }),
{
    if buffer.superseded(s) {
        let t = choose|t: u16| #[trigger]
            buffer.entries.dom().contains(t) && buffer.same_slot(t as int, s as int) && seq_behind(
                t,
                buffer.sequence,
            ) < seq_behind(s, buffer.sequence);
        assert(t as int % (buffer.num_entries as int) == s as int % (buffer.num_entries as int));
    }
}

/// Which entries leave when a buffer moves forward to a number: those under the numbers that it
/// passes over, and those that come to be further behind than the buffer has entries.
pub proof fn law_what_leaves<T>(buffer: SequenceBufferView<T>, finish: u16, s: u16)
    ensures
        buffer.leaves(finish, s) <==> (s - buffer.sequence) % 0x1_0000 <= (finish - buffer.sequence)
            % 0x1_0000 || seq_behind(s, ((finish + 1) % 0x1_0000) as u16) > buffer.num_entries,
{
}

/// Which slots lie between two numbers: a number has one of them exactly if it leaves the same
/// remainder as one of the numbers from the first as far as it is to the second, counted on past
/// the wrap-around. Where each number has a slot of its own, if it is one of those numbers.
pub proof fn law_what_is_in_slots<T>(buffer: SequenceBufferView<T>, start: u16, finish: u16, s: u16)
    requires
        buffer.num_entries > 0,
    ensures
        ({
            let n = buffer.num_entries;
            let span = (finish - start) % 0x1_0000;
            &&& n < 0x1_0000 ==> (buffer.in_slots(start, finish, s) <==> exists|k: int|
                0 <= k <= span && #[trigger] slot_of(start + k, n) == slot_of(s as int, n))
            &&& n >= 0x1_0000 ==> (buffer.in_slots(start, finish, s) <==> (s - start) % 0x1_0000
                <= span)
        }),
{
    let n = buffer.num_entries;
    let span = (finish - start) % 0x1_0000;
    if n < 0x1_0000 {
        let r = slot_of(s - start, n);
        lemma_mod_bound(s - start, n as int);
        lemma_slot_steps(s as int, start as int, r, n);
        assert(slot_of(start + r, n) == slot_of(s as int, n));
        if r > span {
            assert forall|k: int| 0 <= k <= span implies #[trigger] slot_of(start + k, n)
                != slot_of(s as int, n) by {
                lemma_slot_steps(s as int, start as int, k, n);
            }
        }
    }
}

} // verus!
