//! Sixteen bit sequence numbers and their circular order.

use vstd::prelude::*;

verus! {

/// The sequence number `distance` steps after `s`, wrapping around past `0xFFFF`.
pub open spec fn seq_add(s: u16, distance: int) -> u16 {
    ((s + distance) % 0x1_0000) as u16
}

/// The number of steps forward, modulo 65536, that lead from `from` to `to`.
pub open spec fn seq_distance(from: u16, to: u16) -> int {
    (to - from) % 0x1_0000
}

/// How far `s` is behind `next`, the number that comes next: from 1 for the most recent number
/// to 65536 for one that was the next one a whole turn of the number circle ago.
pub open spec fn seq_behind(s: u16, next: u16) -> int {
    if s == next {
        0x1_0000
    } else {
        seq_distance(s, next)
    }
}

/// The circular order: `s1` is newer than `s2` if it lies less than half the number circle
/// ahead of it. Of two numbers exactly half the circle apart, the larger one is the newer.
pub open spec fn seq_newer(s1: u16, s2: u16) -> bool {
    let ahead = seq_distance(s2, s1);
    0 < ahead < 0x8000 || (ahead == 0x8000 && s1 > s2)
}

/// Returns true if sequence number `s1` is greater than `s2`, taking wrap-around into account.
pub fn sequence_greater_than(s1: u16, s2: u16) -> (greater: bool)
    ensures
        greater == seq_newer(s1, s2),
{
    ((s1 > s2) && (s1 - s2 <= 32768)) || ((s1 < s2) && (s2 - s1 > 32768))
}

/// Returns true if sequence number `s1` is less than `s2`, taking wrap-around into account.
pub fn sequence_less_than(s1: u16, s2: u16) -> (less: bool)
    ensures
        less == seq_newer(s2, s1),
{
    sequence_greater_than(s2, s1)
}

} // verus!
