//! Laws of the circular order of sequence numbers.

use vstd::prelude::*;

use crate::sequence::{seq_add, seq_behind, seq_distance, seq_newer};

verus! {

/// Of two sequence numbers, either they are the same or exactly one is the newer.
pub proof fn law_order_is_total(a: u16, b: u16)
    ensures
        a == b ==> !seq_newer(a, b) && !seq_newer(b, a),
        a != b ==> seq_newer(a, b) != seq_newer(b, a),
{
}

/// A sequence number is newer than those that less than half the number circle of steps
/// lead to it from, also past the wrap-around.
pub proof fn law_later_is_newer(s: u16, steps: int)
    requires
        0 < steps < 0x8000,
    ensures
        seq_newer(seq_add(s, steps), s),
        !seq_newer(s, seq_add(s, steps)),
{
}

/// Stepping forward by the distance between two numbers leads from one to the other.
pub proof fn law_distance_leads_there(from: u16, to: u16)
    ensures
        seq_add(from, seq_distance(from, to)) == to,
        0 <= seq_distance(from, to) < 0x1_0000,
{
}

/// Stepping along the number circle is addition, and the distance subtraction, up to whole turns
/// of 65536.
pub proof fn law_circle_has_65536_numbers(a: u16, b: u16, steps: int)
    ensures
        (seq_add(a, steps) - a - steps) % 0x1_0000 == 0,
        0 <= seq_distance(a, b) <= 0xFFFF,
        (b - a - seq_distance(a, b)) % 0x1_0000 == 0,
        1 <= seq_behind(a, b) <= 0x1_0000,
        (b - a - seq_behind(a, b)) % 0x1_0000 == 0,
{
}

/// Of two numbers half the circle apart the larger one is the newer.
pub proof fn law_half_way_the_larger_is_newer(a: u16, b: u16)
    requires
        a == b + 0x8000,
    ensures
        seq_newer(a, b),
        !seq_newer(b, a),
{
}

} // verus!
