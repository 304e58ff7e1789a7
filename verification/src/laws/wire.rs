//! Laws of the headers as they are on the wire, byte by byte.

use vstd::prelude::*;

use crate::packet::{
    lemma_packet_header_layout, packet_header, parse_fragment_header, parse_packet_header,
};

verus! {

/// One if the condition holds, zero if it does not.
pub open spec fn one_if(condition: bool) -> int {
    if condition {
        1
    } else {
        0
    }
}

/// Where the bytes of a packet header stand. The prefix byte has a bit for each byte of the ack
/// bits that is not all ones, from the second bit on, and one for an ack that is at most 255 before
/// the sequence number. Then come the sequence number with its low byte first, the ack as its
/// distance to the sequence number in one byte or as it is in two, and the bytes of the ack bits
/// that are not all ones, the lowest first.
pub proof fn law_bytes_of_a_packet_header(sequence: u16, ack: u16, ack_bits: u32)
    ensures
        ({
            let h = packet_header(sequence, ack, ack_bits);
            let behind = (sequence - ack) % 0x1_0000;
            let near = behind <= 255;
            let b0 = ack_bits as int % 0x100;
            let b1 = ack_bits as int / 0x100 % 0x100;
            let b2 = ack_bits as int / 0x1_0000 % 0x100;
            let b3 = ack_bits as int / 0x100_0000;
            let p0 = 5 - one_if(near);
            let p1 = p0 + one_if(b0 != 255);
            let p2 = p1 + one_if(b1 != 255);
            let p3 = p2 + one_if(b2 != 255);
            &&& h.len() == p3 + one_if(b3 != 255)
            &&& h[0] == 2 * one_if(b0 != 255) + 4 * one_if(b1 != 255) + 8 * one_if(b2 != 255) + 16
                * one_if(b3 != 255) + 32 * one_if(near)
            &&& h[1] + 0x100 * h[2] == sequence
            &&& near ==> h[3] == behind
            &&& !near ==> h[3] + 0x100 * h[4] == ack
            &&& b0 != 255 ==> h[p0] == b0
            &&& b1 != 255 ==> h[p1] == b1
            &&& b2 != 255 ==> h[p2] == b2
            &&& b3 != 255 ==> h[p3] == b3
        }),
{
    lemma_packet_header_layout(sequence, ack, ack_bits);
}

/// A packet header can be read exactly from what is not a fragment and has all the bytes that the
/// bits of its prefix byte announce. It says what those bytes say, and a byte of the ack bits that
/// is not there is all ones.
pub proof fn law_reading_a_packet_header(data: Seq<u8>)
    requires
        data.len() > 0,
    ensures
        ({
            let near = data[0] as int / 32 % 2 == 1;
            let p0 = 5 - one_if(near);
            let p1 = p0 + data[0] as int / 2 % 2;
            let p2 = p1 + data[0] as int / 4 % 2;
            let p3 = p2 + data[0] as int / 8 % 2;
            let p4 = p3 + data[0] as int / 16 % 2;
            let b0 = if p0 < p1 { data[p0] } else { 255 };
            let b1 = if p1 < p2 { data[p1] } else { 255 };
            let b2 = if p2 < p3 { data[p2] } else { 255 };
            let b3 = if p3 < p4 { data[p3] } else { 255 };
            &&& parse_packet_header(data) is Some <==> data[0] as int % 2 == 0 && data.len() >= p4
            &&& parse_packet_header(data) matches Some(h) ==> {
                &&& h.bytes == p4
                &&& h.sequence == data[1] + 0x100 * data[2]
                &&& near ==> h.ack == (h.sequence - data[3]) % 0x1_0000
                &&& !near ==> h.ack == data[3] + 0x100 * data[4]
                &&& h.ack_bits == b0 + 0x100 * b1 + 0x1_0000 * b2 + 0x100_0000 * b3
            }
        }),
{
}

/// The header of a fragment can be read exactly if its first byte is one, the number of fragments
/// is allowed, the number of the fragment is below it, and the rest of the datagram is of the
/// right size: that of a fragment, or no more than that for the last one. The first fragment must
/// have the packet header in front, for the same sequence number and just as it is written.
pub proof fn law_reading_a_fragment_header(data: Seq<u8>, max_fragments: int, fragment_size: int)
    requires
        data.len() > 0,
    ensures
        ({
            let read = parse_fragment_header(data, max_fragments, fragment_size);
            let rest = data.skip(5);
            let inner = parse_packet_header(rest);
            let bytes = if data[3] == 0 {
                rest.len() - inner->Some_0.bytes
            } else {
                rest.len() as int
            };
            let first_fits = inner is Some && inner->Some_0.sequence == data[1] + 0x100 * data[2]
                && rest.take(inner->Some_0.bytes as int) == packet_header(
                inner->Some_0.sequence,
                inner->Some_0.ack,
                inner->Some_0.ack_bits,
            );
            &&& read is Some <==> data.len() >= 5 && data[0] == 1 && data[4] < max_fragments
                && data[3] <= data[4] && (data[3] == 0 ==> first_fits) && bytes <= fragment_size
                && (data[3] < data[4] ==> bytes == fragment_size)
            &&& read matches Some(f) ==> {
                &&& f.bytes == 5
                &&& f.sequence == data[1] + 0x100 * data[2]
                &&& f.fragment_id == data[3]
                &&& f.num_fragments == data[4] + 1
                &&& f.ack == (if data[3] == 0 {
                    inner->Some_0.ack
                } else {
                    0
                })
                &&& f.ack_bits == (if data[3] == 0 {
                    inner->Some_0.ack_bits
                } else {
                    0
                })
            }
        }),
{
}

} // verus!
