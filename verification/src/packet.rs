//! The headers of regular packets and of fragments, as they are laid out on the wire.
//!
//! A packet header is a prefix byte, the sequence number, the ack and up to four bytes of
//! ack bits. The prefix byte tells which of them are there: an ack bits byte that is all
//! ones is implied rather than sent, and the ack is sent as a one byte offset from the
//! sequence number when the two are close together.

use vstd::prelude::*;
use vstd::slice::slice_subrange;

use crate::sequence::{seq_add, seq_distance};
use crate::{FRAGMENT_HEADER_BYTES, MAX_PACKET_HEADER_BYTES};

verus! {

/// Set in the prefix byte of a fragment, clear in that of a regular packet.
pub const FLAG_FRAGMENT: u8 = 1;

/// Set in the prefix byte if the lowest byte of the ack bits is sent.
pub const FLAG_ACK_BYTE_0: u8 = 2;

pub const FLAG_ACK_BYTE_1: u8 = 4;

pub const FLAG_ACK_BYTE_2: u8 = 8;

/// Set in the prefix byte if the highest byte of the ack bits is sent.
pub const FLAG_ACK_BYTE_3: u8 = 16;

/// Set in the prefix byte if the ack is sent as an offset from the sequence number.
pub const FLAG_ACK_NEAR: u8 = 32;

/// A flag, which is a power of two, is set in a prefix byte.
pub open spec fn has_flag(prefix: u8, flag: u8) -> bool {
    (prefix / flag) % 2 == 1
}

pub open spec fn flag_if(set: bool, flag: u8) -> int {
    if set {
        flag as int
    } else {
        0
    }
}

/// The two bytes of a number, the low one first.
pub open spec fn le_bytes(x: u16) -> Seq<u8> {
    seq![(x % 0x100) as u8, (x / 0x100) as u8]
}

pub open spec fn from_le_bytes(low: u8, high: u8) -> u16 {
    (low + 0x100 * high) as u16
}

/// One of the four bytes of the ack bits, the lowest being byte zero.
pub open spec fn ack_byte(ack_bits: u32, i: int) -> u8 {
    if i == 0 {
        (ack_bits % 0x100) as u8
    } else if i == 1 {
        (ack_bits / 0x100 % 0x100) as u8
    } else if i == 2 {
        (ack_bits / 0x1_0000 % 0x100) as u8
    } else {
        (ack_bits / 0x100_0000) as u8
    }
}

pub open spec fn from_ack_bytes(b0: u8, b1: u8, b2: u8, b3: u8) -> u32 {
    (b0 + 0x100 * b1 + 0x1_0000 * b2 + 0x100_0000 * b3) as u32
}

/// A byte of ack bits on the wire: left out if it is all ones.
pub open spec fn sent_ack_byte(byte: u8) -> Seq<u8> {
    if byte == 0xFF {
        seq![]
    } else {
        seq![byte]
    }
}

/// The ack is recent enough to be sent as an offset from the sequence number.
pub open spec fn ack_is_near(sequence: u16, ack: u16) -> bool {
    seq_distance(ack, sequence) <= 255
}

pub open spec fn packet_prefix(sequence: u16, ack: u16, ack_bits: u32) -> u8 {
    (flag_if(ack_byte(ack_bits, 0) != 0xFF, FLAG_ACK_BYTE_0) + flag_if(
        ack_byte(ack_bits, 1) != 0xFF,
        FLAG_ACK_BYTE_1,
    ) + flag_if(ack_byte(ack_bits, 2) != 0xFF, FLAG_ACK_BYTE_2) + flag_if(
        ack_byte(ack_bits, 3) != 0xFF,
        FLAG_ACK_BYTE_3,
    ) + flag_if(ack_is_near(sequence, ack), FLAG_ACK_NEAR)) as u8
}

pub open spec fn sent_ack(sequence: u16, ack: u16) -> Seq<u8> {
    if ack_is_near(sequence, ack) {
        seq![seq_distance(ack, sequence) as u8]
    } else {
        le_bytes(ack)
    }
}

/// The header of a regular packet on the wire.
pub open spec fn packet_header(sequence: u16, ack: u16, ack_bits: u32) -> Seq<u8> {
    seq![packet_prefix(sequence, ack, ack_bits)] + le_bytes(sequence) + sent_ack(sequence, ack)
        + sent_ack_byte(ack_byte(ack_bits, 0)) + sent_ack_byte(ack_byte(ack_bits, 1))
        + sent_ack_byte(ack_byte(ack_bits, 2)) + sent_ack_byte(ack_byte(ack_bits, 3))
}

/// What a packet header says, and how many bytes it takes.
pub struct PacketHeader {
    pub bytes: usize,
    pub sequence: u16,
    pub ack: u16,
    pub ack_bits: u32,
}

/// Reads the header at the start of a regular packet. There is none in a packet that is
/// too short for what its prefix byte announces, or whose prefix byte is that of a fragment.
pub open spec fn parse_packet_header(data: Seq<u8>) -> Option<PacketHeader> {
    let prefix = data[0];
    let sequence = from_le_bytes(data[1], data[2]);
    let near = has_flag(prefix, FLAG_ACK_NEAR);
    let ack = if near {
        seq_add(sequence, -data[3])
    } else {
        from_le_bytes(data[3], data[4])
    };
    let p0: int = if near { 4 } else { 5 };
    let p1 = p0 + flag_if(has_flag(prefix, FLAG_ACK_BYTE_0), 1);
    let p2 = p1 + flag_if(has_flag(prefix, FLAG_ACK_BYTE_1), 1);
    let p3 = p2 + flag_if(has_flag(prefix, FLAG_ACK_BYTE_2), 1);
    let p4 = p3 + flag_if(has_flag(prefix, FLAG_ACK_BYTE_3), 1);
    let ack_bits = from_ack_bytes(
        if p0 < p1 { data[p0] } else { 0xFF },
        if p1 < p2 { data[p1] } else { 0xFF },
        if p2 < p3 { data[p2] } else { 0xFF },
        if p3 < p4 { data[p3] } else { 0xFF },
    );
    if data.len() < 3 || has_flag(prefix, FLAG_FRAGMENT) || data.len() < p4 {
        None
    } else {
        Some(PacketHeader { bytes: p4 as usize, sequence, ack, ack_bits })
    }
}

/// What the prefix byte of a packet header tells.
pub proof fn lemma_prefix_flags(sequence: u16, ack: u16, ack_bits: u32)
    ensures
        ({
            let prefix = packet_prefix(sequence, ack, ack_bits);
            &&& !has_flag(prefix, FLAG_FRAGMENT)
            &&& has_flag(prefix, FLAG_ACK_BYTE_0) == (ack_byte(ack_bits, 0) != 0xFF)
            &&& has_flag(prefix, FLAG_ACK_BYTE_1) == (ack_byte(ack_bits, 1) != 0xFF)
            &&& has_flag(prefix, FLAG_ACK_BYTE_2) == (ack_byte(ack_bits, 2) != 0xFF)
            &&& has_flag(prefix, FLAG_ACK_BYTE_3) == (ack_byte(ack_bits, 3) != 0xFF)
            &&& has_flag(prefix, FLAG_ACK_NEAR) == ack_is_near(sequence, ack)
        }),
{
}

proof fn lemma_ack_bytes(ack_bits: u32)
    ensures
        from_ack_bytes(
            ack_byte(ack_bits, 0),
            ack_byte(ack_bits, 1),
            ack_byte(ack_bits, 2),
            ack_byte(ack_bits, 3),
        ) == ack_bits,
{
}

proof fn lemma_le_bytes(x: u16)
    ensures
        from_le_bytes(le_bytes(x)[0], le_bytes(x)[1]) == x,
{
}

/// Where the parts of a packet header stand on the wire.
pub proof fn lemma_packet_header_layout(sequence: u16, ack: u16, ack_bits: u32)
    ensures
        ({
            let header = packet_header(sequence, ack, ack_bits);
            let p0: int = if ack_is_near(sequence, ack) { 4 } else { 5 };
            let p1 = p0 + sent_ack_byte(ack_byte(ack_bits, 0)).len();
            let p2 = p1 + sent_ack_byte(ack_byte(ack_bits, 1)).len();
            let p3 = p2 + sent_ack_byte(ack_byte(ack_bits, 2)).len();
            let p4 = p3 + sent_ack_byte(ack_byte(ack_bits, 3)).len();
            &&& header.len() == p4
            &&& 4 <= p4 <= 9
            &&& header[0] == packet_prefix(sequence, ack, ack_bits)
            &&& header[1] == le_bytes(sequence)[0]
            &&& header[2] == le_bytes(sequence)[1]
            &&& header[3] == sent_ack(sequence, ack)[0]
            &&& p0 == 5 ==> header[4] == sent_ack(sequence, ack)[1]
            &&& p0 < p1 ==> header[p0] == ack_byte(ack_bits, 0)
            &&& p1 < p2 ==> header[p1] == ack_byte(ack_bits, 1)
            &&& p2 < p3 ==> header[p2] == ack_byte(ack_bits, 2)
            &&& p3 < p4 ==> header[p3] == ack_byte(ack_bits, 3)
        }),
{
    let h0 = seq![packet_prefix(sequence, ack, ack_bits)] + le_bytes(sequence) + sent_ack(
        sequence,
        ack,
    );
    let h1 = h0 + sent_ack_byte(ack_byte(ack_bits, 0));
    let h2 = h1 + sent_ack_byte(ack_byte(ack_bits, 1));
    let h3 = h2 + sent_ack_byte(ack_byte(ack_bits, 2));
    let h4 = h3 + sent_ack_byte(ack_byte(ack_bits, 3));
    assert(h4 == packet_header(sequence, ack, ack_bits));
}

/// Reading a packet header gives back what was written, whatever follows it.
pub proof fn law_packet_header_round_trip(
    sequence: u16,
    ack: u16,
    ack_bits: u32,
    payload: Seq<u8>,
)
    ensures
        parse_packet_header(packet_header(sequence, ack, ack_bits) + payload) == Some(
            PacketHeader {
                bytes: packet_header(sequence, ack, ack_bits).len() as usize,
                sequence,
                ack,
                ack_bits,
            },
        ),
{
    let header = packet_header(sequence, ack, ack_bits);
    lemma_packet_header_layout(sequence, ack, ack_bits);
    lemma_prefix_flags(sequence, ack, ack_bits);
    lemma_ack_bytes(ack_bits);
    lemma_le_bytes(sequence);
    lemma_le_bytes(ack);
    assert(forall|i: int| 0 <= i < header.len() ==> (header + payload)[i] == header[i]);
}

fn write_ack_byte(packet_data: &mut [u8], p: usize, byte: u8) -> (end: usize)
    requires
        p + sent_ack_byte(byte).len() <= old(packet_data)@.len(),
    ensures
        end == p + sent_ack_byte(byte).len(),
        final(packet_data)@.len() == old(packet_data)@.len(),
        final(packet_data)@.take(end as int) == old(packet_data)@.take(p as int) + sent_ack_byte(byte),
        forall|i: int|
            end <= i < old(packet_data)@.len() ==> final(packet_data)@[i] == old(packet_data)@[i],
{
    if byte != 0xFF {
        packet_data[p] = byte;
        p + 1
    } else {
        p
    }
}

/// Writes the part of a packet header before the ack bits.
fn write_sequence_and_ack(packet_data: &mut [u8], sequence: u16, ack: u16, ack_bits: u32) -> (end: usize)
    requires
        old(packet_data)@.len() >= 3 + sent_ack(sequence, ack).len(),
    ensures
        end == 3 + sent_ack(sequence, ack).len(),
        final(packet_data)@.len() == old(packet_data)@.len(),
        final(packet_data)@.take(end as int) == seq![packet_prefix(sequence, ack, ack_bits)]
            + le_bytes(sequence) + sent_ack(sequence, ack),
        forall|i: int|
            end <= i < old(packet_data)@.len() ==> final(packet_data)@[i] == old(packet_data)@[i],
{
    let sequence_difference: u16 = sequence.wrapping_sub(ack);
    packet_data[0] = write_prefix(sequence, ack, ack_bits);
    packet_data[1] = (sequence % 0x100) as u8;
    packet_data[2] = (sequence / 0x100) as u8;
    if sequence_difference <= 255 {
        packet_data[3] = sequence_difference as u8;
        4
    } else {
        packet_data[3] = (ack % 0x100) as u8;
        packet_data[4] = (ack / 0x100) as u8;
        5
    }
}

fn write_prefix(sequence: u16, ack: u16, ack_bits: u32) -> (prefix_byte: u8)
    ensures
        prefix_byte == packet_prefix(sequence, ack, ack_bits),
{
    let mut prefix_byte: u8 = 0;
    if ack_bits % 0x100 != 0xFF {
        prefix_byte += FLAG_ACK_BYTE_0;
    }
    if ack_bits / 0x100 % 0x100 != 0xFF {
        prefix_byte += FLAG_ACK_BYTE_1;
    }
    if ack_bits / 0x1_0000 % 0x100 != 0xFF {
        prefix_byte += FLAG_ACK_BYTE_2;
    }
    if ack_bits / 0x100_0000 != 0xFF {
        prefix_byte += FLAG_ACK_BYTE_3;
    }
    if sequence.wrapping_sub(ack) <= 255 {
        prefix_byte += FLAG_ACK_NEAR;
    }
    prefix_byte
}

/// Writes a packet header with variable-length encoding: ack_bits bytes that are all 1s
/// are implied rather than sent, and the ack is sent as a one byte offset from the
/// sequence number when they are close together. Returns the number of bytes written.
pub fn write_packet_header(packet_data: &mut [u8], sequence: u16, ack: u16, ack_bits: u32) -> (bytes: usize)
    requires
        old(packet_data)@.len() >= packet_header(sequence, ack, ack_bits).len(),
    ensures
        bytes == packet_header(sequence, ack, ack_bits).len(),
        4 <= bytes <= MAX_PACKET_HEADER_BYTES,
        final(packet_data)@ == packet_header(sequence, ack, ack_bits) + old(packet_data)@.skip(
            bytes as int,
        ),
{
    proof {
        lemma_packet_header_layout(sequence, ack, ack_bits);
    }
    let ghost before = packet_data@;
    let b0: u8 = (ack_bits % 0x100) as u8;
    let b1: u8 = (ack_bits / 0x100 % 0x100) as u8;
    let b2: u8 = (ack_bits / 0x1_0000 % 0x100) as u8;
    let b3: u8 = (ack_bits / 0x100_0000) as u8;
    let p0: usize = write_sequence_and_ack(packet_data, sequence, ack, ack_bits);
    let p1: usize = write_ack_byte(packet_data, p0, b0);
    let p2: usize = write_ack_byte(packet_data, p1, b1);
    let p3: usize = write_ack_byte(packet_data, p2, b2);
    let p4: usize = write_ack_byte(packet_data, p3, b3);
    assert(packet_data@.take(p4 as int) == packet_header(sequence, ack, ack_bits));
    assert(packet_data@ =~= packet_data@.take(p4 as int) + before.skip(p4 as int));
    p4
}

fn read_flag(prefix: u8, flag: u8) -> (set: bool)
    requires
        flag > 0,
    ensures
        set == has_flag(prefix, flag),
{
    (prefix / flag) % 2 == 1
}

/// Reads the ack bits byte at `p`, if it was sent, and steps over it.
fn read_ack_byte(packet_data: &[u8], p: usize, sent: bool) -> (read: (u8, usize))
    requires
        p + flag_if(sent, 1) <= packet_data@.len(),
    ensures
        read.1 == p + flag_if(sent, 1),
        read.0 == (if sent {
            packet_data@[p as int]
        } else {
            0xFF
        }),
{
    if sent {
        (packet_data[p], p + 1)
    } else {
        (0xFF, p)
    }
}

/// Reads the number whose low byte is at `p`.
fn read_u16(packet_data: &[u8], p: usize) -> (number: u16)
    requires
        p + 1 < packet_data@.len(),
    ensures
        number == from_le_bytes(packet_data@[p as int], packet_data@[p + 1]),
{
    packet_data[p] as u16 + 0x100 * packet_data[p + 1] as u16
}

fn join_ack_bytes(b0: u8, b1: u8, b2: u8, b3: u8) -> (ack_bits: u32)
    ensures
        ack_bits == from_ack_bytes(b0, b1, b2, b3),
{
    b0 as u32 + 0x100 * b1 as u32 + 0x1_0000 * b2 as u32 + 0x100_0000 * b3 as u32
}

/// Reads the header of a regular packet, if there is one.
pub fn read_packet_header(packet_data: &[u8]) -> (header: Option<PacketHeader>)
    ensures
        header == parse_packet_header(packet_data@),
{
    let packet_bytes: usize = packet_data.len();
    if packet_bytes < 3 {
        return None;
    }
    let prefix_byte: u8 = packet_data[0];
    if read_flag(prefix_byte, FLAG_FRAGMENT) {
        return None;
    }
    let near = read_flag(prefix_byte, FLAG_ACK_NEAR);
    let sent_0 = read_flag(prefix_byte, FLAG_ACK_BYTE_0);
    let sent_1 = read_flag(prefix_byte, FLAG_ACK_BYTE_1);
    let sent_2 = read_flag(prefix_byte, FLAG_ACK_BYTE_2);
    let sent_3 = read_flag(prefix_byte, FLAG_ACK_BYTE_3);

    let mut expected_bytes: usize = if near { 4 } else { 5 };
    let p0: usize = expected_bytes;
    if sent_0 {
        expected_bytes += 1;
    }
    if sent_1 {
        expected_bytes += 1;
    }
    if sent_2 {
        expected_bytes += 1;
    }
    if sent_3 {
        expected_bytes += 1;
    }
    if packet_bytes < expected_bytes {
        return None;
    }

    let sequence: u16 = read_u16(packet_data, 1);
    let ack: u16 = if near {
        sequence.wrapping_sub(packet_data[3] as u16)
    } else {
        read_u16(packet_data, 3)
    };
    let (b0, p1) = read_ack_byte(packet_data, p0, sent_0);
    let (b1, p2) = read_ack_byte(packet_data, p1, sent_1);
    let (b2, p3) = read_ack_byte(packet_data, p2, sent_2);
    let (b3, p4) = read_ack_byte(packet_data, p3, sent_3);
    let ack_bits: u32 = join_ack_bytes(b0, b1, b2, b3);

    Some(PacketHeader { bytes: p4, sequence, ack, ack_bits })
}

/// The header of fragment `fragment_id` out of `num_fragments` on the wire.
pub open spec fn fragment_header(sequence: u16, fragment_id: int, num_fragments: int) -> Seq<u8> {
    seq![FLAG_FRAGMENT] + le_bytes(sequence) + seq![fragment_id as u8, (num_fragments - 1) as u8]
}

/// What a fragment header says. The ack and the ack bits are those of the packet header that
/// follows the header of the first fragment, and zero for the others.
pub struct FragmentHeader {
    pub bytes: usize,
    pub fragment_id: usize,
    pub num_fragments: usize,
    pub sequence: u16,
    pub ack: u16,
    pub ack_bits: u32,
}

/// The packet header in front of the first fragment is written the way that
/// [`write_packet_header`] writes it.
pub open spec fn is_canonical(data: Seq<u8>, header: PacketHeader) -> bool {
    data.take(header.bytes as int) == packet_header(header.sequence, header.ack, header.ack_bits)
}

/// A fragment may have this many bytes: all but the last of a packet are of full size.
pub open spec fn fragment_size_fits(
    bytes: int,
    fragment_id: int,
    num_fragments: int,
    fragment_size: int,
) -> bool {
    if fragment_id == num_fragments - 1 {
        bytes <= fragment_size
    } else {
        bytes == fragment_size
    }
}

/// Reads the header of a fragment. The first fragment of a packet must carry the packet
/// header, for the same sequence number and in its canonical form.
pub open spec fn parse_fragment_header(
    data: Seq<u8>,
    max_fragments: int,
    fragment_size: int,
) -> Option<FragmentHeader> {
    let sequence = from_le_bytes(data[1], data[2]);
    let fragment_id = data[3] as int;
    let num_fragments = data[4] + 1;
    let body = data.skip(FRAGMENT_HEADER_BYTES as int);
    if data.len() < FRAGMENT_HEADER_BYTES || data[0] != FLAG_FRAGMENT {
        None
    } else if num_fragments > max_fragments || fragment_id >= num_fragments {
        None
    } else if fragment_id == 0 {
        match parse_packet_header(body) {
            Some(header) => if header.sequence == sequence && is_canonical(body, header)
                && fragment_size_fits(
                body.len() - header.bytes,
                fragment_id,
                num_fragments,
                fragment_size,
            ) {
                Some(
                    FragmentHeader {
                        bytes: FRAGMENT_HEADER_BYTES,
                        fragment_id: fragment_id as usize,
                        num_fragments: num_fragments as usize,
                        sequence,
                        ack: header.ack,
                        ack_bits: header.ack_bits,
                    },
                )
            } else {
                None
            },
            None => None,
        }
    } else if fragment_size_fits(body.len() as int, fragment_id, num_fragments, fragment_size) {
        Some(
            FragmentHeader {
                bytes: FRAGMENT_HEADER_BYTES,
                fragment_id: fragment_id as usize,
                num_fragments: num_fragments as usize,
                sequence,
                ack: 0,
                ack_bits: 0,
            },
        )
    } else {
        None
    }
}

/// Whether the first bytes of the two slices are the same.
fn starts_equal(a: &[u8], b: &[u8], bytes: usize) -> (equal: bool)
    requires
        bytes <= a@.len(),
        bytes <= b@.len(),
    ensures
        equal == (a@.take(bytes as int) == b@.take(bytes as int)),
{
    let mut i: usize = 0;
    while i < bytes
        invariant
            i <= bytes,
            bytes <= a@.len(),
            bytes <= b@.len(),
            forall|j: int| 0 <= j < i ==> a@[j] == b@[j],
        decreases bytes - i,
    {
        if a[i] != b[i] {
            assert(a@.take(bytes as int)[i as int] != b@.take(bytes as int)[i as int]);
            return false;
        }
        i += 1;
    }
    assert(a@.take(bytes as int) =~= b@.take(bytes as int));
    true
}

/// Reads the header of a fragment, if there is one that can be trusted.
pub fn read_fragment_header(
    packet_data: &[u8],
    max_fragments: usize,
    fragment_size: usize,
) -> (header: Option<FragmentHeader>)
    ensures
        header == parse_fragment_header(
            packet_data@,
            max_fragments as int,
            fragment_size as int,
        ),
{
    let packet_bytes: usize = packet_data.len();
    if packet_bytes < FRAGMENT_HEADER_BYTES {
        return None;
    }
    if packet_data[0] != FLAG_FRAGMENT {
        return None;
    }
    let sequence: u16 = read_u16(packet_data, 1);
    let fragment_id: usize = packet_data[3] as usize;
    let num_fragments: usize = packet_data[4] as usize + 1;
    if num_fragments > max_fragments {
        return None;
    }
    if fragment_id >= num_fragments {
        return None;
    }

    let body = slice_subrange(packet_data, FRAGMENT_HEADER_BYTES, packet_bytes);
    assert(body@ =~= packet_data@.skip(FRAGMENT_HEADER_BYTES as int));
    let mut fragment_bytes: usize = packet_bytes - FRAGMENT_HEADER_BYTES;
    let mut ack: u16 = 0;
    let mut ack_bits: u32 = 0;

    if fragment_id == 0 {
        let embedded = match read_packet_header(body) {
            Some(embedded) => embedded,
            None => return None,
        };
        if embedded.sequence != sequence {
            return None;
        }

        // The packet header is re-encoded canonically during reassembly, so a non-canonical
        // header would shift where the fragment payload lands.

        let mut canonical_header = [0u8; MAX_PACKET_HEADER_BYTES];
        proof {
            lemma_packet_header_layout(
                embedded.sequence,
                embedded.ack,
                embedded.ack_bits,
            );
        }
        let canonical_header_bytes: usize = write_packet_header(
            &mut canonical_header,
            embedded.sequence,
            embedded.ack,
            embedded.ack_bits,
        );
        assert(canonical_header@.take(canonical_header_bytes as int) =~= packet_header(
            embedded.sequence,
            embedded.ack,
            embedded.ack_bits,
        ));
        if canonical_header_bytes != embedded.bytes || !starts_equal(
            &canonical_header,
            body,
            canonical_header_bytes,
        ) {
            return None;
        }
        ack = embedded.ack;
        ack_bits = embedded.ack_bits;
        fragment_bytes = fragment_bytes - embedded.bytes;
    }

    if fragment_bytes > fragment_size {
        return None;
    }
    if fragment_id != num_fragments - 1 && fragment_bytes != fragment_size {
        return None;
    }

    Some(
        FragmentHeader {
            bytes: FRAGMENT_HEADER_BYTES,
            fragment_id,
            num_fragments,
            sequence,
            ack,
            ack_bits,
        },
    )
}

} // verus!
