use reliable::packet::{read_fragment_header, read_packet_header, write_packet_header};
use reliable::{FRAGMENT_HEADER_BYTES, MAX_PACKET_HEADER_BYTES};

#[test]
fn packet_header_roundtrip_random() {
    // randomized roundtrip: any (sequence, ack, ack_bits) triple must survive
    // write/read exactly, whichever variable-length encoding it takes
    let mut state: u64 = 0x9E37_79B9_7F4A_7C15;
    let mut packet_data = [0u8; MAX_PACKET_HEADER_BYTES];
    for _ in 0..100_000 {
        state ^= state >> 12;
        state ^= state << 25;
        state ^= state >> 27;
        let random = state.wrapping_mul(0x2545_F491_4F6C_DD1D);

        let sequence = random as u16;
        let ack = (random >> 16) as u16;
        let ack_bits = (random >> 32) as u32;

        let bytes_written = write_packet_header(&mut packet_data, sequence, ack, ack_bits);
        let header = read_packet_header(&packet_data[..bytes_written])
            .expect("roundtrip: read packet header");
        assert_eq!(header.bytes, bytes_written);
        assert_eq!(header.sequence, sequence);
        assert_eq!(header.ack, ack);
        assert_eq!(header.ack_bits, ack_bits);
    }
}

#[test]
fn packet_header() {
    let mut packet_data = [0u8; MAX_PACKET_HEADER_BYTES];

    // worst case, sequence and ack are far apart, no packets acked

    let write_sequence = 10000;
    let write_ack = 100;
    let write_ack_bits = 0;

    let bytes_written =
        write_packet_header(&mut packet_data, write_sequence, write_ack, write_ack_bits);
    assert_eq!(bytes_written, MAX_PACKET_HEADER_BYTES);

    let header = read_packet_header(&packet_data[..bytes_written]).expect("read packet header");
    assert_eq!(header.bytes, bytes_written);
    assert_eq!(header.sequence, write_sequence);
    assert_eq!(header.ack, write_ack);
    assert_eq!(header.ack_bits, write_ack_bits);

    // rare case. sequence and ack are far apart, significant # of acks are missing

    let write_sequence = 10000;
    let write_ack = 100;
    let write_ack_bits = 0xFEFE_FFFE;

    let bytes_written =
        write_packet_header(&mut packet_data, write_sequence, write_ack, write_ack_bits);
    assert_eq!(bytes_written, 1 + 2 + 2 + 3);

    let header = read_packet_header(&packet_data[..bytes_written]).expect("read packet header");
    assert_eq!(header.bytes, bytes_written);
    assert_eq!(header.sequence, write_sequence);
    assert_eq!(header.ack, write_ack);
    assert_eq!(header.ack_bits, write_ack_bits);

    // common case under packet loss. sequence and ack are close together, some acks are missing

    let write_sequence = 200;
    let write_ack = 100;
    let write_ack_bits = 0xFFFE_FFFF;

    let bytes_written =
        write_packet_header(&mut packet_data, write_sequence, write_ack, write_ack_bits);
    assert_eq!(bytes_written, 1 + 2 + 1 + 1);

    let header = read_packet_header(&packet_data[..bytes_written]).expect("read packet header");
    assert_eq!(header.bytes, bytes_written);
    assert_eq!(header.sequence, write_sequence);
    assert_eq!(header.ack, write_ack);
    assert_eq!(header.ack_bits, write_ack_bits);

    // ideal case. no packet loss

    let write_sequence = 200;
    let write_ack = 100;
    let write_ack_bits = 0xFFFF_FFFF;

    let bytes_written =
        write_packet_header(&mut packet_data, write_sequence, write_ack, write_ack_bits);
    assert_eq!(bytes_written, 1 + 2 + 1);

    let header = read_packet_header(&packet_data[..bytes_written]).expect("read packet header");
    assert_eq!(header.bytes, bytes_written);
    assert_eq!(header.sequence, write_sequence);
    assert_eq!(header.ack, write_ack);
    assert_eq!(header.ack_bits, write_ack_bits);
}

#[test]
fn packet_header_bytes_on_the_wire() {
    let mut packet_data = [0xAAu8; 12];

    // every byte of the ack bits is sent, and the ack as two bytes
    let bytes = write_packet_header(&mut packet_data, 0x1234, 0x5678, 0x0403_0201);
    assert_eq!(bytes, 9);
    assert_eq!(
        packet_data,
        [0b0001_1110, 0x34, 0x12, 0x78, 0x56, 1, 2, 3, 4, 0xAA, 0xAA, 0xAA]
    );

    // the ack as an offset across the wrap-around, and only the second byte of the ack bits
    let mut packet_data = [0xAAu8; 6];
    let bytes = write_packet_header(&mut packet_data, 2, 0xFFFE, 0xFFFF_7FFF);
    assert_eq!(bytes, 5);
    assert_eq!(packet_data, [0b0010_0100, 2, 0, 4, 0x7F, 0xAA]);
}

#[test]
fn packet_header_too_short() {
    let mut packet_data = [0u8; MAX_PACKET_HEADER_BYTES];
    let bytes = write_packet_header(&mut packet_data, 10000, 100, 0);
    for length in 0..bytes {
        assert!(read_packet_header(&packet_data[..length]).is_none());
    }
    assert!(read_packet_header(&packet_data[..bytes]).is_some());

    // the prefix byte of a fragment is refused
    packet_data[0] |= 1;
    assert!(read_packet_header(&packet_data).is_none());
}

/// The datagram of a fragment: its header, then the packet header if it is the first.
fn fragment(sequence: u16, id: u8, count_minus_one: u8, header: &[u8], body: usize) -> Vec<u8> {
    let mut data = vec![1, (sequence & 0xFF) as u8, (sequence >> 8) as u8, id, count_minus_one];
    data.extend_from_slice(header);
    data.extend(vec![7u8; body]);
    data
}

#[test]
fn fragment_header_is_read() {
    let mut header = [0u8; MAX_PACKET_HEADER_BYTES];
    let bytes = write_packet_header(&mut header, 300, 299, 0xFFFF_FFFE);
    let header = &header[..bytes];

    let first = read_fragment_header(&fragment(300, 0, 2, header, 100), 16, 100).expect("first");
    assert_eq!(first.bytes, FRAGMENT_HEADER_BYTES);
    assert_eq!(first.fragment_id, 0);
    assert_eq!(first.num_fragments, 3);
    assert_eq!(first.sequence, 300);
    assert_eq!(first.ack, 299);
    assert_eq!(first.ack_bits, 0xFFFF_FFFE);

    let second = read_fragment_header(&fragment(300, 1, 2, &[], 100), 16, 100).expect("second");
    assert_eq!(second.fragment_id, 1);
    assert_eq!(second.ack, 0);
    assert_eq!(second.ack_bits, 0);

    let last = read_fragment_header(&fragment(300, 2, 2, &[], 1), 16, 100).expect("last");
    assert_eq!(last.fragment_id, 2);
    assert_eq!(last.num_fragments, 3);
}

#[test]
fn fragment_header_is_refused() {
    let mut header = [0u8; MAX_PACKET_HEADER_BYTES];
    let bytes = write_packet_header(&mut header, 300, 299, 0xFFFF_FFFE);
    let header = &header[..bytes];

    // too short for a header, or not a fragment
    assert!(read_fragment_header(&[1, 0, 0, 0], 16, 100).is_none());
    let mut data = fragment(300, 1, 2, &[], 100);
    data[0] = 3;
    assert!(read_fragment_header(&data, 16, 100).is_none());

    // more fragments than allowed, or a fragment past the last one
    assert!(read_fragment_header(&fragment(300, 1, 16, &[], 100), 16, 100).is_none());
    assert!(read_fragment_header(&fragment(300, 3, 2, &[], 100), 16, 100).is_none());

    // no packet header, one for another packet, or one that is not written canonically
    assert!(read_fragment_header(&fragment(300, 0, 2, &[1, 2], 0), 16, 100).is_none());
    assert!(read_fragment_header(&fragment(301, 0, 2, header, 100), 16, 100).is_none());
    let non_canonical = [0b0010_0010, 44, 1, 1, 0xFF];
    assert!(read_packet_header(&non_canonical).is_some());
    assert!(read_fragment_header(&fragment(300, 0, 2, &non_canonical, 100), 16, 100).is_none());

    // only the last fragment may be short, and none may be long
    assert!(read_fragment_header(&fragment(300, 1, 2, &[], 99), 16, 100).is_none());
    assert!(read_fragment_header(&fragment(300, 1, 2, &[], 101), 16, 100).is_none());
    assert!(read_fragment_header(&fragment(300, 2, 2, &[], 101), 16, 100).is_none());
}
