use reliable::model::total_bytes;
use reliable::packet::read_packet_header;
use reliable::reassembly::FragmentReassemblyData;
use reliable::sequence_buffer::SequenceBuffer;
use reliable::{sequence_greater_than, sequence_less_than, Config, Counters, Endpoint};

fn endpoint(config: Config) -> Endpoint<f64> {
    assert!(config.is_valid());
    Endpoint::new(config, 0.0)
}

fn small_fragments() -> Config {
    Config {
        max_packet_size: 1000,
        fragment_above: 100,
        fragment_size: 100,
        max_fragments: 10,
        ..Config::default()
    }
}

fn pattern(bytes: usize) -> Vec<u8> {
    (0..bytes).map(|i| (i * 7 % 251) as u8).collect()
}

/// Receives a datagram, and returns what is handed out.
fn receive(endpoint: &mut Endpoint<f64>, datagram: &[u8], accept: bool) -> Option<(u16, Vec<u8>)> {
    let mut handed = None;
    endpoint.receive_packet(datagram, |sequence, data| {
        handed = Some((sequence, data.to_vec()));
        accept
    });
    handed
}

#[test]
fn order_is_total_and_wraps() {
    for (a, b) in [(0u16, 1u16), (65535, 0), (32767, 32768), (100, 32867), (0, 32767)] {
        assert!(sequence_greater_than(b, a));
        assert!(!sequence_greater_than(a, b));
        assert!(sequence_less_than(a, b));
        assert!(!sequence_greater_than(a, a));
    }
    // exactly half the circle apart, the larger number is the newer
    assert!(sequence_greater_than(32768, 0));
    assert!(!sequence_greater_than(0, 32768));
}

#[test]
fn packet_arrives_as_it_was_sent() {
    let mut sender = endpoint(Config::default());
    let mut receiver = endpoint(Config::default());
    for bytes in [1usize, 2, 8, 1023, 1024] {
        let data = pattern(bytes);
        let sequence = sender.next_packet_sequence();
        let datagrams = sender.send_packet(&data);
        assert_eq!(datagrams.len(), 1);
        assert!(datagrams[0].len() > bytes && datagrams[0].len() <= bytes + 9);
        assert_eq!(receive(&mut receiver, &datagrams[0], true), Some((sequence, data)));
    }
    assert_eq!(sender.counters().num_packets_sent, 5);
    assert_eq!(receiver.counters().num_packets_received, 5);
}

#[test]
fn first_packet_on_the_wire() {
    let mut sender = endpoint(Config::default());
    let datagrams = sender.send_packet(&[7, 8, 9]);
    assert_eq!(datagrams, vec![vec![62, 0, 0, 1, 0, 0, 0, 0, 7, 8, 9]]);
    let datagrams = sender.send_packet(&[7]);
    assert_eq!(datagrams, vec![vec![62, 1, 0, 2, 0, 0, 0, 0, 7]]);
}

#[test]
fn fragments_on_the_wire() {
    let mut sender = endpoint(Config {
        max_packet_size: 8,
        fragment_above: 2,
        fragment_size: 3,
        max_fragments: 3,
        ..Config::default()
    });
    let datagrams = sender.send_packet(&[10, 11, 12, 13, 14, 15, 16]);
    assert_eq!(
        datagrams,
        vec![
            vec![1, 0, 0, 0, 2, 62, 0, 0, 1, 0, 0, 0, 0, 10, 11, 12],
            vec![1, 0, 0, 1, 2, 13, 14, 15],
            vec![1, 0, 0, 2, 2, 16],
        ]
    );
    assert_eq!(sender.counters().num_fragments_sent, 3);
    assert_eq!(sender.counters().num_packets_sent, 1);
}

#[test]
fn fragments_arrive_in_any_order() {
    let data = pattern(250);
    let orders: [&[usize]; 6] = [
        &[0, 1, 2],
        &[2, 1, 0],
        &[1, 2, 0],
        &[1, 1, 2, 1, 2, 0],
        &[0, 2, 0, 1, 1, 2, 0],
        &[2, 0, 1, 2],
    ];
    for order in orders {
        let mut sender = endpoint(small_fragments());
        let mut receiver = endpoint(small_fragments());
        let datagrams = sender.send_packet(&data);
        assert_eq!(datagrams.len(), 3);
        let delivered: Vec<(u16, Vec<u8>)> = order
            .iter()
            .filter_map(|&i| receive(&mut receiver, &datagrams[i], true))
            .collect();
        assert_eq!(delivered, vec![(0, data.clone())]);
        assert!(!receiver.fragment_reassembly().contains(0));
        assert_eq!(receiver.counters().num_fragments_received, 3);
        assert_eq!(receiver.counters().num_packets_received, 1);
    }
}

#[test]
fn missing_fragment_means_no_packet() {
    let mut sender = endpoint(small_fragments());
    let mut receiver = endpoint(small_fragments());
    let datagrams = sender.send_packet(&pattern(250));
    for i in [0, 1, 0, 1] {
        assert_eq!(receive(&mut receiver, &datagrams[i], true), None);
    }
    assert!(receiver.fragment_reassembly().contains(0));
    let entry = receiver.fragment_reassembly().find(0).unwrap();
    assert_eq!(entry.num_fragments_received, 2);
    assert_eq!(entry.num_fragments_total, 3);
}

#[test]
fn reassemblies_are_independent() {
    let mut sender = endpoint(small_fragments());
    let mut receiver = endpoint(small_fragments());
    let first = pattern(150);
    let second = pattern(199);
    let a = sender.send_packet(&first);
    let b = sender.send_packet(&second);
    assert_eq!(receive(&mut receiver, &b[1], true), None);
    assert_eq!(receive(&mut receiver, &a[1], true), None);
    assert_eq!(receive(&mut receiver, &b[0], true), Some((1, second)));
    assert_eq!(receive(&mut receiver, &a[0], true), Some((0, first)));
}

#[test]
fn datagrams_fit_the_receive_limit() {
    let mut sender = endpoint(small_fragments());
    for bytes in [1, 100, 101, 200, 201, 999, 1000] {
        let datagrams = sender.send_packet(&pattern(bytes));
        assert!(datagrams.len() <= 10);
        for datagram in datagrams {
            assert!(!datagram.is_empty() && datagram.len() <= 1000 + 14);
        }
    }
}

#[test]
fn delivered_at_most_once() {
    let mut sender = endpoint(Config::default());
    let mut receiver = endpoint(Config::default());
    let first = sender.send_packet(&[1])[0].clone();
    assert!(receive(&mut receiver, &first, true).is_some());
    assert!(receive(&mut receiver, &first, true).is_none());
    assert_eq!(receiver.counters().num_packets_duplicate, 1);
    for _ in 0..300 {
        for datagram in sender.send_packet(&[2]) {
            assert!(receive(&mut receiver, &datagram, true).is_some());
        }
        assert!(receive(&mut receiver, &first, true).is_none());
    }
    // a duplicate while it is one of the last 256 packets, stale after that
    assert_eq!(receiver.counters().num_packets_duplicate, 1 + 255);
    assert_eq!(receiver.counters().num_packets_stale, 45);
}

#[test]
fn stale_exactly_outside_the_window() {
    let mut buffer: SequenceBuffer<u32> = SequenceBuffer::new(100);
    *buffer.insert(999).unwrap() = 1;
    assert_eq!(buffer.sequence(), 1000);
    for s in 900..1000 {
        assert!(buffer.can_insert(s));
    }
    for s in [899u16, 898, 500, 0] {
        assert!(!buffer.can_insert(s));
    }
    // ahead of the window, up to where a number could as well be behind
    assert!(buffer.can_insert(1000));
    assert!(buffer.can_insert(1000 + 32768 - 100 - 1));
    assert!(!buffer.can_insert(1000 + 32768 - 100 + 1));
}

#[test]
fn buffer_is_bounded() {
    let mut buffer: SequenceBuffer<u32> = SequenceBuffer::new(7);
    for s in 0..1000u16 {
        *buffer.insert(s).unwrap() = u32::from(s);
    }
    let mut found = 0;
    for s in 0..1000u16 {
        if buffer.contains(s) {
            found += 1;
            assert!(s >= 993);
            assert_eq!(buffer.find(s), Some(&u32::from(s)));
        }
    }
    assert_eq!(found, 7);
}

#[test]
fn window_survives_the_wrap_around() {
    let mut buffer: SequenceBuffer<u32> = SequenceBuffer::new(64);
    for i in 0..40u16 {
        buffer.insert(65516u16.wrapping_add(i)).unwrap();
    }
    for i in 0..40u16 {
        assert!(buffer.contains(65516u16.wrapping_add(i)));
    }
    assert_eq!(buffer.sequence(), 20);
}

#[test]
fn ack_bits_tell_what_was_received() {
    let mut buffer: SequenceBuffer<u32> = SequenceBuffer::new(256);
    for s in [65530u16, 65535, 0, 3, 4] {
        buffer.insert(s).unwrap();
    }
    let (ack, ack_bits) = buffer.generate_ack_bits();
    assert_eq!(ack, 4);
    for i in 0..32u16 {
        assert_eq!(ack_bits >> i & 1 == 1, buffer.contains(4u16.wrapping_sub(i)));
    }
    assert_eq!(ack_bits, 0b100_0011_0011);
}

#[test]
fn round_trip_is_acked() {
    let mut sender = endpoint(Config::default());
    let mut receiver = endpoint(Config::default());
    sender.update(1.0);
    let sequence = sender.next_packet_sequence();
    for datagram in sender.send_packet(&pattern(5000)) {
        receive(&mut receiver, &datagram, true);
    }
    assert!(sender.acks().is_empty());
    sender.update(3.5);
    for datagram in receiver.send_packet(&pattern(3000)) {
        receive(&mut sender, &datagram, true);
    }
    assert_eq!(sender.acks(), &[sequence]);
    assert_eq!(sender.counters().num_packets_acked, 1);
    assert_eq!(sender.ack_samples().len(), 1);
    assert_eq!(sender.ack_samples()[0].sent, 1.0);
    assert_eq!(sender.ack_samples()[0].acked, 3.5);
    let sample = sender.rtt_history()[0].unwrap();
    assert_eq!((sample.sent, sample.acked), (1.0, 3.5));
    assert!(sender.rtt_history()[1].is_none());
}

#[test]
fn acked_at_most_once() {
    let mut sender = endpoint(Config::default());
    let mut receiver = endpoint(Config::default());
    for datagram in sender.send_packet(&[1]) {
        receive(&mut receiver, &datagram, true);
    }
    let mut acks = Vec::new();
    for _ in 0..40 {
        for datagram in receiver.send_packet(&[2]) {
            receive(&mut sender, &datagram, true);
        }
        acks.extend(sender.drain_acks());
        assert!(sender.acks().is_empty());
    }
    assert_eq!(acks, vec![0]);
}

#[test]
fn only_what_was_received_is_acked() {
    let mut sender = endpoint(Config::default());
    let mut receiver = endpoint(Config::default());
    for i in 0..20 {
        for datagram in sender.send_packet(&[1]) {
            if i % 3 == 0 {
                // rejected packets are not acked
                receive(&mut receiver, &datagram, i % 2 == 0);
            }
        }
    }
    for datagram in receiver.send_packet(&[2]) {
        receive(&mut sender, &datagram, true);
    }
    assert_eq!(sender.acks(), &[18, 12, 6, 0]);
}

#[test]
fn received_packet_is_acked_for_32_packets() {
    for extra in [31u16, 32] {
        let mut sender = endpoint(Config::default());
        let mut receiver = endpoint(Config::default());
        for _ in 0..=extra {
            for datagram in sender.send_packet(&[1]) {
                receive(&mut receiver, &datagram, true);
            }
        }
        for datagram in receiver.send_packet(&[2]) {
            receive(&mut sender, &datagram, true);
        }
        assert_eq!(sender.acks().contains(&0), extra == 31);
        assert_eq!(sender.acks().len(), 32);
    }
}

#[test]
fn ack_that_was_left_out_is_reported_later() {
    let config = Config { ack_buffer_size: 2, ..Config::default() };
    let mut sender = endpoint(config);
    let mut receiver = endpoint(Config::default());
    for _ in 0..3 {
        for datagram in sender.send_packet(&[1]) {
            receive(&mut receiver, &datagram, true);
        }
    }
    for datagram in receiver.send_packet(&[2]) {
        receive(&mut sender, &datagram, true);
    }
    assert_eq!(sender.drain_acks(), vec![2, 1]);
    for datagram in receiver.send_packet(&[2]) {
        receive(&mut sender, &datagram, true);
    }
    assert_eq!(sender.drain_acks(), vec![0]);
    assert_eq!(sender.counters().num_packets_acked, 3);
}

#[test]
fn rejected_packet_may_come_again() {
    let mut sender = endpoint(small_fragments());
    let mut receiver = endpoint(small_fragments());
    let whole = sender.send_packet(&[1, 2, 3])[0].clone();
    assert_eq!(receive(&mut receiver, &whole, false), Some((0, vec![1, 2, 3])));
    assert_eq!(receive(&mut receiver, &whole, false), Some((0, vec![1, 2, 3])));
    assert_eq!(receive(&mut receiver, &whole, true), Some((0, vec![1, 2, 3])));
    assert_eq!(receive(&mut receiver, &whole, true), None);

    let data = pattern(150);
    let fragments = sender.send_packet(&data);
    assert_eq!(receive(&mut receiver, &fragments[0], false), None);
    assert_eq!(receive(&mut receiver, &fragments[1], false), Some((1, data.clone())));
    assert!(!receiver.fragment_reassembly().contains(1));
    assert_eq!(receive(&mut receiver, &fragments[1], true), None);
    assert_eq!(receive(&mut receiver, &fragments[0], true), Some((1, data)));
}

#[test]
fn every_drop_is_counted() {
    let mut sender = endpoint(small_fragments());
    let mut receiver = endpoint(small_fragments());
    assert!(sender.send_packet(&pattern(1001)).is_empty());
    assert_eq!(sender.counters().num_packets_too_large_to_send, 1);
    assert_eq!(sender.counters().num_packets_sent, 0);
    assert_eq!(sender.next_packet_sequence(), 0);

    // longer than any datagram may be
    assert!(receive(&mut receiver, &[0; 1015], true).is_none());
    assert_eq!(receiver.counters().num_packets_too_large_to_receive, 1);
    assert_eq!(receiver.counters().num_packets_received, 0);

    // not longer than a datagram may be, but with too large a payload
    let mut long = vec![32u8, 0, 0, 0];
    long.extend(pattern(1001));
    assert!(receive(&mut receiver, &long, true).is_none());
    assert_eq!(receiver.counters().num_packets_too_large_to_receive, 2);
    assert_eq!(receiver.counters().num_packets_received, 1);

    // no header
    assert!(receive(&mut receiver, &[0], true).is_none());
    assert!(receive(&mut receiver, &[62, 0, 0, 1], true).is_none());
    assert_eq!(receiver.counters().num_packets_invalid, 2);

    // a fragment that cannot be read
    assert!(receive(&mut receiver, &[1, 0, 0, 0], true).is_none());
    // more fragments than allowed, and one beyond the last
    assert!(receive(&mut receiver, &[1, 0, 0, 1, 10, 5], true).is_none());
    assert!(receive(&mut receiver, &[1, 0, 0, 3, 2, 5], true).is_none());
    assert_eq!(receiver.counters().num_fragments_invalid, 3);
    // another number of fragments than before
    let last = [1u8, 9, 0, 2, 2, 5];
    assert!(receive(&mut receiver, &last, true).is_none());
    assert_eq!(receiver.counters().num_fragments_received, 1);
    assert!(receive(&mut receiver, &[1, 9, 0, 3, 3, 5], true).is_none());
    assert_eq!(receiver.counters().num_fragments_invalid, 4);
    // the same fragment again
    assert!(receive(&mut receiver, &last, true).is_none());
    assert_eq!(receiver.counters().num_fragments_invalid, 4);
    assert_eq!(receiver.counters().num_fragments_received, 1);

    // an empty packet under 65000 is stale once 9 is there
    assert!(receive(&mut receiver, &[32, 0xE8, 0xFD, 0], true).is_none());
    assert_eq!(receiver.counters().num_packets_invalid, 2);
    assert_eq!(receiver.counters().num_packets_stale, 1);
}

#[test]
fn fragment_of_a_stale_packet_is_invalid() {
    let mut receiver = endpoint(small_fragments());
    assert!(receive(&mut receiver, &[1, 232, 3, 1, 1, 5], true).is_none());
    assert_eq!(receiver.counters().num_fragments_received, 1);
    // 64 packets can be under reassembly
    assert!(receive(&mut receiver, &[1, 232 - 63, 3, 1, 1, 5], true).is_none());
    assert_eq!(receiver.counters().num_fragments_received, 2);
    assert!(receive(&mut receiver, &[1, 232 - 64, 3, 1, 1, 5], true).is_none());
    assert_eq!(receiver.counters().num_fragments_received, 2);
    assert_eq!(receiver.counters().num_fragments_invalid, 1);
}

#[test]
fn opening_and_accepting_are_two_steps() {
    let mut sender = endpoint(Config::default());
    let mut receiver = endpoint(Config::default());
    let datagram = sender.send_packet(&[4, 5])[0].clone();
    let delivery = receiver.open_packet(&datagram).unwrap();
    assert_eq!(delivery.sequence, 0);
    assert_eq!(delivery.ack, 65535);
    assert_eq!(delivery.ack_bits, 0);
    assert_eq!(delivery.packet_bytes, 10);
    assert_eq!(delivery.payload, vec![4, 5]);
    receiver.accept_packet(&delivery);
    assert!(receiver.open_packet(&datagram).is_none());
}

#[test]
fn packets_can_always_be_sent() {
    let config = Config { sent_packets_buffer_size: 0x7FFF, ..Config::default() };
    let mut sender = endpoint(config);
    for _ in 0..70000 {
        assert!(sender.can_send());
        assert_eq!(sender.send_packet(&[1]).len(), 1);
    }
    let config = Config { sent_packets_buffer_size: 40000, ..Config::default() };
    assert!(!endpoint(config).can_send());
}

#[test]
fn reset_starts_over() {
    let mut sender = endpoint(small_fragments());
    let mut receiver = endpoint(small_fragments());
    for datagram in sender.send_packet(&[1]) {
        receive(&mut receiver, &datagram, true);
    }
    let fragments = sender.send_packet(&pattern(150));
    receive(&mut receiver, &fragments[0], true);
    for datagram in receiver.send_packet(&[1]) {
        receive(&mut sender, &datagram, true);
    }
    assert_eq!(sender.acks(), &[0]);
    sender.reset();
    receiver.reset();
    assert!(sender.acks().is_empty());
    assert!(sender.ack_samples().is_empty());
    assert!(sender.rtt_history().iter().all(|sample| sample.is_none()));
    assert_eq!(sender.next_packet_sequence(), 0);
    assert_eq!(*sender.counters(), Counters::default());
    assert_eq!(sender.packet_loss_counts(), (0, 0));
    assert!(!receiver.fragment_reassembly().contains(1));
    let datagrams = sender.send_packet(&[9]);
    assert_eq!(datagrams, vec![vec![62, 0, 0, 1, 0, 0, 0, 0, 9]]);
    assert_eq!(receive(&mut receiver, &datagrams[0], true), Some((0, vec![9])));
}

#[test]
fn statistics_look_at_the_oldest_half() {
    let config = Config {
        sent_packets_buffer_size: 8,
        received_packets_buffer_size: 8,
        ..Config::default()
    };
    let mut sender = endpoint(config.clone());
    let mut receiver = endpoint(config);
    for i in 0..8u32 {
        sender.update(f64::from(i));
        receiver.update(f64::from(i) + 0.5);
        for datagram in sender.send_packet(&pattern(10 + i as usize)) {
            if i % 4 != 3 {
                receive(&mut receiver, &datagram, true);
            }
        }
    }
    assert_eq!(sender.packet_loss_counts(), (4, 4));
    for datagram in receiver.send_packet(&[1]) {
        receive(&mut sender, &datagram, true);
    }
    assert_eq!(sender.acks(), &[6, 5, 4, 2, 1, 0]);
    assert_eq!(sender.packet_loss_counts(), (4, 1));

    let sent = sender.sent_bandwidth_samples();
    assert_eq!(sent.iter().map(|s| s.time).collect::<Vec<f64>>(), vec![0.0, 1.0, 2.0, 3.0]);
    assert_eq!(sent.iter().map(|s| s.packet_bytes).collect::<Vec<u32>>(), vec![38, 39, 40, 41]);
    assert_eq!(total_bytes(&sent), 158);
    let acked = sender.acked_bandwidth_samples();
    assert_eq!(acked.iter().map(|s| s.time).collect::<Vec<f64>>(), vec![0.0, 1.0, 2.0]);
    assert_eq!(total_bytes(&acked), 117);

    // the receiver has seen up to 6: its window is -1 ..= 6, of which the oldest half is -1 ..= 2
    let received = receiver.received_bandwidth_samples();
    assert_eq!(received.iter().map(|s| s.time).collect::<Vec<f64>>(), vec![0.5, 1.5, 2.5]);
    // 28 bytes below this layer, 8 bytes of header, and the payload
    assert_eq!(received.iter().map(|s| s.packet_bytes).collect::<Vec<u32>>(), vec![46, 47, 48]);
    assert_eq!(total_bytes(&received), 141);
    assert_eq!(total_bytes::<f64>(&[]), 0);
}

#[test]
fn counters_have_room() {
    assert!(Counters::default().has_room());
    let mut counters = Counters::default();
    counters.num_packets_stale = u64::MAX - 1;
    assert!(counters.has_room());
    counters.num_packets_stale += 1;
    assert!(!counters.has_room());
    let mut counters = Counters::default();
    counters.num_packets_acked = u64::MAX - 32;
    counters.num_fragments_sent = u64::MAX - 256;
    assert!(counters.has_room());
    counters.num_fragments_sent += 1;
    assert!(!counters.has_room());
}

#[test]
fn reassembly_is_bounded() {
    let mut receiver = endpoint(small_fragments());
    for s in 0..1000u16 {
        let [low, high] = s.to_le_bytes();
        let mut fragment = vec![1, low, high, 1, 9];
        fragment.extend(pattern(100));
        assert!(receive(&mut receiver, &fragment, true).is_none());
    }
    assert_eq!(receiver.counters().num_fragments_received, 1000);
    let buffer = receiver.fragment_reassembly();
    assert_eq!(buffer.num_entries(), 64);
    for index in 0..64 {
        let (sequence, entry) = buffer.raw_entry(index);
        assert!(sequence.unwrap() >= 1000 - 64);
        assert_eq!(entry.num_fragments_total, 10);
        assert_eq!(entry.packet_data.len(), 9 + 10 * 100);
    }
}

#[test]
fn others_leave_the_packet_alone() {
    let mut sender = endpoint(small_fragments());
    let mut receiver = endpoint(small_fragments());
    let data = pattern(350);
    let fragments = sender.send_packet(&data);
    assert_eq!(fragments.len(), 4);
    for (i, fragment) in fragments.iter().enumerate() {
        let handed = receive(&mut receiver, fragment, true);
        if i == 3 {
            assert_eq!(handed, Some((0, data.clone())));
        } else {
            assert_eq!(handed, None);
        }
        // accepted, rejected, and lost
        for accept in [true, false] {
            for datagram in sender.send_packet(&pattern(50 + i)) {
                assert!(receive(&mut receiver, &datagram, accept).is_some());
            }
        }
        let other = sender.send_packet(&pattern(120 + i));
        assert!(receive(&mut receiver, &other[1], true).is_none());
    }
}

#[test]
fn packet_falls_out_of_the_reassembly_window() {
    let mut sender = endpoint(small_fragments());
    let mut receiver = endpoint(small_fragments());
    let fragments = sender.send_packet(&pattern(150));
    assert!(receive(&mut receiver, &fragments[0], true).is_none());
    for i in 1..=64u16 {
        assert!(receiver.fragment_reassembly().contains(0));
        for datagram in sender.send_packet(&[1]) {
            assert_eq!(receive(&mut receiver, &datagram, true), Some((i, vec![1])));
        }
    }
    assert!(!receiver.fragment_reassembly().contains(0));
    assert!(receive(&mut receiver, &fragments[1], true).is_none());
    assert_eq!(receiver.counters().num_fragments_invalid, 1);
}

#[test]
fn half_way_around_a_single_entry() {
    let mut buffer: SequenceBuffer<u32> = SequenceBuffer::new(1);
    buffer.insert(0x4000).unwrap();
    buffer.insert(0x7FFF).unwrap();
    assert_eq!(buffer.sequence(), 0x8000);
    assert!(buffer.can_insert(0xFFFF));
    buffer.insert(0xFFFF).unwrap();
    assert_eq!(buffer.sequence(), 0x8000);
    assert!(!buffer.contains(0x7FFF));
    // with two entries it is stale
    let mut buffer: SequenceBuffer<u32> = SequenceBuffer::new(2);
    buffer.insert(0x4000).unwrap();
    buffer.insert(0x7FFF).unwrap();
    assert!(!buffer.can_insert(0xFFFF));
}

#[test]
fn slots_break_off_at_the_wrap_around() {
    // 65536 is no multiple of 100: past the wrap-around two numbers of one window can share
    // a slot
    let mut buffer: SequenceBuffer<u32> = SequenceBuffer::new(100);
    for i in 0..80u16 {
        buffer.insert(65500u16.wrapping_add(i)).unwrap();
    }
    assert_eq!(buffer.sequence(), 44);
    assert!(buffer.can_insert(65500));
    assert!(!buffer.contains(65500));
    assert!(buffer.contains(43));
    // with 128 slots they do not
    let mut buffer: SequenceBuffer<u32> = SequenceBuffer::new(128);
    for i in 0..80u16 {
        buffer.insert(65500u16.wrapping_add(i)).unwrap();
    }
    for i in 0..80u16 {
        assert!(buffer.contains(65500u16.wrapping_add(i)));
    }
}

/// A packet in one piece under the given number, as it looks on the wire.
fn whole(sequence: u16, payload: &[u8]) -> Vec<u8> {
    let [low, high] = sequence.to_le_bytes();
    let mut datagram = vec![32, low, high, 0];
    datagram.extend(payload);
    datagram
}

#[test]
fn advance_drops_what_is_out_of_the_window_past_the_wrap_around() {
    let mut buffer: SequenceBuffer<u32> = SequenceBuffer::new(3);
    *buffer.insert(65534).unwrap() = 7;
    buffer.advance(0);
    assert_eq!(buffer.sequence(), 1);
    assert!(buffer.can_insert(65534));
    assert_eq!(buffer.find(65534), Some(&7));
    buffer.advance(1);
    assert_eq!(buffer.sequence(), 2);
    assert!(!buffer.can_insert(65534));
    assert!(!buffer.contains(65534));
}

#[test]
fn large_buffer_drops_what_is_passed_over() {
    let mut buffer: SequenceBuffer<u32> = SequenceBuffer::new(65536);
    buffer.insert_advance_first(5).unwrap();
    buffer.advance(30000);
    assert!(buffer.contains(5));
    buffer.advance(60000);
    assert!(buffer.contains(5));
    // the numbers up to 10 come in again
    buffer.advance(10);
    assert!(!buffer.contains(5));
    let mut buffer: SequenceBuffer<u32> = SequenceBuffer::new(40000);
    buffer.insert_advance_first(20000).unwrap();
    buffer.advance(50000);
    assert!(buffer.contains(20000));
    buffer.advance(10000);
    assert!(!buffer.contains(20000));
}

#[test]
fn duplicate_is_dropped_though_its_slot_was_taken() {
    let config = Config { received_packets_buffer_size: 3, ..Config::default() };
    let mut receiver = endpoint(config);
    assert!(receive(&mut receiver, &whole(65535, &[1]), true).is_some());
    assert!(receive(&mut receiver, &whole(0, &[2]), true).is_some());
    assert!(receive(&mut receiver, &whole(65535, &[1]), true).is_none());
    assert_eq!(receiver.counters().num_packets_stale, 1);
    assert!(receive(&mut receiver, &whole(0, &[2]), true).is_none());
    assert_eq!(receiver.counters().num_packets_duplicate, 1);
}

#[test]
fn single_packet_window_drops_what_is_half_way_around() {
    let config = Config { received_packets_buffer_size: 1, ..Config::default() };
    let mut receiver = endpoint(config);
    assert!(receive(&mut receiver, &whole(0x4000, &[1]), true).is_some());
    assert!(receive(&mut receiver, &whole(0x7FFF, &[2]), true).is_some());
    assert!(receive(&mut receiver, &whole(0xFFFF, &[3]), true).is_none());
    assert_eq!(receiver.counters().num_packets_stale, 1);
    assert!(receive(&mut receiver, &whole(0x7FFF, &[2]), true).is_none());
    assert_eq!(receiver.counters().num_packets_duplicate, 1);
}

#[test]
fn stale_numbers_of_a_buffer() {
    let mut buffer: SequenceBuffer<u32> = SequenceBuffer::new(3);
    buffer.insert(65535).unwrap();
    assert!(!buffer.is_stale(65534));
    assert!(!buffer.is_stale(65535));
    buffer.insert(0).unwrap();
    // 0 has the slot of 65535
    assert!(buffer.can_insert(65535));
    assert!(buffer.is_stale(65535));
    assert!(!buffer.is_stale(0));
    assert!(!buffer.is_stale(1));
    assert!(buffer.is_stale(65533));
}

#[test]
fn process_is_called_once_for_each_packet() {
    let mut sender = endpoint(Config::default());
    let mut receiver = endpoint(Config::default());
    let mut calls = 0;
    let mut first = Vec::new();
    for i in 0..300 {
        for datagram in sender.send_packet(&[0; 8]) {
            for _ in 0..2 {
                receiver.receive_packet(&datagram, |_, _| {
                    calls += 1;
                    true
                });
            }
            if i == 0 {
                first = datagram;
            }
        }
    }
    assert_eq!(calls, 300);
    assert_eq!(receiver.counters().num_packets_received, 600);
    assert_eq!(receiver.counters().num_packets_duplicate, 300);
    receiver.receive_packet(&first, |_, _| {
        calls += 1;
        true
    });
    assert_eq!(calls, 300);
    assert_eq!(receiver.counters().num_packets_stale, 1);
}

#[test]
fn dropped_acks_are_told() {
    let mut sender = endpoint(Config { ack_buffer_size: 2, ..Config::default() });
    let mut receiver = endpoint(Config::default());
    for _ in 0..5 {
        for datagram in sender.send_packet(&[1]) {
            receive(&mut receiver, &datagram, true);
        }
    }
    let reply = receiver.send_packet(&[2])[0].clone();
    let delivery = sender.open_packet(&reply).unwrap();
    assert_eq!(sender.awaiting_acks(delivery.ack, delivery.ack_bits), vec![4, 3, 2, 1, 0]);
    sender.accept_packet(&delivery);
    // the first that fit, by ascending bit
    assert_eq!(sender.acks(), &[4, 3]);
    assert_eq!(sender.counters().num_packets_acked, 2);
    assert_eq!(sender.awaiting_acks(delivery.ack, delivery.ack_bits), vec![2, 1, 0]);
}

#[test]
fn storage_order_does_not_matter() {
    let header = [62u8, 5, 0, 1, 0, 0, 0, 0];
    let chunks: [&[u8]; 3] = [&[1, 2, 3, 4], &[5, 6, 7, 8], &[9, 10]];
    for order in [[0usize, 1, 2], [2, 1, 0], [1, 0, 2], [2, 0, 1]] {
        let mut data = FragmentReassemblyData::default();
        data.start(3, 4);
        for k in order {
            let mut bytes = Vec::new();
            if k == 0 {
                bytes.extend(header);
            }
            bytes.extend(chunks[k]);
            data.store_fragment(5, 4, 0, k, 4, &bytes);
        }
        assert_eq!(data.packet_header_bytes, 8);
        assert_eq!(data.packet_bytes, 10);
        assert_eq!(data.packet_data.len(), 9 + 12);
        assert_eq!(data.packet_data[1..9], header);
        assert_eq!(data.packet_data[9..19], [1, 2, 3, 4, 5, 6, 7, 8, 9, 10]);
        assert_eq!(data.num_fragments_total, 3);
        assert_eq!(data.num_fragments_received, 0);
        assert!(data.fragment_received.iter().all(|received| !received));
    }
}

#[test]
fn first_packet_is_all_that_is_counted() {
    for bytes in [1usize, 100, 101, 350, 1000] {
        let data = pattern(bytes);
        let mut sender = endpoint(small_fragments());
        let mut receiver = endpoint(small_fragments());
        let datagrams = sender.send_packet(&data);
        let count = datagrams.len();
        for (i, datagram) in datagrams.iter().rev().enumerate() {
            let handed = receive(&mut receiver, datagram, true);
            if i == count - 1 {
                assert_eq!(handed, Some((0, data.clone())));
            } else {
                assert_eq!(handed, None);
            }
        }
        let mut expected = Counters::default();
        expected.num_packets_received = 1;
        if bytes > 100 {
            expected.num_fragments_received = count as u64;
        }
        assert_eq!(*receiver.counters(), expected);
    }
}

#[test]
fn rejected_packet_leaves_no_trace() {
    let mut sender = endpoint(Config::default());
    let mut receiver = endpoint(Config::default());
    let mut other = endpoint(Config::default());
    for datagram in sender.send_packet(&[1]) {
        assert!(receive(&mut receiver, &datagram, false).is_some());
    }
    assert_eq!(receiver.counters().num_packets_received, 1);
    assert!(receiver.acks().is_empty());
    assert_eq!(receiver.next_packet_sequence(), 0);
    assert_eq!(receiver.send_packet(&[3]), other.send_packet(&[3]));
}

#[test]
fn accepted_packets_are_acked_while_in_the_window() {
    let config = Config { received_packets_buffer_size: 16, ..Config::default() };
    let mut receiver = endpoint(config);
    for s in [65530u16, 65532, 2, 5] {
        assert!(receive(&mut receiver, &whole(s, &[1]), true).is_some());
    }
    let reply = receiver.send_packet(&[1])[0].clone();
    let header = read_packet_header(&reply).unwrap();
    assert_eq!(header.ack, 5);
    // 5, 2, 65532 and 65530
    assert_eq!(header.ack_bits, 1 | 1 << 3 | 1 << 9 | 1 << 11);
    assert!(receive(&mut receiver, &whole(11, &[1]), true).is_some());
    let reply = receiver.send_packet(&[1])[0].clone();
    let header = read_packet_header(&reply).unwrap();
    assert_eq!(header.ack, 11);
    // 65530 is 18 behind the next number, 65532 is 16 behind it
    assert_eq!(header.ack_bits, 1 | 1 << 6 | 1 << 9 | 1 << 15);
}
