#![allow(clippy::needless_range_loop)]

use reliable::{Config, Counters, Endpoint};

const TEST_ACKS_NUM_ITERATIONS: usize = 256;
const TEST_MAX_PACKET_BYTES: usize = 4 * 1024;

fn test_config(name: &str) -> Config {
    Config {
        name: name.to_string(),
        ..Config::default()
    }
}

/// Sends a packet, and hands each of its datagrams to `transmit`.
fn send(endpoint: &mut Endpoint<f64>, packet_data: &[u8], mut transmit: impl FnMut(u16, &[u8])) {
    let sequence = endpoint.next_packet_sequence();
    for datagram in endpoint.send_packet(packet_data) {
        transmit(sequence, &datagram);
    }
}

fn generate_packet_data_with_size(sequence: u16, packet_bytes: usize) -> Vec<u8> {
    assert!(packet_bytes >= 2);
    assert!(packet_bytes <= TEST_MAX_PACKET_BYTES);
    let mut packet_data = vec![0u8; packet_bytes];
    packet_data[0] = (sequence & 0xFF) as u8;
    packet_data[1] = ((sequence >> 8) & 0xFF) as u8;
    for i in 2..packet_bytes {
        packet_data[i] = ((i + sequence as usize) % 256) as u8;
    }
    packet_data
}

fn generate_packet_data(sequence: u16) -> Vec<u8> {
    let packet_bytes = (sequence as usize * 1023) % (TEST_MAX_PACKET_BYTES - 2) + 2;
    generate_packet_data_with_size(sequence, packet_bytes)
}

fn validate_packet_data(packet_data: &[u8]) {
    assert!(packet_data.len() >= 2);
    assert!(packet_data.len() <= TEST_MAX_PACKET_BYTES);
    let sequence = u16::from_le_bytes([packet_data[0], packet_data[1]]);
    assert_eq!(
        packet_data.len(),
        (sequence as usize * 1023) % (TEST_MAX_PACKET_BYTES - 2) + 2
    );
    for i in 2..packet_data.len() {
        assert_eq!(packet_data[i], ((i + sequence as usize) % 256) as u8);
    }
}

#[test]
fn acks() {
    let mut time = 100.0;

    let mut sender = Endpoint::new(test_config("sender"), time);
    let mut receiver = Endpoint::new(test_config("receiver"), time);

    let delta_time = 0.01;
    let dummy_packet = [0u8; 8];

    for _ in 0..TEST_ACKS_NUM_ITERATIONS {
        send(&mut sender, &dummy_packet, |_, data| {
            receiver.receive_packet(data, |_, _| true);
        });
        send(&mut receiver, &dummy_packet, |_, data| {
            sender.receive_packet(data, |_, _| true);
        });

        sender.update(time);
        receiver.update(time);

        time += delta_time;
    }

    let mut sender_acked_packet = [false; TEST_ACKS_NUM_ITERATIONS];
    for &ack in sender.acks() {
        if (ack as usize) < TEST_ACKS_NUM_ITERATIONS {
            sender_acked_packet[ack as usize] = true;
        }
    }
    for i in 0..TEST_ACKS_NUM_ITERATIONS / 2 {
        assert!(sender_acked_packet[i]);
    }

    let mut receiver_acked_packet = [false; TEST_ACKS_NUM_ITERATIONS];
    for &ack in receiver.acks() {
        if (ack as usize) < TEST_ACKS_NUM_ITERATIONS {
            receiver_acked_packet[ack as usize] = true;
        }
    }
    for i in 0..TEST_ACKS_NUM_ITERATIONS / 2 {
        assert!(receiver_acked_packet[i]);
    }
}

#[test]
fn acks_packet_loss() {
    let mut time = 100.0;

    let mut sender = Endpoint::new(test_config("sender"), time);
    let mut receiver = Endpoint::new(test_config("receiver"), time);

    let delta_time = 0.1;
    let dummy_packet = [0u8; 8];

    for i in 0..TEST_ACKS_NUM_ITERATIONS {
        let drop_packet = (i % 2) != 0;

        send(&mut sender, &dummy_packet, |_, data| {
            if !drop_packet {
                receiver.receive_packet(data, |_, _| true);
            }
        });
        send(&mut receiver, &dummy_packet, |_, data| {
            if !drop_packet {
                sender.receive_packet(data, |_, _| true);
            }
        });

        sender.update(time);
        receiver.update(time);

        time += delta_time;
    }

    let mut sender_acked_packet = [false; TEST_ACKS_NUM_ITERATIONS];
    for &ack in sender.acks() {
        if (ack as usize) < TEST_ACKS_NUM_ITERATIONS {
            sender_acked_packet[ack as usize] = true;
        }
    }
    for i in 0..TEST_ACKS_NUM_ITERATIONS / 2 {
        assert_eq!(sender_acked_packet[i], (i + 1) % 2 == 1);
    }

    let mut receiver_acked_packet = [false; TEST_ACKS_NUM_ITERATIONS];
    for &ack in receiver.acks() {
        if (ack as usize) < TEST_ACKS_NUM_ITERATIONS {
            receiver_acked_packet[ack as usize] = true;
        }
    }
    for i in 0..TEST_ACKS_NUM_ITERATIONS / 2 {
        assert_eq!(receiver_acked_packet[i], (i + 1) % 2 == 1);
    }
}

#[test]
fn duplicate_packets() {
    const NUM_ITERATIONS: usize = 16;

    let mut sender = Endpoint::new(test_config("sender"), 100.0);
    let mut receiver = Endpoint::new(test_config("receiver"), 100.0);

    let mut num_processed = 0;
    let dummy_packet = [0u8; 8];

    for _ in 0..NUM_ITERATIONS {
        // deliver each packet to the receiver twice, simulating duplication on the network
        send(&mut sender, &dummy_packet, |_, data| {
            receiver.receive_packet(data, |_, _| {
                num_processed += 1;
                true
            });
            receiver.receive_packet(data, |_, _| {
                num_processed += 1;
                true
            });
        });
    }

    assert_eq!(num_processed, NUM_ITERATIONS);
    assert_eq!(
        receiver.counters().num_packets_received,
        2 * NUM_ITERATIONS as u64
    );
    assert_eq!(
        receiver.counters().num_packets_duplicate,
        NUM_ITERATIONS as u64
    );

    // duplicate fragments arriving after their packet was delivered must not restart reassembly

    let fragmented_sequence = sender.next_packet_sequence();

    let large_packet = [0u8; 2048];
    send(&mut sender, &large_packet, |_, data| {
        receiver.receive_packet(data, |_, _| {
            num_processed += 1;
            true
        });
        receiver.receive_packet(data, |_, _| {
            num_processed += 1;
            true
        });
    });

    assert_eq!(num_processed, NUM_ITERATIONS + 1);
    assert!(!receiver.fragment_reassembly().contains(fragmented_sequence));
}

#[test]
fn stale_packets() {
    const NUM_ITERATIONS: usize = 300;

    let mut sender = Endpoint::new(test_config("sender"), 100.0);
    let mut receiver = Endpoint::new(test_config("receiver"), 100.0);

    let mut first_packet: Vec<u8> = Vec::new();
    let mut num_processed = 0;
    let dummy_packet = [0u8; 8];

    // send enough packets that sequence 0 falls out of the receive window (256 entries)

    for _ in 0..NUM_ITERATIONS {
        send(&mut sender, &dummy_packet, |sequence, data| {
            if sequence == 0 && first_packet.is_empty() {
                first_packet = data.to_vec();
            }
            receiver.receive_packet(data, |_, _| {
                num_processed += 1;
                true
            });
        });
    }

    assert_eq!(num_processed, NUM_ITERATIONS);
    assert!(!first_packet.is_empty());

    // replaying the first packet must be rejected as stale, not processed

    receiver.receive_packet(&first_packet, |_, _| {
        num_processed += 1;
        true
    });

    assert_eq!(num_processed, NUM_ITERATIONS);
    assert_eq!(receiver.counters().num_packets_stale, 1);
}

#[test]
fn ack_buffer_overflow() {
    const NUM_PACKETS: usize = 32;
    const BUFFER_SIZE: usize = 16;

    // undersized ack buffer on the sender, so a single received packet acking 32 sent packets overflows it

    let mut sender = Endpoint::new(
        Config {
            ack_buffer_size: BUFFER_SIZE,
            ..test_config("sender")
        },
        100.0,
    );
    let mut receiver = Endpoint::new(test_config("receiver"), 100.0);

    let dummy_packet = [0u8; 8];

    for _ in 0..NUM_PACKETS {
        send(&mut sender, &dummy_packet, |_, data| {
            receiver.receive_packet(data, |_, _| true);
        });
    }

    // one packet back from the receiver acks all 32, but only 16 fit in the ack buffer. the rest are dropped

    send(&mut receiver, &dummy_packet, |_, data| {
        sender.receive_packet(data, |_, _| true);
    });

    assert_eq!(sender.acks().len(), BUFFER_SIZE);
    assert_eq!(sender.counters().num_packets_acked, BUFFER_SIZE as u64);

    // once the caller clears acks, the dropped acks are reported on the next packet that covers them

    sender.clear_acks();

    send(&mut receiver, &dummy_packet, |_, data| {
        sender.receive_packet(data, |_, _| true);
    });

    assert_eq!(sender.acks().len(), NUM_PACKETS - BUFFER_SIZE);
    assert_eq!(sender.counters().num_packets_acked, NUM_PACKETS as u64);
}

#[test]
fn packets() {
    let mut time = 100.0;

    let mut sender = Endpoint::new(
        Config {
            fragment_above: 500,
            ..test_config("sender")
        },
        time,
    );
    let mut receiver = Endpoint::new(
        Config {
            fragment_above: 500,
            ..test_config("receiver")
        },
        time,
    );

    let delta_time = 0.1;

    for _ in 0..16 {
        for _ in 0..2 {
            let sequence = sender.next_packet_sequence();
            let packet_data = generate_packet_data(sequence);
            send(&mut sender, &packet_data, |_, data| {
                receiver.receive_packet(data, |_, data| {
                    validate_packet_data(data);
                    true
                });
            });
        }

        sender.update(time);
        receiver.update(time);

        sender.clear_acks();
        receiver.clear_acks();

        time += delta_time;
    }
}

fn generate_packet_data_large() -> Vec<u8> {
    let data_bytes = TEST_MAX_PACKET_BYTES - 2;
    let mut packet_data = vec![0u8; data_bytes + 2];
    packet_data[0] = (data_bytes & 0xFF) as u8;
    packet_data[1] = ((data_bytes >> 8) & 0xFF) as u8;
    for i in 2..data_bytes {
        packet_data[i] = (i % 256) as u8;
    }
    packet_data
}

fn validate_packet_data_large(packet_data: &[u8]) {
    assert!(packet_data.len() >= 2);
    assert!(packet_data.len() <= TEST_MAX_PACKET_BYTES);
    let data_bytes = u16::from_le_bytes([packet_data[0], packet_data[1]]) as usize;
    assert_eq!(packet_data.len(), data_bytes + 2);
    for i in 2..data_bytes {
        assert_eq!(packet_data[i], (i % 256) as u8);
    }
}

#[test]
fn large_packets() {
    let time = 100.0;

    let large_config = |name: &str| Config {
        max_packet_size: TEST_MAX_PACKET_BYTES,
        fragment_above: TEST_MAX_PACKET_BYTES,
        ..test_config(name)
    };

    let mut sender = Endpoint::new(large_config("sender"), time);
    let mut receiver = Endpoint::new(large_config("receiver"), time);

    let packet_data = generate_packet_data_large();
    assert_eq!(packet_data.len(), TEST_MAX_PACKET_BYTES);
    send(&mut sender, &packet_data, |_, data| {
        receiver.receive_packet(data, |_, data| {
            validate_packet_data_large(data);
            true
        });
    });

    sender.update(time);
    receiver.update(time);

    sender.clear_acks();
    receiver.clear_acks();

    assert_eq!(receiver.counters().num_packets_too_large_to_receive, 0);
    assert_eq!(receiver.counters().num_packets_received, 1);
}

#[test]
fn sequence_buffer_rollover() {
    let mut sender = Endpoint::new(
        Config {
            fragment_above: 500,
            ..test_config("sender")
        },
        100.0,
    );
    let mut receiver = Endpoint::new(
        Config {
            fragment_above: 500,
            ..test_config("receiver")
        },
        100.0,
    );

    let packet_data = [0u8; 16];

    let mut num_packets_sent: u64 = 0;
    for _ in 0..=32767 {
        send(&mut sender, &packet_data, |_, data| {
            receiver.receive_packet(data, |_, _| true);
        });
        num_packets_sent += 1;
    }

    send(&mut sender, &packet_data, |_, data| {
        receiver.receive_packet(data, |_, _| true);
    });
    num_packets_sent += 1;

    assert_eq!(receiver.counters().num_packets_received, num_packets_sent);
    assert_eq!(receiver.counters().num_fragments_invalid, 0);
}

#[test]
fn fragment_cleanup() {
    let mut time = 100.0;

    let mut sender = Endpoint::new(test_config("sender"), time);
    let mut receiver = Endpoint::new(
        Config {
            fragment_reassembly_buffer_size: 4,
            ..test_config("receiver")
        },
        time,
    );

    let delta_time = 0.1;

    let fragment_size = sender.config().fragment_size;
    let packet_sizes = [fragment_size + fragment_size / 2, 10, 10, 10, 10];

    // send more packets than the reassembly buffer holds, so the buffer wraps around.
    // only one transmit per send is allowed through, so the fragmented packet is only
    // partially delivered and its reassembly never completes.

    assert!(packet_sizes.len() > receiver.config().fragment_reassembly_buffer_size);

    for packet_size in packet_sizes {
        let mut allow_packets = 1;

        let sequence = sender.next_packet_sequence();
        let packet_data = generate_packet_data_with_size(sequence, packet_size);
        send(&mut sender, &packet_data, |_, data| {
            if allow_packets > 0 {
                allow_packets -= 1;
                receiver.receive_packet(data, |_, _| true);
            }
        });

        sender.update(time);
        receiver.update(time);

        sender.clear_acks();
        receiver.clear_acks();

        time += delta_time;
    }

    // the in-progress reassembly of packet 0 was evicted when the buffer wrapped
    // around, and eviction must have dropped its packet data

    assert!(!receiver.fragment_reassembly().contains(0));
    for index in 0..receiver.fragment_reassembly().num_entries() {
        let (entry_sequence, entry) = receiver.fragment_reassembly().raw_entry(index);
        if entry_sequence.is_none() {
            assert!(entry.packet_data.is_empty());
        }
    }
}

#[test]
fn endpoint_reset() {
    let mut time = 100.0;

    let mut sender = Endpoint::new(
        Config {
            fragment_above: 500,
            ..test_config("sender")
        },
        time,
    );
    let mut receiver = Endpoint::new(
        Config {
            fragment_above: 500,
            ..test_config("receiver")
        },
        time,
    );

    let dummy_packet = [0u8; 8];

    // exchange packets both ways so acks and counters accumulate

    for _ in 0..8 {
        send(&mut sender, &dummy_packet, |_, data| {
            receiver.receive_packet(data, |_, _| true);
        });
        send(&mut receiver, &dummy_packet, |_, data| {
            sender.receive_packet(data, |_, _| true);
        });

        sender.update(time);
        receiver.update(time);

        time += 0.01;
    }

    assert!(!sender.acks().is_empty());
    assert!(sender.counters().num_packets_sent > 0);

    // leave a fragment reassembly in progress on the receiver by delivering only the
    // first fragment of a large packet

    let mut allow_packets = 1;
    let large_packet = [0u8; 1500];
    send(&mut sender, &large_packet, |_, data| {
        if allow_packets > 0 {
            allow_packets -= 1;
            receiver.receive_packet(data, |_, _| true);
        }
    });

    sender.reset();
    receiver.reset();

    assert_eq!(sender.next_packet_sequence(), 0);
    assert_eq!(receiver.next_packet_sequence(), 0);

    assert!(sender.acks().is_empty());

    assert_eq!(*sender.counters(), Counters::default());
    assert_eq!(*receiver.counters(), Counters::default());

    // reset must have dropped the in-progress reassembly data

    for index in 0..receiver.fragment_reassembly().num_entries() {
        let (entry_sequence, entry) = receiver.fragment_reassembly().raw_entry(index);
        assert_eq!(entry_sequence, None);
        assert!(entry.packet_data.is_empty());
    }

    // the endpoints must work normally after reset

    for _ in 0..8 {
        send(&mut sender, &dummy_packet, |_, data| {
            receiver.receive_packet(data, |_, _| true);
        });
        send(&mut receiver, &dummy_packet, |_, data| {
            sender.receive_packet(data, |_, _| true);
        });

        sender.update(time);
        receiver.update(time);

        time += 0.01;
    }

    assert!(!sender.acks().is_empty());
    assert!(receiver.counters().num_packets_received > 0);
}
