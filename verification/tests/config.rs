use reliable::{Config, Endpoint};

#[test]
fn default_config() {
    let config = Config::default();
    assert!(config.is_valid());
    assert_eq!(config.name, "endpoint");
    assert_eq!(config.max_packet_size, 16 * 1024);
    assert_eq!(config.fragment_above, 1024);
    assert_eq!(config.max_fragments, 16);
    assert_eq!(config.fragment_size, 1024);
    assert_eq!(config.ack_buffer_size, 256);
    assert_eq!(config.sent_packets_buffer_size, 256);
    assert_eq!(config.received_packets_buffer_size, 256);
    assert_eq!(config.fragment_reassembly_buffer_size, 64);
    assert_eq!(config.rtt_history_size, 512);
    assert_eq!(config.packet_header_size, 28);
}

#[test]
fn config_of_larger_packets() {
    let config = Config {
        max_packet_size: 32 * 1024,
        fragment_above: 1200,
        max_fragments: 32,
        fragment_size: 1024,
        ..Config::default()
    };
    assert!(config.is_valid());
    let mut endpoint = Endpoint::new(config, 0.0);
    assert_eq!(endpoint.config().max_packet_size, 32 * 1024);
    assert_eq!(endpoint.send_packet(&[0; 1200]).len(), 1);
    assert_eq!(endpoint.send_packet(&[0; 1201]).len(), 2);
    assert_eq!(endpoint.send_packet(&[0; 32 * 1024]).len(), 32);
    assert_eq!(endpoint.counters().num_fragments_sent, 34);
}

#[test]
fn zero_sizes_are_refused() {
    let valid = Config::default();
    assert!(!Config { max_packet_size: 0, ..valid.clone() }.is_valid());
    assert!(!Config { fragment_above: 0, ..valid.clone() }.is_valid());
    assert!(!Config { max_fragments: 0, ..valid.clone() }.is_valid());
    assert!(!Config { fragment_size: 0, ..valid.clone() }.is_valid());
    assert!(!Config { ack_buffer_size: 0, ..valid.clone() }.is_valid());
    assert!(!Config { sent_packets_buffer_size: 0, ..valid.clone() }.is_valid());
    assert!(!Config { received_packets_buffer_size: 0, ..valid.clone() }.is_valid());
    assert!(!Config { fragment_reassembly_buffer_size: 0, ..valid.clone() }.is_valid());
    assert!(!Config { rtt_history_size: 0, ..valid.clone() }.is_valid());
    assert!(Config { packet_header_size: 0, ..valid }.is_valid());
}

#[test]
fn fragments_must_hold_the_largest_packet() {
    let valid = Config::default();
    assert!(!Config { max_fragments: 257, ..valid.clone() }.is_valid());
    assert!(!Config { max_fragments: 15, ..valid.clone() }.is_valid());
    assert!(Config { max_fragments: 256, ..valid.clone() }.is_valid());
    assert!(!Config { fragment_size: 1023, ..valid.clone() }.is_valid());
    assert!(Config { max_packet_size: 16 * 1024 - 1, ..valid.clone() }.is_valid());
    assert!(!Config { max_packet_size: 16 * 1024 + 1, ..valid.clone() }.is_valid());
    assert!(!Config { fragment_size: usize::MAX, ..valid }.is_valid());
}

#[test]
fn fragment_above_must_not_exceed_the_largest_packet() {
    let valid = Config::default();
    assert!(Config { fragment_above: 16 * 1024, ..valid.clone() }.is_valid());
    assert!(!Config { fragment_above: 16 * 1024 + 1, ..valid }.is_valid());
}

#[test]
fn packet_lengths_must_fit() {
    let valid = Config::default();
    let room = 0xFFFF_FFFF - 16 * 1024 - 14;
    assert!(Config { packet_header_size: room, ..valid.clone() }.is_valid());
    assert!(!Config { packet_header_size: room + 1, ..valid.clone() }.is_valid());
    assert!(!Config { packet_header_size: usize::MAX, ..valid }.is_valid());
}
