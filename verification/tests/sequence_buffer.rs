use reliable::sequence_buffer::SequenceBuffer;
use reliable::{sequence_greater_than, sequence_less_than};

#[derive(Default)]
struct TestSequenceData {
    sequence: u16,
}

const TEST_SEQUENCE_BUFFER_SIZE: usize = 256;

#[test]
fn sequence_buffer() {
    let mut sequence_buffer = SequenceBuffer::<TestSequenceData>::new(TEST_SEQUENCE_BUFFER_SIZE);

    assert_eq!(sequence_buffer.sequence(), 0);
    assert_eq!(sequence_buffer.num_entries(), TEST_SEQUENCE_BUFFER_SIZE);

    for i in 0..TEST_SEQUENCE_BUFFER_SIZE {
        assert!(sequence_buffer.find(i as u16).is_none());
    }

    for i in 0..=TEST_SEQUENCE_BUFFER_SIZE * 4 {
        let entry = sequence_buffer.insert(i as u16).expect("insert");
        entry.sequence = i as u16;
        assert_eq!(sequence_buffer.sequence(), (i + 1) as u16);
    }

    for i in 0..=TEST_SEQUENCE_BUFFER_SIZE {
        assert!(sequence_buffer.insert(i as u16).is_none());
    }

    let mut index = TEST_SEQUENCE_BUFFER_SIZE * 4;
    for _ in 0..TEST_SEQUENCE_BUFFER_SIZE {
        let entry = sequence_buffer.find(index as u16).expect("find");
        assert_eq!(entry.sequence, index as u16);
        index -= 1;
    }

    sequence_buffer.reset();

    assert_eq!(sequence_buffer.sequence(), 0);
    assert_eq!(sequence_buffer.num_entries(), TEST_SEQUENCE_BUFFER_SIZE);

    for i in 0..TEST_SEQUENCE_BUFFER_SIZE {
        assert!(sequence_buffer.find(i as u16).is_none());
    }
}

#[test]
fn generate_ack_bits() {
    let mut sequence_buffer = SequenceBuffer::<TestSequenceData>::new(TEST_SEQUENCE_BUFFER_SIZE);

    let (ack, ack_bits) = sequence_buffer.generate_ack_bits();
    assert_eq!(ack, 0xFFFF);
    assert_eq!(ack_bits, 0);

    for i in 0..=TEST_SEQUENCE_BUFFER_SIZE {
        sequence_buffer.insert(i as u16).expect("insert");
    }

    let (ack, ack_bits) = sequence_buffer.generate_ack_bits();
    assert_eq!(ack as usize, TEST_SEQUENCE_BUFFER_SIZE);
    assert_eq!(ack_bits, 0xFFFF_FFFF);

    sequence_buffer.reset();

    for input_ack in [1u16, 5, 9, 11] {
        sequence_buffer.insert(input_ack).expect("insert");
    }

    let (ack, ack_bits) = sequence_buffer.generate_ack_bits();
    assert_eq!(ack, 11);
    assert_eq!(
        ack_bits,
        1 | (1 << (11 - 9)) | (1 << (11 - 5)) | (1 << (11 - 1))
    );
}

#[test]
fn sequence_order() {
    assert!(sequence_greater_than(1, 0));
    assert!(sequence_greater_than(0, 0xFFFF));
    assert!(!sequence_greater_than(5, 5));
    assert!(!sequence_less_than(5, 5));
    assert!(sequence_less_than(0xFFFF, 0));
    assert!(sequence_greater_than(32768, 0));
    assert!(!sequence_greater_than(0, 32768));
    assert!(sequence_less_than(0, 32768));
    assert!(sequence_greater_than(0, 32769));
    assert!(!sequence_greater_than(32769, 0));
}

#[test]
fn insert_resets_the_entry() {
    let mut buffer = SequenceBuffer::<TestSequenceData>::new(4);
    buffer.insert(9).expect("insert").sequence = 9;
    assert_eq!(buffer.find(9).expect("find").sequence, 9);
    assert_eq!(buffer.insert(9).expect("insert again").sequence, 0);
    buffer.find_mut(9).expect("find_mut").sequence = 10;
    assert_eq!(buffer.find(9).expect("find").sequence, 10);
    assert!(buffer.find_mut(8).is_none());
}

#[test]
fn advance_drops_what_leaves_the_window() {
    let mut buffer = SequenceBuffer::<TestSequenceData>::new(4);
    for sequence in 0..4u16 {
        buffer.insert(sequence).expect("insert");
    }
    buffer.advance(5);
    assert_eq!(buffer.sequence(), 6);
    assert!(!buffer.contains(0));
    assert!(!buffer.contains(1));
    assert!(buffer.contains(2));
    assert!(buffer.contains(3));
    assert!(!buffer.contains(5));
    assert!(!buffer.can_insert(1));
    assert!(buffer.can_insert(2));

    // going back changes nothing
    buffer.advance(3);
    assert_eq!(buffer.sequence(), 6);
    assert!(buffer.contains(2));

    // a jump past the whole window empties it
    buffer.advance(1000);
    assert!(!buffer.contains(2));
    assert!(!buffer.contains(3));
    assert_eq!(buffer.sequence(), 1001);
}

#[test]
fn remove_empties_the_slot() {
    let mut buffer = SequenceBuffer::<TestSequenceData>::new(4);
    buffer.insert(6).expect("insert").sequence = 6;
    let (sequence, entry) = buffer.raw_entry(2);
    assert_eq!(sequence, Some(6));
    assert_eq!(entry.sequence, 6);

    // 10 shares the slot of 6
    buffer.remove(10);
    assert!(!buffer.contains(6));
    let (sequence, entry) = buffer.raw_entry(2);
    assert_eq!(sequence, None);
    assert_eq!(entry.sequence, 0);
}

#[test]
fn ambiguous_numbers_are_stale_or_advance() {
    let mut buffer = SequenceBuffer::<TestSequenceData>::new(256);
    for sequence in 0..10u16 {
        buffer.insert(sequence).expect("insert");
    }

    // half way around the circle: stale for the one, an advance for the other
    let ambiguous = 9 + 32768;
    assert!(!buffer.can_insert(ambiguous));
    assert!(buffer.insert(ambiguous).is_none());
    assert_eq!(buffer.sequence(), 10);
    assert!(buffer.insert_advance_first(ambiguous).is_some());
    assert_eq!(buffer.sequence(), ambiguous + 1);

    // a number that is neither newer nor in the window is refused by both
    assert!(buffer.insert_advance_first(ambiguous - 300).is_none());
}

#[test]
fn window_is_walked_from_the_oldest() {
    let mut buffer = SequenceBuffer::<TestSequenceData>::new(4);
    for sequence in [0xFFFEu16, 0xFFFF, 1] {
        buffer.advance(sequence);
        buffer.insert(sequence).expect("insert").sequence = sequence;
    }
    assert_eq!(buffer.find_in_window(0).map(|entry| entry.sequence), Some(0xFFFE));
    assert_eq!(buffer.find_in_window(1).map(|entry| entry.sequence), Some(0xFFFF));
    assert!(buffer.find_in_window(2).is_none());
    assert_eq!(buffer.find_in_window(3).map(|entry| entry.sequence), Some(1));
}

#[test]
fn range_inside_the_window_is_removed() {
    let mut buffer: SequenceBuffer<u32> = SequenceBuffer::new(4);
    for s in [65534u16, 65535, 0, 1] {
        buffer.insert(s).unwrap();
    }
    buffer.remove_entries(65535, 0);
    assert!(!buffer.contains(65535));
    assert!(!buffer.contains(0));
    assert!(buffer.contains(65534));
    assert!(buffer.contains(1));
    assert_eq!(buffer.sequence(), 2);
    // as many numbers as slots take up them all
    buffer.remove_entries(1, 4);
    assert!(!buffer.contains(65534));
    assert!(!buffer.contains(1));
}

#[test]
fn range_from_the_next_number_removes_what_leaves_the_window() {
    let mut buffer: SequenceBuffer<u32> = SequenceBuffer::new(3);
    for s in [65534u16, 65535] {
        buffer.insert(s).unwrap();
    }
    assert_eq!(buffer.sequence(), 0);
    buffer.remove_entries(0, 0);
    assert!(buffer.contains(65534));
    assert!(buffer.contains(65535));
    buffer.remove_entries(0, 1);
    assert!(!buffer.contains(65534));
    assert!(buffer.contains(65535));
    assert_eq!(buffer.sequence(), 0);
    // a large buffer, in which each number has a slot of its own
    let mut buffer: SequenceBuffer<u32> = SequenceBuffer::new(70000);
    for s in [65535u16, 0, 1, 2] {
        buffer.insert_advance_first(s).unwrap();
    }
    buffer.remove_entries(65535, 0);
    assert!(!buffer.contains(65535));
    assert!(!buffer.contains(0));
    assert!(buffer.contains(1));
    assert!(buffer.contains(2));
}

#[test]
fn stale_is_too_old_to_insert_where_slots_divide_the_circle() {
    for n in [2usize, 16, 256] {
        let mut buffer: SequenceBuffer<u32> = SequenceBuffer::new(n);
        for s in [65500u16, 65534, 65535, 0, 3, 10] {
            if buffer.can_insert(s) {
                buffer.insert(s).unwrap();
            }
        }
        for s in 0..=65535u16 {
            assert_eq!(buffer.is_stale(s), !buffer.can_insert(s));
        }
    }
}
