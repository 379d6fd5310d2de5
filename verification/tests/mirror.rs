use teleport::mirror::codec::{compress_map, try_decompress_data};
use teleport::mirror::protocol::{
    DatagramHeader, Receiver, Sender, HEADER_SIZE, MAX_DATAGRAM_SIZE, MAX_PAYLOAD_SIZE,
};
use teleport::mirror::session::{
    multicast_interface, BindAddress, MirrorSource, MirrorTarget, SourceStep,
};
use teleport::mirror::stats::StatisticsPrinter;
use teleport::protocol::SendError;

// Helper function to create test data
fn create_test_data(size: usize) -> Vec<u8> {
    (0..size).map(|i| (i % 256) as u8).collect()
}

fn send_all(sender: &mut Sender, data: &[u8], source_time_us: u64) -> Vec<Vec<u8>> {
    let mut sent_datagrams = Vec::new();
    sender
        .send(data, source_time_us, |datagram: &[u8]| {
            sent_datagrams.push(datagram.to_vec());
            Ok::<(), ()>(())
        })
        .unwrap();
    sent_datagrams
}

#[test]
fn test_single_fragment_send_receive() {
    let data = create_test_data(1000);
    let mut sender = Sender::new();
    let sent_datagrams = send_all(&mut sender, &data, 0);

    // Verify we got exactly one datagram
    assert_eq!(sent_datagrams.len(), 1);

    // Receive the data
    let mut receiver = Receiver::new(MAX_DATAGRAM_SIZE);
    let (received, sequence_changed) = receiver.process_datagram(&sent_datagrams[0]);
    assert!(
        sequence_changed,
        "First datagram should indicate sequence change"
    );
    let received = received.unwrap();

    // Verify the received data matches what was sent
    assert_eq!(received, data);
}

#[test]
fn test_multi_fragment_send_receive() {
    let data = create_test_data(MAX_PAYLOAD_SIZE * 3 + 1000); // Will require 4 fragments
    let mut sender = Sender::new();
    let sent_datagrams = send_all(&mut sender, &data, 0);

    // Verify we got 4 datagrams
    assert_eq!(sent_datagrams.len(), 4);

    // Receive the data in order
    let mut receiver = Receiver::new(data.len());
    for (i, datagram) in sent_datagrams.iter().take(3).enumerate() {
        let (received, sequence_changed) = receiver.process_datagram(datagram);
        assert!(
            received.is_none(),
            "Fragment {} should not complete sequence",
            i
        );
        assert_eq!(
            sequence_changed,
            i == 0,
            "Only first fragment should indicate sequence change"
        );
    }
    let (received, sequence_changed) = receiver.process_datagram(&sent_datagrams[3]);
    assert!(
        !sequence_changed,
        "Last fragment should not indicate sequence change"
    );
    let received = received.unwrap();

    // Verify the received data matches what was sent
    assert_eq!(received, data);
}

#[test]
fn test_out_of_order_fragments() {
    let data = create_test_data(MAX_PAYLOAD_SIZE * 2 + 1000); // Will require 3 fragments
    let mut sender = Sender::new();
    let sent_datagrams = send_all(&mut sender, &data, 0);

    // Receive the data out of order
    let mut receiver = Receiver::new(data.len());
    let (received, sequence_changed) = receiver.process_datagram(&sent_datagrams[2]);
    assert!(received.is_none());
    assert!(
        !sequence_changed,
        "Last fragment should not indicate sequence change"
    );

    let (received, sequence_changed) = receiver.process_datagram(&sent_datagrams[0]);
    assert!(received.is_none());
    assert!(
        sequence_changed,
        "First fragment should indicate sequence change"
    );

    let (received, sequence_changed) = receiver.process_datagram(&sent_datagrams[1]);
    assert!(
        !sequence_changed,
        "Middle fragment should not indicate sequence change"
    );
    let received = received.unwrap();

    // Verify the received data matches what was sent
    assert_eq!(received, data);
}

#[test]
fn test_sequence_numbers() {
    let data = create_test_data(1000);
    let mut sender = Sender::new();
    let mut last_sequence: Option<u32> = None;

    // Send the data multiple times
    for _ in 0..3 {
        let mut current_sequence = None;
        sender
            .send(&data, 0, |datagram: &[u8]| {
                // Extract sequence number from header
                current_sequence = Some(DatagramHeader::decode(datagram).sequence);
                Ok::<(), ()>(())
            })
            .unwrap();

        if let Some(last) = last_sequence {
            assert_eq!(current_sequence.unwrap(), last.wrapping_add(1));
        }
        last_sequence = current_sequence;
    }
}

#[test]
fn test_duplicate_fragment_handling() {
    let data = create_test_data(MAX_PAYLOAD_SIZE * 2); // Will require 2 fragments
    let mut sender = Sender::new();
    let sent_datagrams = send_all(&mut sender, &data, 0);

    // Receive with duplicate fragments
    let mut receiver = Receiver::new(data.len());
    let (received, sequence_changed) = receiver.process_datagram(&sent_datagrams[0]);
    assert!(received.is_none());
    assert!(
        sequence_changed,
        "First fragment should indicate sequence change"
    );

    let (received, sequence_changed) = receiver.process_datagram(&sent_datagrams[0]);
    assert!(received.is_none());
    assert!(
        sequence_changed,
        "Duplicate fragment may indicate sequence change if we get the first fragment twice"
    );

    let (received, sequence_changed) = receiver.process_datagram(&sent_datagrams[1]);
    assert!(
        !sequence_changed,
        "Second fragment should not indicate sequence change"
    );
    let received = received.unwrap();

    // Verify the received data matches what was sent
    assert_eq!(received, data);
}

#[test]
fn test_invalid_fragment_number() {
    let data = create_test_data(1000);
    let mut sender = Sender::new();
    let sent_datagrams = send_all(&mut sender, &data, 0);

    // Corrupt the fragment number in the header
    let mut corrupted = sent_datagrams[0].clone();
    corrupted[4..6].copy_from_slice(&99u16.to_le_bytes()); // Invalid fragment number

    // Attempt to receive corrupted datagram
    let mut receiver = Receiver::new(data.len());
    assert!(receiver.fits(&corrupted));
    let (received, sequence_changed) = receiver.process_datagram(&corrupted);
    assert!(received.is_none());
    assert!(
        !sequence_changed,
        "we can't make sense of a random fragment number showing up"
    );
}

#[test]
fn mirror_header_bytes_are_little_endian() {
    let h = DatagramHeader {
        sequence: 0x0403_0201,
        fragment: 0x0605,
        fragments: 0x0807,
        payload_size: 0x0c0b_0a09,
        source_time_us: 0x1413_1211_100f_0e0d,
    };
    let mut bytes = Vec::new();
    h.encode(&mut bytes);
    let expected: Vec<u8> = (1..=20).collect();
    assert_eq!(bytes, expected);
    assert_eq!(bytes.len(), HEADER_SIZE);
}

#[test]
fn mirror_sends_nothing_for_an_empty_message() {
    let mut sender = Sender::new();
    assert_eq!(sender.send(&[], 0, |_: &[u8]| Ok::<(), ()>(())).unwrap(), 0);
    // It still takes a number.
    let sent = send_all(&mut sender, &[1, 2, 3], 0);
    assert_eq!(DatagramHeader::decode(&sent[0]).sequence, 1);
}

#[test]
fn mirror_refused_message_keeps_its_number() {
    let mut sender = Sender::new();
    let r = sender.send(&[1], 0, |_: &[u8]| Err::<(), u8>(9));
    assert!(matches!(r, Err(SendError::Transport(9))));
    let sent = send_all(&mut sender, &[1], 0);
    assert_eq!(DatagramHeader::decode(&sent[0]).sequence, 0);
}

#[test]
fn mirror_refuses_more_than_u16_fragments() {
    let mut sender = Sender::new();
    let data = vec![0u8; MAX_PAYLOAD_SIZE * 65_535 + 1];
    let r = sender.send(&data, 0, |_: &[u8]| Ok::<(), ()>(()));
    assert!(matches!(r, Err(SendError::InvalidData)));
}

#[test]
fn header_that_contradicts_its_message_does_not_fit() {
    let mut sender = Sender::new();
    let sent = send_all(&mut sender, &create_test_data(MAX_PAYLOAD_SIZE + 1), 0);
    let mut receiver = Receiver::new(0);
    receiver.process_datagram(&sent[0]);
    // Same message, but claiming 9 fragments instead of 2.
    let mut other = sent[1].clone();
    other[4..6].copy_from_slice(&5u16.to_le_bytes());
    other[6..8].copy_from_slice(&9u16.to_le_bytes());
    assert!(!receiver.fits(&other));
    assert!(receiver.fits(&sent[1]));
    assert!(receiver.fits(&sent[1][..10]));
}

#[test]
fn mirror_keeps_time_and_count_of_a_message() {
    let mut sender = Sender::new();
    let sent = send_all(&mut sender, &create_test_data(MAX_PAYLOAD_SIZE + 1), 777);
    let mut receiver = Receiver::new(0);
    receiver.process_datagram(&sent[1]);
    assert_eq!(receiver.last_source_time_us(), 0);
    receiver.process_datagram(&sent[0]);
    assert_eq!(receiver.last_source_time_us(), 777);
    assert_eq!(receiver.total_fragments(), 2);
}

#[test]
fn mirrored_map_arrives_as_it_was() {
    let map: Vec<u8> = (0..100_000u32).map(|i| (i / 50 % 256) as u8).collect();
    let mut buf = vec![0u8; 200_000];
    let n = compress_map(&map, &mut buf).unwrap();
    assert!(n > 4 && n < map.len());
    assert_eq!(&buf[..4], &100_000u32.to_le_bytes());

    let mut sender = Sender::new();
    let sent = send_all(&mut sender, &buf[..n], 0);
    let mut receiver = Receiver::new(0);
    let mut message = None;
    for d in &sent {
        if let (Some(m), _) = receiver.process_datagram(d) {
            message = Some(m.to_vec());
        }
    }
    let mut target = vec![0xeeu8; 100_010];
    assert!(try_decompress_data(&message.unwrap(), &mut target));
    assert_eq!(&target[..100_000], &map[..]);
    assert_eq!(&target[100_000..], &[0xeeu8; 10]);
}

#[test]
fn mirror_codec_refuses_what_does_not_fit() {
    let map: Vec<u8> = (0..255u8).collect();
    let mut buf = vec![0u8; 400];
    let n = compress_map(&map, &mut buf).unwrap();
    // The map is longer than the target.
    let mut small = vec![1u8; 254];
    assert!(!try_decompress_data(&buf[..n], &mut small));
    assert_eq!(small, vec![1u8; 254]);
    // No length, and a length that is too large.
    let mut target = vec![1u8; 300];
    assert!(!try_decompress_data(&buf[..3], &mut target));
    assert!(!try_decompress_data(&[0xff, 0xff, 0xff, 0x7f, 0], &mut target));
    assert!(!try_decompress_data(&[0xff, 0xff, 0xff, 0xff, 0], &mut target));
    assert_eq!(target, vec![1u8; 300]);
}

#[test]
fn an_empty_map_survives_compression() {
    let mut buf = vec![0u8; 20];
    let n = compress_map(&[], &mut buf).unwrap();
    assert!(n > 4);
    assert!(try_decompress_data(&buf[..n], &mut []));
}

#[test]
fn mirror_source_reconnects_after_ten_seconds() {
    let mut s = MirrorSource::new(0);
    assert_eq!(s.waited(true, 1_000_000), SourceStep::Send);
    assert_eq!(s.waited(false, 10_999_999), SourceStep::Wait);
    assert_eq!(s.waited(false, 11_000_000), SourceStep::Reconnect);
    s.reconnected(12_000_000);
    assert_eq!(s.waited(false, 13_000_000), SourceStep::Wait);
}

#[test]
fn mirror_target_creates_and_closes_its_map() {
    let mut t = MirrorTarget::new(0);
    assert!(!t.timed_out(100_000_000));
    assert!(!t.processed(true, false, 5));
    assert!(t.processed(false, true, 9));
    assert_eq!(t.written(100, 25), Some(120));
    assert_eq!(t.written(100, 30), None);
    assert!(!t.processed(true, true, 40));
    assert!(!t.timed_out(10_000_029));
    assert!(t.timed_out(10_000_030));
    assert!(!t.timed_out(20_000_000));
    assert!(t.processed(true, true, 20_000_000));
}

#[test]
fn mirror_joins_on_the_bound_address() {
    assert_eq!(multicast_interface(BindAddress::V4(0xc0a8_0101)), Some(0xc0a8_0101));
    assert_eq!(multicast_interface(BindAddress::Unknown), Some(0));
    assert_eq!(multicast_interface(BindAddress::V6), None);
}

#[test]
fn mirror_statistics_add_up() {
    let mut s = StatisticsPrinter::new("source", 1_000_000);
    assert_eq!(s.name(), "source");
    s.add_update();
    s.add_update();
    s.add_bytes(100);
    s.add_bytes(11);
    s.add_fragments(3);
    s.add_latency(40);
    s.add_latency(2);
    assert!(!s.should_print(5_999_999));
    assert!(s.should_print(6_000_000));
    let r = s.print_and_reset(6_000_000);
    assert_eq!(r.elapsed_us, 5_000_000);
    assert_eq!(r.updates, 2);
    assert_eq!(r.total_bytes, 111);
    assert_eq!(r.total_fragments, 3);
    assert_eq!(r.total_latency_us, 42);
    let r = s.print_and_reset(6_000_001);
    assert_eq!((r.elapsed_us, r.updates, r.total_bytes), (1, 0, 0));
    assert!(!s.should_print(6_000_001));
}

#[test]
fn mirror_codec_tells_a_corrupt_message() {
    let map: Vec<u8> = (0..1000u32).map(|i| (i / 50) as u8).collect();
    let mut buf = vec![0u8; 2000];
    let n = compress_map(&map, &mut buf).unwrap();
    let mut target = vec![1u8; 1000];
    // Cut short, and without any block.
    assert!(!try_decompress_data(&buf[..n - 1], &mut target));
    assert!(!try_decompress_data(&buf[..4], &mut target));
    // A match that starts before the map.
    assert!(!try_decompress_data(&[100, 0, 0, 0, 0x14, 7, 9, 0, 0x50, 1, 2, 3, 4, 5], &mut target));
    assert!(try_decompress_data(&buf[..n], &mut target));
    assert_eq!(target, map);
}

#[test]
fn mirror_datagrams_are_those_that_are_sent() {
    let mut sender = Sender::new();
    let data = create_test_data(MAX_PAYLOAD_SIZE * 3 + 1000);
    let list = sender.datagrams(&data, 4).unwrap();
    let lengths: Vec<usize> = list.iter().map(|d| d.len()).collect();
    assert_eq!(lengths, vec![9000, 9000, 9000, 1020]);
    assert_eq!(send_all(&mut sender, &data, 4), list);
    assert_eq!(sender.datagrams(&[], 0).unwrap().len(), 0);
    assert_eq!(
        sender.datagrams(&[9], 0x0102).unwrap(),
        vec![vec![1, 0, 0, 0, 0, 0, 1, 0, 1, 0, 0, 0, 2, 1, 0, 0, 0, 0, 0, 0, 9]]
    );
}
