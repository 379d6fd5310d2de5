use lz4_flex::block::{compress_into, decompress_into, get_maximum_output_size};
use teleport::protocol::{
    xor_delta, Header, Receiver, SendError, Sender, HEADER_SIZE, MAX_DATAGRAM_SIZE, MAX_FRAGMENTS,
    MAX_PAYLOAD_PER_DATAGRAM,
};

/// A datagram with arbitrary header fields.
fn make_datagram(
    sequence: u32,
    fragments: u16,
    payload_size: u32,
    fragment_idx: u16,
    data: &[u8],
) -> Vec<u8> {
    let hdr = Header {
        source_us: 0,
        sequence,
        payload_size,
        buf_offset: u32::MAX,
        fragment: fragment_idx,
        fragments,
    };
    let mut buf = Vec::new();
    hdr.encode(&mut buf);
    buf.extend_from_slice(data);
    buf
}

fn datagrams_of(sender: &mut Sender, payload: &[u8], source_us: u64, offset: u32) -> Vec<Vec<u8>> {
    let mut datagrams = Vec::new();
    sender
        .send(payload, source_us, offset, |d: &[u8]| {
            datagrams.push(d.to_vec());
            Ok::<(), ()>(())
        })
        .unwrap();
    datagrams
}

fn assemble(receiver: &mut Receiver, datagrams: &[Vec<u8>]) -> Option<Vec<u8>> {
    let mut result = None;
    for dg in datagrams {
        if let Some(out) = receiver.ingest(dg).assembled {
            result = Some(out.to_vec());
        }
    }
    result
}

fn round_trip(payload: &[u8]) -> Vec<u8> {
    let mut sender = Sender::new();
    let datagrams = datagrams_of(&mut sender, payload, 42, u32::MAX);
    let mut receiver = Receiver::new(payload.len() + MAX_PAYLOAD_PER_DATAGRAM);
    assemble(&mut receiver, &datagrams).expect("never assembled")
}

#[test]
fn single_fragment() {
    let data: Vec<u8> = (0..1000).map(|i| (i % 256) as u8).collect();
    assert_eq!(round_trip(&data), data);
}

#[test]
fn multi_fragment() {
    let data: Vec<u8> = (0..MAX_PAYLOAD_PER_DATAGRAM * 3 + 500)
        .map(|i| (i % 251) as u8)
        .collect();
    assert_eq!(round_trip(&data), data);
}

#[test]
fn out_of_order() {
    let payload: Vec<u8> = (0..MAX_PAYLOAD_PER_DATAGRAM * 2 + 1)
        .map(|i| (i % 199) as u8)
        .collect();

    let mut sender = Sender::new();
    let mut datagrams = datagrams_of(&mut sender, &payload, 0, u32::MAX);

    // Deliver last fragment first, then the rest.
    let mut receiver = Receiver::new(payload.len() + MAX_PAYLOAD_PER_DATAGRAM);
    let mut result = None;
    let last = datagrams.pop().unwrap();
    if let Some(out) = receiver.ingest(&last).assembled {
        result = Some(out.to_vec());
    }
    for dg in &datagrams {
        if let Some(out) = receiver.ingest(dg).assembled {
            result = Some(out.to_vec());
        }
    }
    assert_eq!(result.unwrap(), payload);
}

#[test]
fn source_timestamp_preserved() {
    let data = vec![0u8; 100];
    let mut sender = Sender::new();
    let datagrams = datagrams_of(&mut sender, &data, 9999, u32::MAX);

    let mut receiver = Receiver::new(1024);
    receiver.ingest(&datagrams[0]);
    assert_eq!(receiver.last_source_us, 9999);
    assert_eq!(receiver.last_source_us(), 9999);
}

#[test]
fn rejects_oversized_fragment_count() {
    let mut receiver = Receiver::new(1024);
    let dg = make_datagram(1, MAX_FRAGMENTS + 1, 100, 0, &[0u8; 100]);
    assert!(receiver.ingest(&dg).assembled.is_none());
    // Subsequent fragments for the same sequence are also discarded.
    let dg2 = make_datagram(1, MAX_FRAGMENTS + 1, 100, 1, &[0u8; 100]);
    assert!(receiver.ingest(&dg2).assembled.is_none());
}

#[test]
fn rejects_oversized_payload_size() {
    let max_payload = 1024usize;
    let mut receiver = Receiver::new(max_payload);
    let dg = make_datagram(1, 1, (max_payload + 1) as u32, 0, &[0u8; 10]);
    assert!(receiver.ingest(&dg).assembled.is_none());
}

#[test]
fn valid_frame_after_rejected_malformed() {
    let payload: Vec<u8> = (0..200).map(|i| (i % 251) as u8).collect();
    let max_payload = payload.len() + MAX_PAYLOAD_PER_DATAGRAM;
    let mut receiver = Receiver::new(max_payload);

    // Malformed packet on sequence 99, distinct from the sender's first one.
    let bad = make_datagram(99, MAX_FRAGMENTS + 1, 100, 0, &[0u8; 10]);
    assert!(receiver.ingest(&bad).assembled.is_none());

    // Valid frame on sequence 0 assembles despite the rejection before.
    let mut sender = Sender::new();
    let datagrams = datagrams_of(&mut sender, &payload, 0, u32::MAX);
    assert_eq!(assemble(&mut receiver, &datagrams).unwrap(), payload);
}

#[test]
fn small_datagram_size_round_trip() {
    // Slightly larger than one 1448-byte payload to force multi-fragment.
    let payload: Vec<u8> = (0..3000).map(|i| (i % 197) as u8).collect();
    let datagram_size = 1472;
    let mut sender = Sender::with_datagram_size(datagram_size);
    let mut datagrams = Vec::new();
    let frags = sender
        .send(&payload, 0, u32::MAX, |d: &[u8]| {
            assert!(d.len() <= datagram_size, "datagram too large: {}", d.len());
            datagrams.push(d.to_vec());
            Ok::<(), ()>(())
        })
        .unwrap();
    assert!(frags >= 2, "expected multiple fragments, got {frags}");

    let mut receiver = Receiver::new(payload.len() + datagram_size);
    let result = assemble(&mut receiver, &datagrams);
    assert_eq!(result.expect("never assembled"), payload);
}

#[test]
fn varying_datagram_sizes() {
    for &dsize in &[256usize, 512, 1472, 4096, MAX_DATAGRAM_SIZE] {
        let payload: Vec<u8> = (0..dsize * 3 / 2).map(|i| (i % 211) as u8).collect();
        let mut sender = Sender::with_datagram_size(dsize);
        let datagrams = datagrams_of(&mut sender, &payload, 0, u32::MAX);
        let mut receiver = Receiver::new(payload.len() + dsize);
        let result = assemble(&mut receiver, &datagrams);
        assert_eq!(
            result.expect("never assembled"),
            payload,
            "failed for datagram_size={dsize}"
        );
    }
}

#[test]
fn lz4_round_trip_through_protocol() {
    let original: Vec<u8> = (0..12_000).map(|i| (i % 13) as u8).collect();
    let mut compressed = vec![0u8; get_maximum_output_size(original.len())];
    let compressed_len = compress_into(&original, &mut compressed).unwrap();
    let compressed = &compressed[..compressed_len];

    let mut sender = Sender::new();
    let datagrams = datagrams_of(&mut sender, compressed, 99, 0x4000u32);

    let mut receiver = Receiver::new(compressed.len() + MAX_PAYLOAD_PER_DATAGRAM);
    let assembled = assemble(&mut receiver, &datagrams).expect("never assembled");
    assert_eq!(assembled, compressed, "protocol round-trip corrupted data");

    let mut decompressed = vec![0u8; original.len()];
    decompress_into(&assembled, &mut decompressed).expect("decompression failed");
    assert_eq!(decompressed, original);
    assert_eq!(receiver.last_source_us, 99);
    assert_eq!(receiver.last_buf_offset, 0x4000u32);
}

#[test]
fn xor_delta_round_trip() {
    let size = 16_000usize;
    let prev: Vec<u8> = (0..size).map(|i| (i % 251) as u8).collect();
    let mut current = prev.clone();
    // Modify roughly 5% of the bytes.
    for i in (0..size).step_by(20) {
        current[i] = current[i].wrapping_add(1);
    }

    let mut delta = vec![0u8; size];
    xor_delta(&current, &prev, &mut delta);

    let mut compressed = vec![0u8; get_maximum_output_size(size)];
    let compressed_len = compress_into(&delta, &mut compressed).unwrap();
    let compressed = &compressed[..compressed_len];

    let mut raw_compressed = vec![0u8; get_maximum_output_size(size)];
    let raw_len = compress_into(&current, &mut raw_compressed).unwrap();
    assert!(
        compressed.len() < raw_len,
        "delta ({} bytes) should be smaller than raw ({raw_len} bytes)",
        compressed.len(),
    );

    let mut decompressed_delta = vec![0u8; size];
    decompress_into(compressed, &mut decompressed_delta).unwrap();

    let mut reconstructed = vec![0u8; size];
    xor_delta(&decompressed_delta, &prev, &mut reconstructed);
    assert_eq!(reconstructed, current, "XOR-delta round-trip failed");
}

#[test]
fn xor_delta_zeroed_prev() {
    let size = 4_000usize;
    let current: Vec<u8> = (0..size).map(|i| (i % 199) as u8).collect();
    let prev = vec![0u8; size];

    let mut delta = vec![0u8; size];
    xor_delta(&current, &prev, &mut delta);
    // delta == current when prev is all zeros.
    assert_eq!(delta, current);

    // Reconstruct: XOR delta against zeros gives back current.
    let mut reconstructed = vec![0u8; size];
    xor_delta(&delta, &prev, &mut reconstructed);
    assert_eq!(reconstructed, current);
}

#[test]
fn dropped_sequence_counted() {
    let large: Vec<u8> = vec![0u8; MAX_PAYLOAD_PER_DATAGRAM * 3];
    let mut sender = Sender::new();
    let datagrams_a = datagrams_of(&mut sender, &large, 0, u32::MAX);
    let datagrams_b = datagrams_of(&mut sender, &large, 0, u32::MAX);

    let mut receiver = Receiver::new(large.len() + MAX_PAYLOAD_PER_DATAGRAM);
    // Deliver only the first fragment of sequence A, then all of sequence B.
    receiver.ingest(&datagrams_a[0]);
    let mut assembled = false;
    for dg in &datagrams_b {
        if receiver.ingest(dg).assembled.is_some() {
            assembled = true;
        }
    }
    assert!(assembled, "sequence B should assemble");
    assert_eq!(receiver.dropped_sequences, 1, "sequence A should be counted as dropped");
    assert_eq!(receiver.last_fragment_count, 3);
}

#[test]
fn header_bytes_are_little_endian() {
    let hdr = Header {
        source_us: 0x0807_0605_0403_0201,
        sequence: 0x0c0b_0a09,
        payload_size: 0x100f_0e0d,
        buf_offset: 0x1413_1211,
        fragment: 0x1615,
        fragments: 0x1817,
    };
    let mut bytes = Vec::new();
    hdr.encode(&mut bytes);
    let expected: Vec<u8> = (1..=24).collect();
    assert_eq!(bytes, expected);
    let back = Header::decode(&bytes);
    assert_eq!(back.source_us, hdr.source_us);
    assert_eq!(back.sequence, hdr.sequence);
    assert_eq!(back.payload_size, hdr.payload_size);
    assert_eq!(back.buf_offset, hdr.buf_offset);
    assert_eq!(back.fragment, hdr.fragment);
    assert_eq!(back.fragments, hdr.fragments);
}

#[test]
fn sender_refuses_empty_and_oversized_messages() {
    let mut sender = Sender::with_datagram_size(0);
    let mut calls = 0;
    let r = sender.send(&[], 0, 0, |_: &[u8]| {
        calls += 1;
        Ok::<(), ()>(())
    });
    assert!(matches!(r, Err(SendError::InvalidData)));
    assert_eq!(calls, 0);
    // One payload byte per datagram: 65536 bytes need one fragment too many.
    let r = sender.send(&vec![0u8; 65_536], 0, 0, |_: &[u8]| Ok::<(), ()>(()));
    assert!(matches!(r, Err(SendError::InvalidData)));
    let r = sender.send(&vec![0u8; 65_535], 0, 0, |_: &[u8]| Ok::<(), ()>(()));
    assert_eq!(r.unwrap(), 65_535);
}

#[test]
fn refused_message_keeps_its_number() {
    let mut sender = Sender::new();
    let payload = vec![7u8; MAX_PAYLOAD_PER_DATAGRAM + 1];
    let mut calls = 0;
    let r = sender.send(&payload, 0, 0, |_: &[u8]| {
        calls += 1;
        if calls == 2 {
            Err("full")
        } else {
            Ok(())
        }
    });
    assert!(matches!(r, Err(SendError::Transport("full"))));
    assert_eq!(calls, 2);
    let datagrams = datagrams_of(&mut sender, &payload, 0, 0);
    assert_eq!(Header::decode(&datagrams[0]).sequence, 0);
    let datagrams = datagrams_of(&mut sender, &payload, 0, 0);
    assert_eq!(Header::decode(&datagrams[0]).sequence, 1);
}

#[test]
fn heartbeat_is_reported_and_changes_nothing() {
    let payload: Vec<u8> = (0..MAX_PAYLOAD_PER_DATAGRAM * 2).map(|i| i as u8).collect();
    let mut sender = Sender::default();
    let datagrams = datagrams_of(&mut sender, &payload, 5, 3);
    let mut beat = Vec::new();
    sender
        .send_heartbeat(|d: &[u8]| {
            beat.extend_from_slice(d);
            Ok::<(), ()>(())
        })
        .unwrap();
    assert_eq!(beat, vec![0u8; HEADER_SIZE]);

    let mut receiver = Receiver::new(payload.len());
    assert!(receiver.ingest(&datagrams[0]).assembled.is_none());
    let r = receiver.ingest(&beat);
    assert!(r.heartbeat && !r.new_seq && r.assembled.is_none());
    let r = receiver.ingest(&datagrams[1]);
    assert_eq!(r.assembled.unwrap(), &payload[..]);
    assert_eq!(r.buf_offset, 3);
    assert_eq!(receiver.dropped_sequences(), 0);
}

#[test]
fn duplicates_and_short_datagrams_are_discarded() {
    let payload: Vec<u8> = (0..MAX_PAYLOAD_PER_DATAGRAM + 10).map(|i| (i % 7) as u8).collect();
    let mut sender = Sender::new();
    let datagrams = datagrams_of(&mut sender, &payload, 0, 0);
    let mut receiver = Receiver::new(payload.len());
    assert!(receiver.ingest(&datagrams[0][..HEADER_SIZE - 1]).assembled.is_none());
    let r = receiver.ingest(&datagrams[0]);
    assert!(r.new_seq && r.assembled.is_none());
    let r = receiver.ingest(&datagrams[0]);
    assert!(!r.new_seq && r.assembled.is_none());
    let r = receiver.ingest(&datagrams[1]);
    assert!(!r.new_seq);
    assert_eq!(r.assembled.unwrap(), &payload[..]);
}

#[test]
fn repeats_of_a_complete_message_are_discarded() {
    let mut sender = Sender::new();
    let first = datagrams_of(&mut sender, &[1, 2, 3], 7, u32::MAX);
    let large: Vec<u8> = vec![5u8; MAX_PAYLOAD_PER_DATAGRAM + 1];
    let second = datagrams_of(&mut sender, &large, 8, 0);
    let mut receiver = Receiver::new(large.len());
    assert_eq!(receiver.ingest(&first[0]).assembled.unwrap(), &[1, 2, 3]);
    let r = receiver.ingest(&first[0]);
    assert!(r.assembled.is_none() && !r.new_seq && !r.heartbeat);
    // Nor does a late one disturb the message that follows.
    assert!(receiver.ingest(&second[0]).assembled.is_none());
    assert!(receiver.ingest(&first[0]).assembled.is_none());
    assert_eq!(receiver.ingest(&second[1]).assembled.unwrap(), &large[..]);
    assert_eq!(receiver.last_source_us(), 8);
    assert_eq!(receiver.dropped_sequences(), 0);
}

#[test]
fn a_sender_that_starts_over_is_heard() {
    let mut receiver = Receiver::new(100);
    let first = datagrams_of(&mut Sender::new(), &[1, 2, 3], 0, u32::MAX);
    assert_eq!(receiver.ingest(&first[0]).assembled.unwrap(), &[1, 2, 3]);
    // The same number, time, length and place, but other bytes.
    let again = datagrams_of(&mut Sender::new(), &[1, 2, 4], 0, u32::MAX);
    assert_eq!(receiver.ingest(&again[0]).assembled.unwrap(), &[1, 2, 4]);
    assert!(receiver.ingest(&again[0]).assembled.is_none());
    // Another time.
    let again = datagrams_of(&mut Sender::with_datagram_size(26), &[1, 2, 4], 9, u32::MAX);
    assert!(receiver.ingest(&again[1]).assembled.is_none());
    assert_eq!(receiver.ingest(&again[0]).assembled.unwrap(), &[1, 2, 4]);
    assert!(receiver.ingest(&again[1]).assembled.is_none());
}

#[test]
fn a_header_starts_another_message() {
    let mut receiver = Receiver::new(100);
    receiver.ingest(&make_datagram(1, 2, 4, 0, &[1, 2]));
    let hdr = Header::decode(&make_datagram(2, 3, 90, 1, &[]));
    receiver.reset(&hdr);
    assert_eq!(receiver.dropped_sequences(), 1);
    assert_eq!(receiver.payload().len(), 90);
    // Nothing is in now, so nothing is dropped.
    let hdr = Header::decode(&make_datagram(3, 1, 101, 0, &[]));
    receiver.reset(&hdr);
    assert_eq!(receiver.dropped_sequences(), 1);
    assert_eq!(receiver.payload().len(), 90);
}

#[test]
fn only_sent_messages_take_a_number() {
    let mut sender = Sender::new();
    let mut same = Sender::with_datagram_size(MAX_DATAGRAM_SIZE);
    let mut numbers = Vec::new();
    for k in 0..4u8 {
        let _ = sender.send(&[k], 0, 0, |_: &[u8]| Err::<(), ()>(()));
        let _ = sender.send(&[], 0, 0, |_: &[u8]| Ok::<(), ()>(()));
        let _ = sender.send_heartbeat(|_: &[u8]| Ok::<(), ()>(()));
        let datagrams = datagrams_of(&mut sender, &[k], 3, 4);
        assert_eq!(datagrams, datagrams_of(&mut same, &[k], 3, 4));
        numbers.push(Header::decode(&datagrams[0]).sequence);
    }
    assert_eq!(numbers, vec![0, 1, 2, 3]);
}

#[test]
fn datagrams_have_these_bytes_in_this_order() {
    let mut sender = Sender::with_datagram_size(26);
    let expected: Vec<Vec<u8>> = vec![
        vec![7, 0, 0, 0, 0, 0, 0, 0, 0, 0, 0, 0, 3, 0, 0, 0, 0x10, 0, 0, 0x80, 0, 0, 2, 0, 1, 2],
        vec![7, 0, 0, 0, 0, 0, 0, 0, 0, 0, 0, 0, 3, 0, 0, 0, 0x10, 0, 0, 0x80, 1, 0, 2, 0, 3],
    ];
    assert_eq!(sender.datagrams(&[1, 2, 3], 7, 0x8000_0010).unwrap(), expected);
    assert_eq!(datagrams_of(&mut sender, &[1, 2, 3], 7, 0x8000_0010), expected);
    assert!(sender.datagrams(&[], 0, 0).is_none());
    assert!(sender.datagrams(&vec![0u8; 65_535 * 2 + 1], 0, 0).is_none());
}

#[test]
fn last_fragment_may_come_first_at_any_size() {
    let mut sender = Sender::with_datagram_size(26);
    let datagrams = datagrams_of(&mut sender, &[1, 2, 3, 4, 5], 0, u32::MAX);
    let mut receiver = Receiver::new(5);
    assert!(receiver.ingest(&datagrams[2]).assembled.is_none());
    let r = receiver.ingest(&datagrams[0]);
    assert!(r.new_seq && r.assembled.is_none());
    assert_eq!(receiver.ingest(&datagrams[1]).assembled.unwrap(), &[1, 2, 3, 4, 5]);

    let payload: Vec<u8> = (0..3000).map(|i| (i % 101) as u8).collect();
    for order in [[2usize, 0, 1], [2, 1, 0], [1, 2, 0], [0, 2, 1]] {
        let mut sender = Sender::with_datagram_size(1472);
        let datagrams = datagrams_of(&mut sender, &payload, 0, 0);
        assert_eq!(datagrams.len(), 3);
        let mut receiver = Receiver::new(payload.len());
        assert!(receiver.ingest(&datagrams[order[0]]).assembled.is_none());
        assert!(receiver.ingest(&datagrams[order[1]]).assembled.is_none());
        assert_eq!(receiver.ingest(&datagrams[order[2]]).assembled.unwrap(), &payload[..]);
    }
}

#[test]
fn datagrams_above_the_default_size_are_accepted() {
    let payload: Vec<u8> = (0..50_000).map(|i| (i % 241) as u8).collect();
    let mut sender = Sender::with_datagram_size(20_000);
    let datagrams = datagrams_of(&mut sender, &payload, 0, 0);
    assert_eq!(datagrams.len(), 3);
    let mut receiver = Receiver::new(payload.len());
    assert!(receiver.ingest(&datagrams[2]).assembled.is_none());
    assert!(receiver.ingest(&datagrams[1]).assembled.is_none());
    assert_eq!(receiver.ingest(&datagrams[0]).assembled.unwrap(), &payload[..]);
}

#[test]
fn fragments_past_the_message_are_left_out() {
    let mut receiver = Receiver::new(100);
    assert!(receiver.ingest(&make_datagram(1, 2, 3, 1, &[9; 4])).assembled.is_none());
    assert!(receiver.ingest(&make_datagram(1, 2, 3, 0, &[1, 2])).assembled.is_none());
    assert_eq!(
        receiver.ingest(&make_datagram(1, 2, 3, 1, &[3])).assembled.unwrap(),
        &[1, 2, 3]
    );
    // A message of one fragment that is shorter than it claims, or longer.
    assert!(receiver.ingest(&make_datagram(2, 1, 3, 0, &[7])).assembled.is_none());
    assert!(receiver.ingest(&make_datagram(2, 1, 3, 0, &[7; 4])).assembled.is_none());
    assert_eq!(receiver.ingest(&make_datagram(2, 1, 3, 0, &[7; 3])).assembled.unwrap(), &[7; 3]);
    // Fragments that leave a gap: the first shows that each but the last has
    // two bytes.
    assert!(receiver.ingest(&make_datagram(3, 3, 6, 0, &[1, 2])).assembled.is_none());
    assert!(receiver.ingest(&make_datagram(3, 3, 6, 1, &[3])).assembled.is_none());
    assert!(receiver.ingest(&make_datagram(3, 3, 6, 2, &[5])).assembled.is_none());
    assert!(receiver.ingest(&make_datagram(3, 3, 6, 2, &[5, 6])).assembled.is_none());
    assert_eq!(
        receiver.ingest(&make_datagram(3, 3, 6, 1, &[3, 4])).assembled.unwrap(),
        &[1, 2, 3, 4, 5, 6]
    );
}
