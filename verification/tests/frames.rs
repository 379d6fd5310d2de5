use teleport::codec::{compress_frame, compression_buffer, decompress_frame};
use teleport::delta::{kind, tag, DeltaDecoder, DeltaEncoder, FrameKind};
use teleport::irsdk::{
    active_var_buf, active_varbuf, clear_status, OFF_BUFLEN, OFF_NUMBUF, OFF_VARBUF,
};

fn put(map: &mut [u8], off: usize, v: i32) {
    map[off..off + 4].copy_from_slice(&v.to_le_bytes());
}

#[test]
fn frames_survive_compression() {
    let data: Vec<u8> = (0..20_000u32).map(|i| (i / 100) as u8).collect();
    let mut buf = compression_buffer(data.len());
    assert_eq!(buf.len(), 20 + 22_000);
    let n = compress_frame(&data, &mut buf).unwrap();
    assert!(n < data.len() / 10);
    let mut out = vec![0u8; data.len() + 100];
    assert_eq!(decompress_frame(&buf[..n], &mut out), Some(data.len()));
    assert_eq!(&out[..data.len()], &data[..]);
}

#[test]
fn an_empty_frame_survives_compression() {
    let mut buf = compression_buffer(0);
    assert_eq!(buf.len(), 20);
    let n = compress_frame(&[], &mut buf).unwrap();
    assert!(n >= 1);
    assert_eq!(decompress_frame(&buf[..n], &mut []), Some(0));
}

#[test]
fn compression_needs_the_whole_buffer() {
    let data = vec![0u8; 1000];
    let mut buf = vec![0u8; 1119];
    assert_eq!(compress_frame(&data, &mut buf), None);
    buf.push(0);
    assert!(compress_frame(&data, &mut buf).is_some());
}

#[test]
fn malformed_and_oversized_blocks_are_refused() {
    let mut out = vec![0u8; 10];
    assert_eq!(decompress_frame(&[], &mut out), None);
    assert_eq!(decompress_frame(&[0xf0], &mut out), None);
    let mut buf = compression_buffer(11);
    let n = compress_frame(&[7u8; 11], &mut buf).unwrap();
    assert_eq!(decompress_frame(&buf[..n], &mut out), None);
    out.push(0);
    assert_eq!(decompress_frame(&buf[..n], &mut out), Some(11));
}

#[test]
fn frame_kinds_have_their_tags() {
    for (k, t) in [
        (FrameKind::SessionInfo, u32::MAX),
        (FrameKind::Key(0), 0),
        (FrameKind::Key(0x1234), 0x1234),
        (FrameKind::Delta(0), 0x8000_0000),
        (FrameKind::Delta(0x1234), 0x8000_1234),
    ] {
        assert_eq!(tag(k), t);
        assert_eq!(kind(t), k);
    }
}

#[test]
fn delta_stream_stays_in_step() {
    let mut encoder = DeltaEncoder::new(4);
    let mut decoder = DeltaDecoder::new();
    let mut frame = Vec::new();
    let mut keys = Vec::new();
    for i in 0..10u8 {
        let current: Vec<u8> = (0..50u8).map(|j| j ^ (i / 2)).collect();
        let key = encoder.encode(&current, true, &mut frame);
        keys.push(key);
        if key {
            assert_eq!(frame, current);
        }
        decoder.decode(&frame, !key);
        assert_eq!(decoder.buffer(), &current[..]);
    }
    assert_eq!(
        keys,
        vec![true, false, false, false, true, false, false, false, true, false]
    );
}

#[test]
fn delta_of_an_unchanged_buffer_is_zero() {
    let mut encoder = DeltaEncoder::new(60);
    let mut frame = Vec::new();
    assert!(encoder.encode(&[1, 2, 3], true, &mut frame));
    assert!(!encoder.encode(&[1, 2, 3], true, &mut frame));
    assert_eq!(frame, vec![0, 0, 0]);
    // A longer buffer is taken against zeros at its end.
    assert!(!encoder.encode(&[1, 2, 7, 9], true, &mut frame));
    assert_eq!(frame, vec![0, 0, 4, 9]);
}

#[test]
fn keyframes_only_without_delta() {
    let mut encoder = DeltaEncoder::new(60);
    let mut frame = Vec::new();
    for _ in 0..5 {
        assert!(encoder.encode(&[9, 9], false, &mut frame));
        assert_eq!(frame, vec![9, 9]);
    }
    for interval in [0, 1] {
        let mut encoder = DeltaEncoder::new(interval);
        for _ in 0..3 {
            assert!(encoder.encode(&[9, 9], true, &mut frame));
        }
    }
}

#[test]
fn lost_frame_is_healed_by_the_next_keyframe() {
    let mut encoder = DeltaEncoder::new(3);
    let mut decoder = DeltaDecoder::new();
    let mut frame = Vec::new();
    let mut right = Vec::new();
    for i in 0..7u8 {
        let current = vec![i * 3; 8];
        let key = encoder.encode(&current, true, &mut frame);
        // Frame 1 is lost.
        if i != 1 {
            decoder.decode(&frame, !key);
        }
        right.push(decoder.buffer() == &current[..]);
    }
    assert_eq!(right, vec![true, false, false, true, true, true, true]);
}

#[test]
fn reset_makes_the_next_frame_a_keyframe() {
    let mut encoder = DeltaEncoder::new(60);
    let mut frame = Vec::new();
    assert!(encoder.encode(&[5], true, &mut frame));
    assert!(!encoder.encode(&[5], true, &mut frame));
    encoder.reset();
    assert!(encoder.encode(&[5], true, &mut frame));
    let mut decoder = DeltaDecoder::new();
    decoder.decode(&[1], false);
    decoder.reset();
    // Against zeros a delta is the buffer itself.
    decoder.decode(&[6, 7], true);
    assert_eq!(decoder.buffer(), &[6, 7]);
}

fn ring(num_buf: i32, ticks: [i32; 4]) -> Vec<u8> {
    let mut map = vec![0u8; 1000];
    put(&mut map, OFF_NUMBUF, num_buf);
    put(&mut map, OFF_BUFLEN, 100);
    for (i, t) in ticks.iter().enumerate() {
        put(&mut map, OFF_VARBUF + 16 * i, *t);
        put(&mut map, OFF_VARBUF + 16 * i + 4, 200 + 100 * i as i32);
    }
    map
}

#[test]
fn newest_slot_is_the_active_one() {
    let map = ring(4, [5, 9, 9, 2]);
    assert_eq!(active_varbuf(&map), Some((9, 300)));
    assert_eq!(active_var_buf(&map), Some((300, 100)));
    // Slots beyond the number of buffers do not count.
    let map = ring(1, [5, 9, 9, 2]);
    assert_eq!(active_varbuf(&map), Some((5, 200)));
    assert_eq!(active_var_buf(&map), Some((200, 100)));
    // A number of buffers that makes no sense.
    let map = ring(0, [5, 9, 9, 20]);
    assert_eq!(active_varbuf(&map), Some((5, 200)));
    assert_eq!(active_var_buf(&map), None);
    let map = ring(-3, [5, 9, 9, 20]);
    assert_eq!(active_varbuf(&map), Some((5, 200)));
    assert_eq!(active_var_buf(&map), Some((500, 100)));
    let map = ring(77, [5, 9, 9, 20]);
    assert_eq!(active_varbuf(&map), Some((20, 500)));
    assert_eq!(active_varbuf(&map[..111]), None);
    assert_eq!(active_var_buf(&map[..111]), None);
}

#[test]
fn buffers_outside_the_map_are_none() {
    let mut map = ring(2, [1, 2, 0, 0]);
    put(&mut map, OFF_VARBUF + 20, 901);
    assert_eq!(active_var_buf(&map), None);
    put(&mut map, OFF_VARBUF + 20, 900);
    assert_eq!(active_var_buf(&map), Some((900, 100)));
    put(&mut map, OFF_VARBUF + 20, -1);
    assert_eq!(active_var_buf(&map), None);
    for len in [0, -1, 1001] {
        let mut map = ring(2, [1, 2, 0, 0]);
        put(&mut map, OFF_BUFLEN, len);
        assert_eq!(active_var_buf(&map), None);
    }
    // Slots that were never written.
    let map = ring(2, [i32::MIN, i32::MIN, 0, 0]);
    assert_eq!(active_var_buf(&map), Some((0, 100)));
}

#[test]
fn status_field_is_cleared() {
    let mut map = vec![0xffu8; 12];
    clear_status(&mut map);
    assert_eq!(map, vec![255, 255, 255, 255, 0, 0, 0, 0, 255, 255, 255, 255]);
    let mut short = vec![0xffu8; 7];
    clear_status(&mut short);
    assert_eq!(short, vec![0xffu8; 7]);
}
