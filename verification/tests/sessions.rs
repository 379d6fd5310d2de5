use teleport::delta::{tag, FrameKind};
use teleport::ibt_writer::{IbtWriter, MapLayout};
use teleport::irsdk::{
    active_var_buf, active_varbuf, slot_tick, IRSDK_HEADER_SIZE, OFF_BUFLEN, OFF_NUMBUF, OFF_NUMVARS, OFF_SESSIONINFOLEN, OFF_SESSIONINFOOFFSET,
    OFF_SESSIONINFOUPDATE, OFF_STATUS, OFF_VARBUF, OFF_VARHEADEROFFSET,
};
use teleport::protocol::Sender;
use teleport::source::{
    after_wait, copy_is_whole, session_info_extent, FrameEncoder, Keepalive, OpenResult, Plan,
    Resync, Signal, SourceSession,
};
use teleport::target::{
    zero_map, Applied, MapWriter, StalePolicy, TargetClock, TargetSession,
};

const SEC: u64 = 1_000_000;

fn put(map: &mut [u8], off: usize, v: i32) {
    map[off..off + 4].copy_from_slice(&v.to_le_bytes());
}

/// A map with one descriptor, ten bytes of session info and one buffer of 40
/// bytes at offset 300.
fn sim_map(session: i32, tick: i32, fill: u8) -> Vec<u8> {
    let mut map = vec![0u8; 400];
    put(&mut map, OFF_STATUS, 1);
    put(&mut map, OFF_SESSIONINFOUPDATE, session);
    put(&mut map, OFF_SESSIONINFOLEN, 10);
    put(&mut map, OFF_SESSIONINFOOFFSET, 256);
    put(&mut map, OFF_NUMVARS, 1);
    put(&mut map, OFF_VARHEADEROFFSET, 112);
    put(&mut map, OFF_NUMBUF, 1);
    put(&mut map, OFF_BUFLEN, 40);
    put(&mut map, OFF_VARBUF, tick);
    put(&mut map, OFF_VARBUF + 4, 300);
    for b in &mut map[300..340] {
        *b = fill;
    }
    map
}

#[test]
fn resync_packets_round_trip() {
    for delta_capable in [false, true] {
        let r = Resync { delta_capable };
        assert_eq!(Resync::parse(&r.packet()), Some(r));
    }
    assert_eq!(Resync { delta_capable: true }.packet(), vec![1, 1]);
    assert_eq!(Resync::parse(&[1]), Some(Resync { delta_capable: false }));
    assert_eq!(Resync::parse(&[1, 2]), Some(Resync { delta_capable: false }));
    assert_eq!(Resync::parse(&[1, 3]), Some(Resync { delta_capable: true }));
    assert_eq!(Resync::parse(&[]), None);
    assert_eq!(Resync::parse(&[2, 1]), None);
}

#[test]
fn ticks_make_frames_and_events_alone_do_not() {
    let mut s = SourceSession::new(10, false, 100, 0);
    let p = s.poll(true, 101, 10);
    assert!(p.frame && p.gap_us.is_none() && p.keepalive.is_none() && !p.reconnect);
    // The event without a new tick.
    let p = s.poll(true, 101, 20);
    assert!(!p.frame && !p.reconnect);
    // The tick without the event.
    let p = s.poll(false, 102, 30);
    assert!(p.frame);
    assert_eq!(s.last_data, 30);
}

#[test]
fn silence_brings_keepalives_gaps_and_a_reconnect() {
    let mut s = SourceSession::new(10, false, 0, 0);
    assert!(s.poll(false, 1, SEC / 2).frame);
    s.partial_sent(true, SEC / 2);
    assert_eq!(s.poll(false, 1, SEC).keepalive, None);
    assert_eq!(s.poll(false, 1, SEC * 3 / 2).keepalive, Some(Keepalive::Resend));
    assert_eq!(s.poll(false, 1, SEC * 2).keepalive, None);
    let p = s.poll(true, 1, SEC * 2);
    assert_eq!(p.gap_us, Some(SEC * 3 / 2));
    assert!(!s.poll(false, 1, SEC * 12 - 1).reconnect);
    let p = s.poll(false, 1, SEC * 12);
    assert!(p.reconnect);
    s.reconnected(7, SEC * 20);
    assert!(!s.can_resend);
    let p = s.poll(false, 7, SEC * 20 + 1);
    assert!(!p.frame && !p.reconnect);
    assert_eq!(p.keepalive, Some(Keepalive::Heartbeat));
}

#[test]
fn delta_frames_are_not_sent_again() {
    let mut s = SourceSession::new(10, false, 0, 0);
    s.partial_sent(false, 0);
    assert_eq!(s.poll(false, 0, SEC).keepalive, Some(Keepalive::Heartbeat));
}

#[test]
fn session_info_comes_first_on_change_on_request_and_every_ten_seconds() {
    let mut s = SourceSession::new(10, false, 0, 0);
    let map = sim_map(1, 1, 5);
    let header = &map[..IRSDK_HEADER_SIZE];
    let partial = Some((300, 40));
    let both = Plan { session_info: Some(266), partial };
    let buffer = Plan { session_info: None, partial };
    assert_eq!(s.plan(header, 400, 0), both);
    s.session_info_sent(header, 0);
    assert_eq!(s.plan(header, 400, 1), buffer);
    assert_eq!(s.plan(header, 400, SEC * 10 - 1), buffer);
    assert_eq!(s.plan(header, 400, SEC * 10), both);
    assert_eq!(s.plan(&sim_map(2, 1, 5), 400, 1), both);
    assert!(!s.use_delta());
    s.on_packet(&[1, 1]);
    assert!(s.use_delta());
    assert_eq!(s.plan(header, 400, 1), both);
    s.session_info_sent(header, 1);
    assert_eq!(s.plan(header, 400, 2), buffer);
    s.on_packet(b"hello");
    assert_eq!(s.plan(header, 400, 2), buffer);
    // Where the buffer does not lie inside the map, the session info stands in.
    let info = Plan { session_info: Some(266), partial: None };
    assert_eq!(s.plan(header, 339, 2), info);
    // What the target can do stays known.
    s.reconnected(0, 3);
    assert!(s.use_delta());
    assert_eq!(s.plan(header, 400, 3), both);
    // A target that knows no deltas.
    s.on_packet(&[1]);
    assert!(!s.use_delta());
}

#[test]
fn no_delta_switches_deltas_off() {
    let mut s = SourceSession::new(10, true, 0, 0);
    s.on_packet(&[1, 1]);
    assert!(!s.use_delta());
}

#[test]
fn map_without_a_header_is_sent_whole() {
    let s = SourceSession::new(10, false, 0, 0);
    let whole = Plan { session_info: Some(50), partial: None };
    assert_eq!(s.plan(&[0u8; 50], 50, 0), whole);
    let mut map = sim_map(1, 1, 0);
    put(&mut map, OFF_SESSIONINFOLEN, 1000);
    assert_eq!(session_info_extent(&map, 400), 400);
    put(&mut map, OFF_SESSIONINFOLEN, -1);
    assert_eq!(session_info_extent(&map, 400), 400);
    assert_eq!(session_info_extent(&vec![0u8; 200], 200), 112);
    let mut map = sim_map(1, 1, 0);
    put(&mut map, OFF_SESSIONINFOOFFSET, 0);
    assert_eq!(session_info_extent(&map, 400), 256);
    assert_eq!(session_info_extent(&map, 100), 100);
}

#[test]
fn torn_copies_are_told_from_whole_ones() {
    let mut map = sim_map(1, 77, 0);
    let before = slot_tick(&map, 300);
    assert_eq!(before, Some(77));
    assert!(copy_is_whole(before, slot_tick(&map, 300)));
    put(&mut map, OFF_VARBUF, 78);
    assert!(!copy_is_whole(before, slot_tick(&map, 300)));
    assert_eq!(slot_tick(&map, 301), None);
    assert_eq!(slot_tick(&map[..100], 300), None);
    assert!(copy_is_whole(None, None));
    assert!(!copy_is_whole(None, Some(1)));
}

#[test]
fn waiting_for_the_simulator_ends_with_the_signal() {
    assert_eq!(after_wait(Signal::Timeout), OpenResult::Retry);
    assert_eq!(after_wait(Signal::Shutdown), OpenResult::Shutdown);
    assert_eq!(after_wait(Signal::Disconnected), OpenResult::Shutdown);
}

/// Sends one block through the network into the target and writes it.
fn deliver(
    sender: &mut Sender,
    target: &mut TargetSession,
    map: &mut [u8],
    block: &[u8],
    kind: FrameKind,
    now: u64,
) -> teleport::target::Written {
    let mut datagrams = Vec::new();
    sender
        .send(block, 11, tag(kind), |d: &[u8]| {
            datagrams.push(d.to_vec());
            Ok::<(), ()>(())
        })
        .unwrap();
    let mut complete = false;
    for d in &datagrams {
        let a = target.on_datagram(d, now);
        if a.create_map {
            target.map_created();
        }
        complete = complete || a.message;
    }
    assert!(complete);
    target.write(map, now + 5)
}

/// A map with four buffers of 40 bytes, from offset 300 on. The newest one has
/// the number of the tick modulo four.
fn ring_map(session: i32, tick: i32) -> Vec<u8> {
    let mut map = sim_map(session, 0, 0);
    map.resize(500, 0);
    put(&mut map, OFF_NUMBUF, 4);
    for i in 0..4i32 {
        let at = 300 + 40 * i as usize;
        let t = tick - (tick - i).rem_euclid(4);
        put(&mut map, OFF_VARBUF + 16 * i as usize, t);
        put(&mut map, OFF_VARBUF + 16 * i as usize + 4, at as i32);
        for b in &mut map[at..at + 40] {
            *b = t as u8;
        }
    }
    map
}

fn buffer_and_header(map: &[u8]) -> (usize, Vec<u8>, Vec<u8>) {
    let (offset, len) = active_var_buf(map).unwrap();
    (offset, map[offset..offset + len].to_vec(), map[..IRSDK_HEADER_SIZE].to_vec())
}

#[test]
fn telemetry_reaches_the_target() {
    let mut encoder = FrameEncoder::new(1000, 60);
    let mut sender = Sender::new();
    let mut target = TargetSession::new(StalePolicy::close_after(10), 2000, 0);
    let mut local = vec![0u8; 600];
    let mut recorder = IbtWriter::new();

    // A partial frame before any session info asks for a resync.
    let map = ring_map(1, 20);
    let (offset, buffer, header) = buffer_and_header(&map);
    let (n, kind) = encoder.partial(&buffer, &header, offset as u32, true).unwrap();
    let block = encoder.block(n).to_vec();
    let w = deliver(&mut sender, &mut target, &mut local, &block, kind, 100);
    assert_eq!(w.applied, Applied::NoSessionInfo);
    assert!(w.resync && !w.first_data && w.transit_us.is_none());
    assert_eq!(local, vec![0u8; 600]);

    // The session info arrives with the status zeroed.
    let n = encoder.session_info(&map, 266).unwrap();
    let block = encoder.block(n).to_vec();
    let w = deliver(&mut sender, &mut target, &mut local, &block, FrameKind::SessionInfo, 200);
    assert_eq!(w.applied, Applied::SessionInfo(266));
    assert!(w.first_data && !w.resync);
    assert_eq!(w.transit_us, Some(5));
    assert_eq!(target.source_us(), 11);
    assert_eq!(target.message_len(), n);
    assert_eq!(&local[4..8], &[0, 0, 0, 0]);
    assert_eq!(&local[8..266], &map[8..266]);
    assert_eq!(&local[266..], &vec![0u8; 334][..]);

    // Then the buffers, as a keyframe first and as deltas after that. A reader
    // finds the newest one as it would in the source's map, and each makes a row.
    for i in 0..6 {
        let map = ring_map(1, 20 + i);
        let (offset, buffer, header) = buffer_and_header(&map);
        let (n, kind) = encoder.partial(&buffer, &header, offset as u32, true).unwrap();
        assert_eq!(matches!(kind, FrameKind::Key(300)), i == 0);
        let block = encoder.block(n).to_vec();
        let w = deliver(&mut sender, &mut target, &mut local, &block, kind, 300);
        assert_eq!(w.applied, Applied::Partial(152));
        assert!(!w.first_data);
        assert_eq!(local[..266], map[..266]);
        assert_eq!(active_varbuf(&local), active_varbuf(&map));
        assert_eq!(active_var_buf(&local), Some((offset, 40)));
        assert_eq!(&local[offset..offset + 40], &buffer[..]);
        assert_eq!(&local[4..8], &[1, 0, 0, 0]);
        if i == 0 {
            recorder.start_session(MapLayout::parse(&local).unwrap(), 0);
        }
        assert_eq!(recorder.append_row(&local), Some(&buffer[..]));
        assert_eq!(recorder.append_row(&local), None);
    }
    assert_eq!(target.dropped(), 0);
    assert_eq!(target.fragment_count(), 1);

    // The session changed, and its session info is lost.
    let map = ring_map(2, 30);
    let (offset, buffer, header) = buffer_and_header(&map);
    encoder.session_info(&map, 266).unwrap();
    let (n, kind) = encoder.partial(&buffer, &header, offset as u32, true).unwrap();
    let block = encoder.block(n).to_vec();
    let before = local.clone();
    let w = deliver(&mut sender, &mut target, &mut local, &block, kind, 400);
    assert_eq!(w.applied, Applied::NoSessionInfo);
    assert!(w.resync);
    assert_eq!(local, before);
}

#[test]
fn frames_too_long_for_the_encoder_are_refused() {
    let mut encoder = FrameEncoder::new(200, 60);
    let header = [0u8; IRSDK_HEADER_SIZE];
    assert!(encoder.session_info(&[0u8; 201], 201).is_none());
    assert!(encoder.partial(&[0u8; 89], &header, 0, false).is_none());
    assert!(encoder.partial(&[0u8; 88], &header, 0, false).is_some());
}

/// A partial frame: eight bytes of a buffer, and a header of 7s with a status.
fn small_body(fill: u8, status: u8) -> Vec<u8> {
    let mut body = vec![fill; 8];
    let mut header = vec![7u8; IRSDK_HEADER_SIZE];
    header[4..8].copy_from_slice(&[status, 0, 0, 0]);
    body.extend_from_slice(&header);
    body
}

#[test]
fn frames_past_the_end_of_the_map_are_refused() {
    let mut w = MapWriter::new();
    let mut map = vec![0u8; 200];
    let body = small_body(1, 1);
    assert_eq!(w.apply_frame(&mut map, &[1u8; 201], FrameKind::SessionInfo), Applied::OutOfBounds);
    assert_eq!(w.apply_frame(&mut map, &body, FrameKind::Key(0)), Applied::NoSessionInfo);
    let info = [7u8; 120];
    assert_eq!(w.apply_frame(&mut map, &info, FrameKind::SessionInfo), Applied::SessionInfo(120));
    assert_eq!(w.apply_frame(&mut map, &body, FrameKind::Key(193)), Applied::OutOfBounds);
    assert_eq!(w.apply_frame(&mut map, &body, FrameKind::Delta(u32::MAX / 2)), Applied::OutOfBounds);
    assert_eq!(w.apply_frame(&mut map, &body[..111], FrameKind::Key(150)), Applied::Malformed);
    assert_eq!(map[..120], [7u8; 120]);
    assert_eq!(map[120..], [0u8; 80]);
    // A header of another session.
    let mut other = body.clone();
    other[8 + 12] = 9;
    assert_eq!(w.apply_frame(&mut map, &other, FrameKind::Key(192)), Applied::NoSessionInfo);
    assert_eq!(map[120..], [0u8; 80]);

    assert_eq!(w.apply_frame(&mut map, &body, FrameKind::Delta(192)), Applied::Partial(120));
    assert_eq!(map[192..], [1u8; 8]);
    assert_eq!(map[4..8], [1, 0, 0, 0]);
    let delta: Vec<u8> = small_body(2, 1).iter().zip(&body).map(|(a, b)| a ^ b).collect();
    assert_eq!(w.apply_frame(&mut map, &delta, FrameKind::Delta(192)), Applied::Partial(120));
    assert_eq!(map[192..], [2u8; 8]);
    // The status is the source's.
    assert_eq!(w.apply_frame(&mut map, &small_body(2, 0), FrameKind::Key(192)), Applied::Partial(120));
    assert_eq!(map[4..8], [0, 0, 0, 0]);
    w.reset();
    assert_eq!(w.apply_frame(&mut map, &body, FrameKind::Key(192)), Applied::NoSessionInfo);
}

#[test]
fn keyframes_can_be_repeated_and_deltas_cannot() {
    let mut w = MapWriter::new();
    let mut map = vec![0u8; 160];
    let info = [7u8; 120];
    w.apply_frame(&mut map, &info, FrameKind::SessionInfo);
    let once = map.clone();
    w.apply_frame(&mut map, &info, FrameKind::SessionInfo);
    assert_eq!(map, once);
    let body = small_body(5, 1);
    w.apply_frame(&mut map, &body, FrameKind::Key(140));
    let once = map.clone();
    w.apply_frame(&mut map, &body, FrameKind::Key(140));
    assert_eq!(map, once);
    let mut delta = vec![0u8; 120];
    delta[0] = 3;
    assert_eq!(w.apply_frame(&mut map, &delta, FrameKind::Delta(140)), Applied::Partial(120));
    let once = map.clone();
    w.apply_frame(&mut map, &delta, FrameKind::Delta(140));
    assert_ne!(map, once);
}

#[test]
fn delta_tags_are_past_the_end_of_a_map() {
    assert!(tag(FrameKind::Delta(0)) as usize >= teleport::telemetry::MAX_TELEMETRY_SIZE);
}

#[test]
fn malformed_message_is_discarded() {
    let mut sender = Sender::new();
    let mut target = TargetSession::new(StalePolicy::close_after(10), 2000, 0);
    let mut local = vec![3u8; 100];
    let w = deliver(&mut sender, &mut target, &mut local, &[0xf0], FrameKind::SessionInfo, 1);
    assert_eq!(w.applied, Applied::Malformed);
    assert!(!w.resync && !w.first_data);
    assert_eq!(local, vec![3u8; 100]);
}

#[test]
fn map_is_closed_after_the_stale_timeout() {
    let mut c = TargetClock::new(StalePolicy::close_after(10), 0);
    assert!(!c.on_silence(SEC * 100).close_map);
    c.map_open = true;
    let d = c.on_written(SEC);
    assert!(d.first_data && d.transit_us.is_none());
    assert!(!c.on_written(SEC).first_data);
    let s = c.on_silence(SEC * 11 - 1);
    assert!(!s.zero_map && !s.close_map && !s.stale);
    let s = c.on_silence(SEC * 11);
    assert!(!s.zero_map && s.close_map && s.stale);
    let s = c.on_silence(SEC * 12);
    assert!(!s.close_map && !s.stale);
    // Data is announced anew.
    c.map_open = true;
    assert!(c.on_written(SEC * 20).first_data);
}

#[test]
fn map_is_zeroed_first_with_two_stages() {
    let mut c = TargetClock::new(StalePolicy::two_stage(), 0);
    c.map_open = true;
    c.on_written(0);
    let s = c.on_silence(SEC * 30 - 1);
    assert!(!s.zero_map && !s.stale);
    let s = c.on_silence(SEC * 30);
    assert!(s.zero_map && !s.close_map && s.stale);
    let s = c.on_silence(SEC * 31);
    assert!(!s.zero_map && !s.stale);
    let s = c.on_silence(SEC * 60);
    assert!(s.close_map && !s.stale);
    // Data that comes back in time keeps the map.
    let mut c = TargetClock::new(StalePolicy::two_stage(), 0);
    c.map_open = true;
    c.on_written(0);
    assert!(c.on_silence(SEC * 40).stale);
    assert!(c.on_written(SEC * 41).first_data);
    let s = c.on_silence(SEC * 61);
    assert!(!s.close_map && !s.zero_map);
}

#[test]
fn heartbeats_keep_the_map_open() {
    let mut sender = Sender::new();
    let mut beat = Vec::new();
    sender
        .send_heartbeat(|d: &[u8]| {
            beat = d.to_vec();
            Ok::<(), ()>(())
        })
        .unwrap();
    let mut target = TargetSession::new(StalePolicy::close_after(10), 2000, 0);
    target.map_created();
    let a = target.on_datagram(&beat, SEC * 9);
    assert!(a.heartbeat && !a.message && !a.create_map);
    assert!(!target.on_silence(SEC * 18).close_map);
    assert!(target.on_silence(SEC * 19).close_map);
}

#[test]
fn zeroed_map_holds_zeros() {
    let mut map = vec![1u8, 2, 3];
    zero_map(&mut map);
    assert_eq!(map, vec![0u8, 0, 0]);
}
