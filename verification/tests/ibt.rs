use teleport::ibt_writer::{
    build_prefix, file_name, find_var, later, subheader_bytes, Closing, IbtWriter, MapLayout,
    Update, IRSDK_VER, STATUS_CONNECTED, VH_NAME_LEN, VH_NAME_OFF,
};
use teleport::irsdk::{
    IRSDK_HEADER_SIZE, OFF_BUFLEN, OFF_NUMBUF, OFF_NUMVARS, OFF_SESSIONINFOLEN,
    OFF_SESSIONINFOOFFSET, OFF_SESSIONINFOUPDATE, OFF_STATUS, OFF_TICKRATE, OFF_VARBUF,
    OFF_VARHEADEROFFSET, OFF_VER, VARHEADER_SIZE,
};
use teleport::wire::rd_i32;

// Field offsets in a sample row for the synthetic map.
const ST_OFF: usize = 0; // SessionTime (double)  bytes 0..8
const LAP_OFF: usize = 8; // Lap (int)             bytes 8..12
const SPD_OFF: usize = 12; // Speed (float)        bytes 12..16
const SYN_BUFLEN: usize = 16;
const SYN_NUMVARS: usize = 3;

fn put(map: &mut [u8], off: usize, v: i32) {
    map[off..off + 4].copy_from_slice(&v.to_le_bytes());
}

/// One variable descriptor (144 bytes).
fn varheader(vtype: i32, row_off: i32, name: &str) -> Vec<u8> {
    let mut v = vec![0u8; VARHEADER_SIZE];
    put(&mut v, 0, vtype);
    put(&mut v, 4, row_off);
    put(&mut v, 8, 1);
    let nb = name.as_bytes();
    v[VH_NAME_OFF..VH_NAME_OFF + nb.len()].copy_from_slice(nb);
    v
}

/// A synthetic live map with one buffer slot that holds `row`.
fn synth_map(yaml: &[u8], tick: i32, row: &[u8]) -> Vec<u8> {
    let vh_off = IRSDK_HEADER_SIZE;
    let si_off = vh_off + SYN_NUMVARS * VARHEADER_SIZE;
    let buf_off = si_off + yaml.len();
    let mut map = vec![0u8; buf_off + SYN_BUFLEN];
    put(&mut map, OFF_VER, IRSDK_VER);
    put(&mut map, OFF_STATUS, STATUS_CONNECTED);
    put(&mut map, OFF_TICKRATE, 60);
    put(&mut map, OFF_SESSIONINFOLEN, yaml.len() as i32);
    put(&mut map, OFF_SESSIONINFOOFFSET, si_off as i32);
    put(&mut map, OFF_NUMVARS, SYN_NUMVARS as i32);
    put(&mut map, OFF_VARHEADEROFFSET, vh_off as i32);
    put(&mut map, OFF_NUMBUF, 1);
    put(&mut map, OFF_BUFLEN, SYN_BUFLEN as i32);
    put(&mut map, OFF_VARBUF, tick);
    put(&mut map, OFF_VARBUF + 4, buf_off as i32);
    let mut p = vh_off;
    for vh in [
        varheader(5, ST_OFF as i32, "SessionTime"),
        varheader(2, LAP_OFF as i32, "Lap"),
        varheader(4, SPD_OFF as i32, "Speed"),
    ] {
        map[p..p + VARHEADER_SIZE].copy_from_slice(&vh);
        p += VARHEADER_SIZE;
    }
    map[si_off..si_off + yaml.len()].copy_from_slice(yaml);
    map[buf_off..buf_off + SYN_BUFLEN].copy_from_slice(row);
    map
}

fn make_row(session_time: f64, lap: i32, speed: f32) -> Vec<u8> {
    let mut r = vec![0u8; SYN_BUFLEN];
    r[ST_OFF..ST_OFF + 8].copy_from_slice(&session_time.to_le_bytes());
    r[LAP_OFF..LAP_OFF + 4].copy_from_slice(&lap.to_le_bytes());
    r[SPD_OFF..SPD_OFF + 4].copy_from_slice(&speed.to_le_bytes());
    r
}

/// A file in memory, written as the writer asks.
fn close(file: &mut Vec<u8>, closing: &Closing) {
    put(file, OFF_VARBUF, closing.final_tick);
    file[IRSDK_HEADER_SIZE..IRSDK_HEADER_SIZE + 32].copy_from_slice(&closing.subheader);
}

/// Hands the map to the writer and does what it asks. Returns the file that
/// was closed, if one was.
fn feed(w: &mut IbtWriter, file: &mut Vec<u8>, map: &[u8], start_date: i64) -> Option<Vec<u8>> {
    let mut closed = None;
    match w.on_map_update(map) {
        Update::Ignored => return None,
        Update::Append => {}
        Update::Start(layout) => {
            *file = build_prefix(map, &layout, start_date);
            w.start_session(layout, start_date);
        }
        Update::Roll(closing, layout) => {
            close(file, &closing);
            closed = Some(file.clone());
            *file = build_prefix(map, &layout, start_date);
            w.start_session(layout, start_date);
        }
    }
    if let Some(row) = w.append_row(map) {
        file.extend_from_slice(row);
        w.row_written(row);
    }
    closed
}

#[test]
fn synthetic_roundtrip() {
    let yaml = b"---\nWeekendInfo:\n TrackName: testtrack\n...\n";

    // Drive 5 ticks: SessionTime climbs, Lap goes 1,1,2,2,3 (=> 3 laps seen).
    let rows = [
        make_row(100.0, 1, 10.0),
        make_row(100.5, 1, 20.0),
        make_row(101.0, 2, 30.0),
        make_row(101.5, 2, 40.0),
        make_row(102.0, 3, 50.0),
    ];

    let mut w = IbtWriter::new();
    let mut data = Vec::new();
    for (i, row) in rows.iter().enumerate() {
        let map = synth_map(yaml, i as i32 + 1, row);
        // Feed the frame twice to prove tick-dedup (no double rows).
        assert!(feed(&mut w, &mut data, &map, 1_700_000_000).is_none());
        assert!(feed(&mut w, &mut data, &map, 1_700_000_000).is_none());
    }
    let closing = w.finish().unwrap();
    close(&mut data, &closing);

    // ── header checks ──
    assert_eq!(rd_i32(&data, OFF_VER), IRSDK_VER);
    assert_eq!(rd_i32(&data, OFF_STATUS), STATUS_CONNECTED);
    assert_eq!(rd_i32(&data, OFF_TICKRATE), 60);
    assert_eq!(rd_i32(&data, OFF_NUMVARS), SYN_NUMVARS as i32);
    assert_eq!(rd_i32(&data, OFF_BUFLEN), SYN_BUFLEN as i32);
    assert_eq!(rd_i32(&data, OFF_NUMBUF), 1);
    assert_eq!(rd_i32(&data, OFF_VARHEADEROFFSET), 144);
    let si_off = rd_i32(&data, OFF_SESSIONINFOOFFSET) as usize;
    let si_len = rd_i32(&data, OFF_SESSIONINFOLEN) as usize;
    assert_eq!(si_off, 144 + SYN_NUMVARS * VARHEADER_SIZE);
    assert_eq!(si_len, yaml.len());
    let buf_off = rd_i32(&data, OFF_VARBUF + 4) as usize;
    assert_eq!(buf_off, si_off + si_len);

    // ── layout integrity: file is prefix + N*bufLen, exactly ──
    let sample_area = data.len() - buf_off;
    assert_eq!(sample_area % SYN_BUFLEN, 0);
    assert_eq!(sample_area / SYN_BUFLEN, rows.len());

    // ── YAML copied verbatim ──
    assert_eq!(&data[si_off..si_off + si_len], yaml);

    // ── subheader derived correctly ──
    let start_date = i64::from_le_bytes(data[112..120].try_into().unwrap());
    let start_t = f64::from_le_bytes(data[120..128].try_into().unwrap());
    let end_t = f64::from_le_bytes(data[128..136].try_into().unwrap());
    let laps = rd_i32(&data, 136);
    let records = rd_i32(&data, 140);
    assert_eq!(start_date, 1_700_000_000);
    assert_eq!(start_t, 100.0);
    assert_eq!(end_t, 102.0);
    assert_eq!(records, rows.len() as i32);
    assert_eq!(laps, 3);

    // ── sample rows byte-identical and in order ──
    for (i, row) in rows.iter().enumerate() {
        let s = buf_off + i * SYN_BUFLEN;
        assert_eq!(&data[s..s + SYN_BUFLEN], row.as_slice(), "row {i} mismatch");
    }

    // ── the tick of the last row ──
    assert_eq!(rd_i32(&data, OFF_VARBUF), 5);
    assert_eq!((closing.record_count, closing.lap_count), (5, 3));
}

#[test]
fn descriptors_are_copied_verbatim() {
    let map = synth_map(b"x", 1, &make_row(0.0, 0, 0.0));
    let layout = MapLayout::parse(&map).unwrap();
    let prefix = build_prefix(&map, &layout, -1);
    let vh = SYN_NUMVARS * VARHEADER_SIZE;
    assert_eq!(prefix.len(), 144 + vh + 1);
    assert_eq!(&prefix[144..144 + vh], &map[112..112 + vh]);
    assert_eq!(&prefix[112..120], &[0xff; 8]);
    assert_eq!(&prefix[120..144], &[0u8; 24]);
    assert_eq!(&prefix[40..52], &[0u8; 12]);
    assert_eq!(&prefix[56..112], &[0u8; 56]);
}

#[test]
fn missing_version_and_tick_rate_are_filled_in() {
    let mut map = synth_map(b"x", 1, &make_row(0.0, 0, 0.0));
    put(&mut map, OFF_VER, 0);
    put(&mut map, OFF_TICKRATE, 0);
    let layout = MapLayout::parse(&map).unwrap();
    let prefix = build_prefix(&map, &layout, 0);
    assert_eq!(rd_i32(&prefix, OFF_VER), 2);
    assert_eq!(rd_i32(&prefix, OFF_TICKRATE), 60);
}

#[test]
fn unpopulated_maps_are_ignored() {
    let good = synth_map(b"yaml", 1, &make_row(0.0, 0, 0.0));
    assert!(MapLayout::parse(&good).is_some());
    assert!(MapLayout::parse(&good[..111]).is_none());
    for (off, v) in [
        (OFF_STATUS, 2),
        (OFF_NUMVARS, 0),
        (OFF_NUMVARS, -1),
        (OFF_BUFLEN, 0),
        (OFF_SESSIONINFOLEN, 0),
        (OFF_SESSIONINFOLEN, -4),
        (OFF_SESSIONINFOLEN, 1_000_000),
        (OFF_SESSIONINFOOFFSET, -10),
        (OFF_VARHEADEROFFSET, -144),
        (OFF_VARHEADEROFFSET, 1_000_000),
    ] {
        let mut map = good.clone();
        put(&mut map, off, v);
        assert!(MapLayout::parse(&map).is_none(), "field {off} = {v}");
        let mut w = IbtWriter::new();
        assert!(matches!(w.on_map_update(&map), Update::Ignored));
        assert!(w.open.is_none());
    }
}

#[test]
fn session_change_rolls_the_file() {
    let mut w = IbtWriter::new();
    let mut file = Vec::new();
    let map = synth_map(b"one", 7, &make_row(1.0, 1, 0.0));
    assert!(feed(&mut w, &mut file, &map, 10).is_none());
    let mut map = synth_map(b"three", 8, &make_row(9.0, 4, 0.0));
    put(&mut map, OFF_SESSIONINFOUPDATE, 3);
    let first = feed(&mut w, &mut file, &map, 20).unwrap();
    assert_eq!(rd_i32(&first, OFF_VARBUF), 7);
    assert_eq!(rd_i32(&first, 140), 1);
    let closing = w.finish().unwrap();
    close(&mut file, &closing);
    assert_eq!(rd_i32(&file, OFF_SESSIONINFOUPDATE), 3);
    assert_eq!(rd_i32(&file, OFF_VARBUF), 8);
    assert_eq!(i64::from_le_bytes(file[112..120].try_into().unwrap()), 20);
    assert!(w.finish().is_none());
}

#[test]
fn a_buffer_outside_the_map_is_passed_over() {
    let mut w = IbtWriter::new();
    let mut file = Vec::new();
    for bad in [-1, 1_000_000] {
        let mut map = synth_map(b"x", 1 + bad, &make_row(0.0, 0, 0.0));
        put(&mut map, OFF_VARBUF + 4, bad);
        assert!(feed(&mut w, &mut file, &map, 0).is_none());
    }
    let closing = w.finish().unwrap();
    assert_eq!(closing.record_count, 0);
    assert_eq!(closing.final_tick, 0);
}

#[test]
fn a_row_that_could_not_be_written_is_not_counted() {
    let mut w = IbtWriter::new();
    let map = synth_map(b"x", 1, &make_row(0.0, 0, 0.0));
    let layout = MapLayout::parse(&map).unwrap();
    w.start_session(layout, 0);
    assert!(w.append_row(&map).is_some());
    assert!(w.append_row(&map).is_none());
    assert_eq!(w.open.unwrap().record_count, 0);
    assert_eq!(w.open.unwrap().last_tick, 1);
}

#[test]
fn variables_are_found_by_their_whole_name() {
    let map = synth_map(b"x", 1, &make_row(0.0, 0, 0.0));
    assert_eq!(find_var(&map, IRSDK_HEADER_SIZE, SYN_NUMVARS, "Lap"), Some((8, 2)));
    assert_eq!(find_var(&map, IRSDK_HEADER_SIZE, SYN_NUMVARS, "SessionTime"), Some((0, 5)));
    assert_eq!(find_var(&map, IRSDK_HEADER_SIZE, SYN_NUMVARS, "Session"), None);
    assert_eq!(find_var(&map, IRSDK_HEADER_SIZE, SYN_NUMVARS, "Laps"), None);
    // Only the descriptors that are asked for, and only inside the map.
    assert_eq!(find_var(&map, IRSDK_HEADER_SIZE, 1, "Lap"), None);
    assert_eq!(find_var(&map, usize::MAX - 3, SYN_NUMVARS, "Lap"), None);
    // A name may fill its field.
    let long = "abcdefghijklmnopqrstuvwxyz012345";
    assert_eq!(long.len(), VH_NAME_LEN);
    let vh = varheader(1, 77, long);
    assert_eq!(find_var(&vh, 0, 1, long), Some((77, 1)));
    assert_eq!(find_var(&vh, 0, 1, &long[..31]), None);
}

#[test]
fn times_are_ordered_like_doubles() {
    let values = [
        f64::NEG_INFINITY,
        -1.5,
        -0.0,
        0.0,
        f64::MIN_POSITIVE,
        1.0,
        1.0000000001,
        f64::INFINITY,
        f64::NAN,
        -f64::NAN,
    ];
    for a in values {
        for b in values {
            assert_eq!(later(a.to_bits(), b.to_bits()), a > b, "{a} > {b}");
        }
    }
}

#[test]
fn end_time_never_goes_back() {
    let mut w = IbtWriter::new();
    let mut file = Vec::new();
    for (i, t) in [5.0, 3.0, 8.5, 8.0].iter().enumerate() {
        let map = synth_map(b"x", i as i32, &make_row(*t, 5 - i as i32, 0.0));
        feed(&mut w, &mut file, &map, 0);
    }
    let open = w.open.unwrap();
    assert_eq!(f64::from_bits(open.start_time), 5.0);
    assert_eq!(f64::from_bits(open.end_time), 8.5);
    // Only the first row began a lap: the others are on lower ones.
    assert_eq!(open.lap_count, 1);
    assert_eq!(open.last_lap, 5);
}

#[test]
fn subheader_has_its_fields_in_order() {
    let s = subheader_bytes(1, 2, 3, 4, -1);
    let mut expected = Vec::new();
    expected.extend_from_slice(&1i64.to_le_bytes());
    expected.extend_from_slice(&2u64.to_le_bytes());
    expected.extend_from_slice(&3u64.to_le_bytes());
    expected.extend_from_slice(&4i32.to_le_bytes());
    expected.extend_from_slice(&(-1i32).to_le_bytes());
    assert_eq!(s, expected);
}

#[test]
fn file_names_are_numbered() {
    assert_eq!(file_name(1_700_000_000, 0).unwrap(), "telemetry_1700000000.ibt");
    assert_eq!(file_name(1_700_000_000, 1).unwrap(), "telemetry_1700000000_01.ibt");
    assert_eq!(file_name(0, 42).unwrap(), "telemetry_0_42.ibt");
    assert_eq!(file_name(i64::MIN, 99).unwrap(), "telemetry_-9223372036854775808_99.ibt");
    assert!(file_name(0, 100).is_none());
}

#[test]
fn a_tick_that_went_back_adds_no_row() {
    let mut w = IbtWriter::new();
    let mut file = Vec::new();
    feed(&mut w, &mut file, &synth_map(b"x", 5, &make_row(1.0, 1, 0.0)), 0);
    let len = file.len();
    for tick in [3, 5, i32::MIN] {
        feed(&mut w, &mut file, &synth_map(b"x", tick, &make_row(9.0, 9, 0.0)), 0);
    }
    assert_eq!(file.len(), len);
    assert_eq!(w.open.unwrap().record_count, 1);
    assert_eq!(w.open.unwrap().last_tick, 5);
    feed(&mut w, &mut file, &synth_map(b"x", 6, &make_row(2.0, 1, 0.0)), 0);
    assert_eq!(file.len(), len + SYN_BUFLEN);
    assert_eq!(w.open.unwrap().record_count, 2);
}

#[test]
fn a_prefix_is_rebuilt_from_itself() {
    let mut map = synth_map(b"yaml: yes", 4, &make_row(0.0, 0, 0.0));
    put(&mut map, OFF_VER, 0);
    let layout = MapLayout::parse(&map).unwrap();
    let prefix = build_prefix(&map, &layout, 77);
    let disk = MapLayout::parse(&prefix).unwrap();
    assert_eq!((disk.ver, disk.vh_off, disk.si_off), (IRSDK_VER, 144, 144 + 3 * 144));
    assert_eq!((disk.num_vars, disk.si_len, disk.buf_len), (3, 9, 16));
    assert_eq!((disk.session_time_row_off, disk.lap_row_off), (Some(0), Some(8)));
    assert_eq!(build_prefix(&prefix, &disk, 77), prefix);
}
