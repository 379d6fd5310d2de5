use teleport::config::{address, default_target};
use teleport::stats::{percentiles, Stats};
use teleport::telemetry::{
    MockTelemetry, TelemetryError, TelemetryProvider, MAX_TELEMETRY_SIZE,
};
use teleport::text::{append_decimal, wide};
use teleport::{SourceConfig, TargetConfig, DEFAULT_MULTICAST, DEFAULT_PORT};

#[test]
fn percentiles_of_samples() {
    assert_eq!(percentiles(&mut vec![]), (0, 0, 0));
    assert_eq!(percentiles(&mut vec![7]), (7, 7, 7));
    assert_eq!(percentiles(&mut vec![9, 1]), (9, 9, 9));
    let mut samples: Vec<u64> = (1..=200).rev().collect();
    assert_eq!(percentiles(&mut samples), (101, 199, 200));
    assert_eq!(samples[0], 1);
    assert_eq!(samples[199], 200);
}

#[test]
fn statistics_report_every_five_seconds() {
    let mut s = Stats::new("target", 1_000_000);
    assert_eq!(s.name(), "target");
    s.record(100, 5, 10, false);
    s.record(200, 7, 30, false);
    s.record(1000, 50, 0, true);
    s.record(1000, 101, 0, true);
    s.record_encoding(4600, false);
    s.record_encoding(0, true);
    s.record_dropped(2);
    assert!(s.maybe_print(5_999_999).is_none());
    let r = s.maybe_print(6_000_000).unwrap();
    assert_eq!(r.elapsed_us, 5_000_000);
    assert_eq!(r.updates, 4);
    assert_eq!(r.bytes, 2300);
    assert_eq!(r.raw_bytes, 4600);
    assert_eq!(r.partial, (37, 37, 37));
    assert_eq!(r.partial_count, 2);
    assert_eq!(r.delta_count, 1);
    assert_eq!((r.full_count, r.full_avg), (2, 75));
    assert_eq!(r.source, Some((7, 7)));
    assert_eq!(r.dropped, 2);
    // A new window begins, the totals stay.
    let r = s.maybe_print(11_000_000).unwrap();
    assert_eq!((r.updates, r.bytes, r.dropped, r.full_count, r.full_avg), (0, 0, 0, 0, 0));
    assert_eq!(r.partial, (0, 0, 0));
    assert!(r.source.is_none());
    let sum = s.print_summary(21_000_000).unwrap();
    assert_eq!(sum.elapsed_us, 20_000_000);
    assert_eq!(sum.updates, 4);
    assert_eq!(sum.bytes, 2300);
    assert_eq!((sum.avg_us, sum.min_us, sum.max_us), (50, 15, 101));
    assert_eq!(sum.dropped, 2);
}

#[test]
fn source_side_has_no_transit() {
    let mut s = Stats::new("source", 0);
    assert!(s.print_summary(5).is_none());
    s.record(10, 3, 0, false);
    let r = s.maybe_print(5_000_000).unwrap();
    assert!(r.source.is_none());
    assert_eq!(r.partial, (3, 3, 3));
}

#[test]
fn decimal_numbers() {
    for (n, text) in [(0u64, "0"), (9, "9"), (10, "10"), (5000, "5000"), (u64::MAX, "18446744073709551615")] {
        let mut s = String::new();
        append_decimal(&mut s, n);
        assert_eq!(s, text);
    }
}

#[test]
fn wide_names() {
    for name in ["Local\\IRSDKMemMapFileName\0", "", "gr\u{fc}n", "\u{1f3ce}x\u{10ffff}"] {
        let expected: Vec<u16> = name.encode_utf16().collect();
        assert_eq!(wide(name), expected);
    }
}

#[test]
fn default_settings() {
    let s = SourceConfig::default();
    assert_eq!(s.bind, "0.0.0.0:0");
    assert_eq!(s.target, "");
    assert_eq!(s.reconnect_timeout_secs, 10);
    assert_eq!(s.datagram_size, 9000);
    assert_eq!(s.keyframe_interval, 60);
    assert!(!s.unicast && !s.busy_wait && !s.no_delta && s.pin_core.is_none());
    let t = TargetConfig::default();
    assert_eq!(t.bind, "0.0.0.0:5000");
    assert_eq!(t.multicast_group, "239.255.0.1");
    assert_eq!(t.stale_timeout_secs, 10);
    assert!(!t.unicast && !t.write_ibt && !t.fanalab && t.pin_core.is_none());
    assert_eq!(default_target(), "239.255.0.1:5000");
    assert_eq!(address("localhost", 65535), "localhost:65535");
    assert_eq!(DEFAULT_MULTICAST, "239.255.0.1");
    assert_eq!(DEFAULT_PORT, 5000);
}

#[test]
fn mock_map_is_ordinary_memory() {
    assert!(matches!(MockTelemetry::open(), Err(TelemetryError::Unavailable)));
    let mut t = MockTelemetry::create(16).unwrap();
    assert_eq!(t.size(), 16);
    assert_eq!(t.as_slice(), &[0u8; 16]);
    t.as_slice_mut()[3] = 9;
    t.clear_status();
    assert_eq!(t.as_slice()[3], 9);
    assert!(!t.wait_for_data(1));
    assert!(t.signal_data_ready().is_ok());
    assert!(t.active_var_buf().is_none());
    assert_eq!(MAX_TELEMETRY_SIZE, 2 * 1024 * 1024);
}

#[test]
fn errors_have_words() {
    assert_eq!(TelemetryError::Unavailable.message(), "iRacing telemetry not available");
    let e = TelemetryError::Other("SetEvent failed".to_string());
    assert_eq!(e.message(), "SetEvent failed");
}
