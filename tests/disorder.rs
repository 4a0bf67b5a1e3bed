use pcap_editor::disorder::{detect_pcap_disorder, Violation};
use pcap_editor::record::CaptureRecord;

fn at(sec: u32, usec: u32) -> CaptureRecord {
    CaptureRecord { ts_sec: sec, ts_usec: usec, incl_len: 0, orig_len: 0, data: Vec::new() }
}

#[test]
fn increasing_stream_has_no_violation() {
    let s: Vec<CaptureRecord> = (0..10).map(|k| at(k, k * 10)).collect();
    let r = detect_pcap_disorder(&s, 100, Some(100));
    assert_eq!(r.record_count, 10);
    assert!(r.violations.is_empty());
    assert!(!r.truncated);
}

#[test]
fn one_inserted_record_gives_one_violation() {
    let mut s: Vec<CaptureRecord> = (0..10).map(|k| at(k + 1, 0)).collect();
    s.insert(4, at(2, 500_000));
    let r = detect_pcap_disorder(&s, 0, None);
    assert_eq!(r.record_count, 11);
    assert_eq!(r.violations, vec![Violation { index: 4, delta_micros: 1_500_000 }]);
}

#[test]
fn violations_do_not_stop_the_pass() {
    let s = vec![at(5, 0), at(4, 999_999), at(6, 0), at(1, 0), at(1, 0)];
    let r = detect_pcap_disorder(&s, 0, None);
    assert_eq!(
        r.violations,
        vec![
            Violation { index: 1, delta_micros: 1 },
            Violation { index: 3, delta_micros: 5_000_000 },
        ]
    );
}

#[test]
fn short_read_is_reported_as_truncation() {
    let s = vec![at(1, 0)];
    assert!(detect_pcap_disorder(&s, 40, Some(64)).truncated);
    assert!(!detect_pcap_disorder(&s, 64, Some(64)).truncated);
    assert!(!detect_pcap_disorder(&s, 40, None).truncated);
    let empty: Vec<CaptureRecord> = Vec::new();
    let r = detect_pcap_disorder(&empty, 24, Some(24));
    assert_eq!(r.record_count, 0);
    assert!(r.violations.is_empty());
}
