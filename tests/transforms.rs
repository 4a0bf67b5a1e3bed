use pcap_editor::augment::pcap_augment_timed;
use pcap_editor::dilute::pcap_dilute_timed;
use pcap_editor::factor::{parse_factor, Factor};
use pcap_editor::record::{CaptureRecord, EditError};
use pcap_editor::timescale::{pcap_time_compressor, pcap_time_dilator};

fn at_micros(t: u64, tag: u8) -> CaptureRecord {
    CaptureRecord {
        ts_sec: (t / 1_000_000) as u32,
        ts_usec: (t % 1_000_000) as u32,
        incl_len: 1,
        orig_len: 60,
        data: vec![tag],
    }
}

fn micros(r: &CaptureRecord) -> u64 {
    r.ts_sec as u64 * 1_000_000 + r.ts_usec as u64
}

fn tags(s: &[CaptureRecord]) -> Vec<u8> {
    s.iter().map(|r| r.data[0]).collect()
}

#[test]
fn compress_divides_offsets_and_rounds_half_away_from_zero() {
    let base = 10_500_000;
    let s = vec![
        at_micros(base, 0),
        at_micros(base + 1_000_000, 1),
        at_micros(base + 3, 2),
        at_micros(base - 3, 3),
        at_micros(base + 2_999_999, 4),
    ];
    let out = pcap_time_compressor(&s, Factor { num: 2, den: 1 }).unwrap();
    assert_eq!(out.len(), s.len());
    let times: Vec<u64> = out.iter().map(micros).collect();
    assert_eq!(times, vec![base, base + 500_000, base + 2, base - 2, base + 1_500_000]);
    assert_eq!(tags(&out), tags(&s));
    assert!(out.iter().all(|r| r.ts_usec < 1_000_000 && r.orig_len == 60 && r.incl_len == 1));
    assert_eq!(out[0].ts_sec, 10);
    assert_eq!(out[0].ts_usec, 500_000);
}

#[test]
fn compress_rejects_bad_factor_and_empty_stream() {
    let s = vec![at_micros(0, 0)];
    assert_eq!(pcap_time_compressor(&s, Factor { num: 1, den: 1 }).err(), Some(EditError::InvalidParameter));
    assert_eq!(pcap_time_compressor(&s, Factor { num: 1, den: 2 }).err(), Some(EditError::InvalidParameter));
    assert_eq!(pcap_time_compressor(&s, Factor { num: 3, den: 0 }).err(), Some(EditError::InvalidParameter));
    assert_eq!(pcap_time_compressor(&Vec::new(), Factor { num: 3, den: 2 }).err(), Some(EditError::EmptyStream));
    let one = pcap_time_compressor(&s, Factor { num: 3, den: 2 }).unwrap();
    assert_eq!(one.len(), 1);
    assert_eq!(micros(&one[0]), 0);
}

#[test]
fn stretch_multiplies_offsets() {
    let s = vec![at_micros(2_000_000, 0), at_micros(2_000_001, 1), at_micros(3_000_000, 2)];
    let out = pcap_time_dilator(&s, Factor { num: 3, den: 2 }).unwrap();
    let times: Vec<u64> = out.iter().map(micros).collect();
    assert_eq!(times, vec![2_000_000, 2_000_002, 3_500_000]);
    assert_eq!(tags(&out), vec![0, 1, 2]);
    let shrink = pcap_time_dilator(&s, Factor { num: 1, den: 4 }).unwrap();
    let times: Vec<u64> = shrink.iter().map(micros).collect();
    assert_eq!(times, vec![2_000_000, 2_000_000, 2_250_000]);
}

#[test]
fn stretch_rejects_bad_factor_and_out_of_range_result() {
    let s = vec![at_micros(10_000_000, 0), at_micros(0, 1)];
    assert_eq!(pcap_time_dilator(&s, Factor { num: 0, den: 1 }).err(), Some(EditError::InvalidParameter));
    assert_eq!(pcap_time_dilator(&s, Factor { num: 1, den: 0 }).err(), Some(EditError::InvalidParameter));
    assert_eq!(pcap_time_dilator(&Vec::new(), Factor { num: 2, den: 1 }).err(), Some(EditError::EmptyStream));
    assert_eq!(pcap_time_dilator(&s, Factor { num: 2, den: 1 }).err(), Some(EditError::TimestampOutOfRange));
    let late = vec![at_micros(0, 0), at_micros(u32::MAX as u64 * 1_000_000, 1)];
    assert_eq!(pcap_time_dilator(&late, Factor { num: 2, den: 1 }).err(), Some(EditError::TimestampOutOfRange));
}

#[test]
fn compress_then_stretch_comes_back_within_one_microsecond() {
    let s: Vec<CaptureRecord> = (0..50u64).map(|k| at_micros(7_000_000 + k * k * 37 + k, k as u8)).collect();
    let f = parse_factor(b"2.7").unwrap();
    let there = pcap_time_compressor(&s, f).unwrap();
    let back = pcap_time_dilator(&there, f).unwrap();
    assert_eq!(back.len(), s.len());
    for (a, b) in s.iter().zip(back.iter()) {
        let (x, y) = (micros(a), micros(b));
        assert!(x.abs_diff(y) <= 1, "{} vs {}", x, y);
    }
}

#[test]
fn large_factor_round_trip_can_drift() {
    let s = vec![at_micros(0, 0), at_micros(2, 1)];
    let f = Factor { num: 4, den: 1 };
    let back = pcap_time_dilator(&pcap_time_compressor(&s, f).unwrap(), f).unwrap();
    assert_eq!(micros(&back[1]), 4);
}

#[test]
fn dilute_keeps_nearest_records_to_even_instants() {
    let s: Vec<CaptureRecord> = (0..10u64).map(|k| at_micros(k * 1_000_000, k as u8)).collect();
    let out = pcap_dilute_timed(&s, 2).unwrap();
    assert_eq!(tags(&out), vec![0, 2, 4, 5, 7]);
    assert_eq!(micros(&out[3]), 5_000_000);
    let out = pcap_dilute_timed(&s, 3).unwrap();
    assert_eq!(out.len(), 3);
    let out = pcap_dilute_timed(&s, 10).unwrap();
    assert_eq!(tags(&out), vec![0]);
}

#[test]
fn dilute_leaves_a_record_for_every_later_instant() {
    let times = [0u64, 0, 0, 0, 0, 0, 0, 0, 19, 100];
    let s: Vec<CaptureRecord> = times.iter().enumerate().map(|(k, t)| at_micros(*t, k as u8)).collect();
    let out = pcap_dilute_timed(&s, 2).unwrap();
    assert_eq!(tags(&out), vec![0, 1, 2, 8, 9]);
}

#[test]
fn dilute_rejects_bad_input() {
    let s: Vec<CaptureRecord> = (0..3u64).map(|k| at_micros(k, k as u8)).collect();
    assert_eq!(pcap_dilute_timed(&s, 1).err(), Some(EditError::InvalidParameter));
    assert_eq!(pcap_dilute_timed(&s, 0).err(), Some(EditError::InvalidParameter));
    assert_eq!(pcap_dilute_timed(&s, 4).err(), Some(EditError::InsufficientPackets));
    assert_eq!(pcap_dilute_timed(&Vec::new(), 2).err(), Some(EditError::EmptyStream));
}

#[test]
fn augment_spreads_copies_evenly_over_the_span() {
    let s = vec![at_micros(1_000_000, 7), at_micros(2_000_000, 9)];
    let out = pcap_augment_timed(&s, 2).unwrap();
    assert_eq!(out.len(), 4);
    assert_eq!(tags(&out), vec![7, 9, 7, 9]);
    let times: Vec<u64> = out.iter().map(micros).collect();
    assert_eq!(times, vec![1_000_000, 1_333_333, 1_666_666, 2_000_000]);
    assert!(out.iter().all(|r| r.ts_usec < 1_000_000));
}

#[test]
fn augment_keeps_the_whole_span() {
    let s = vec![at_micros(0, 1), at_micros(1997, 2)];
    let out = pcap_augment_timed(&s, 1000).unwrap();
    assert_eq!(out.len(), 2000);
    assert_eq!(micros(&out[0]), 0);
    assert_eq!(micros(&out[1999]), 1997);
    for w in out.windows(2) {
        let gap = micros(&w[1]) - micros(&w[0]);
        assert!(gap <= 1);
    }
    let s = vec![at_micros(10, 1), at_micros(20, 2), at_micros(40, 3)];
    let out = pcap_augment_timed(&s, 2).unwrap();
    let times: Vec<u64> = out.iter().map(micros).collect();
    assert_eq!(times, vec![10, 16, 22, 28, 34, 40]);
    assert_eq!(tags(&out), vec![1, 2, 3, 1, 2, 3]);
}

#[test]
fn augment_of_one_record_repeats_it_at_one_instant() {
    let s = vec![at_micros(5, 3)];
    let out = pcap_augment_timed(&s, 3).unwrap();
    assert_eq!(tags(&out), vec![3, 3, 3]);
    assert!(out.iter().all(|r| micros(r) == 5));
}

#[test]
fn augment_rejects_bad_input() {
    let s = vec![at_micros(5, 3)];
    assert_eq!(pcap_augment_timed(&s, 1).err(), Some(EditError::InvalidParameter));
    assert_eq!(pcap_augment_timed(&Vec::new(), 2).err(), Some(EditError::EmptyStream));
    let odd = vec![CaptureRecord { ts_sec: u32::MAX, ts_usec: 2_000_000, incl_len: 0, orig_len: 0, data: Vec::new() }];
    assert_eq!(pcap_augment_timed(&odd, 2).err(), Some(EditError::TimestampOutOfRange));
}

#[test]
fn factor_text_is_read_exactly() {
    assert_eq!(parse_factor(b"2.5"), Some(Factor { num: 25, den: 10 }));
    assert_eq!(parse_factor(b"2"), Some(Factor { num: 2, den: 1 }));
    assert_eq!(parse_factor(b".5"), Some(Factor { num: 5, den: 10 }));
    assert_eq!(parse_factor(b"3."), Some(Factor { num: 3, den: 1 }));
    assert_eq!(parse_factor(b"0.125"), Some(Factor { num: 125, den: 1000 }));
    assert_eq!(parse_factor(b"123456789012345678"), Some(Factor { num: 123456789012345678, den: 1 }));
    assert_eq!(parse_factor(b"1234567890123456789"), None);
    assert_eq!(parse_factor(b""), None);
    assert_eq!(parse_factor(b"."), None);
    assert_eq!(parse_factor(b"1.2.3"), None);
    assert_eq!(parse_factor(b"-2"), None);
    assert_eq!(parse_factor(b"2x"), None);
}
