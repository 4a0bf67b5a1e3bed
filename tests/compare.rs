use pcap_editor::align::align_fingerprints;
use pcap_editor::compare::{compare_ordered_pcaps, fingerprint, fingerprint_stream};
use pcap_editor::record::CaptureRecord;
use seahash::SeaHasher;
use std::hash::Hasher;

fn rec(sec: u32, payload: &[u8]) -> CaptureRecord {
    CaptureRecord {
        ts_sec: sec,
        ts_usec: 0,
        incl_len: payload.len() as u32,
        orig_len: payload.len() as u32,
        data: payload.to_vec(),
    }
}

fn stream(names: &[&str]) -> Vec<CaptureRecord> {
    names
        .iter()
        .enumerate()
        .map(|(k, n)| rec(k as u32, n.as_bytes()))
        .collect()
}

#[test]
fn removed_record_is_missing() {
    let a = stream(&["A", "B", "C", "D", "E"]);
    let b = stream(&["A", "B", "D", "E"]);
    let r = compare_ordered_pcaps(&a, &b, false);
    assert_eq!(r.missing, vec![2]);
    assert_eq!(a[r.missing[0]].data, b"C".to_vec());
    assert!(r.extra.is_empty());
    assert!(!r.is_identical());
}

#[test]
fn inserted_record_is_extra() {
    let a = stream(&["A", "B", "C"]);
    let b = stream(&["A", "X", "B", "C"]);
    let r = compare_ordered_pcaps(&a, &b, false);
    assert_eq!(r.extra, vec![1]);
    assert_eq!(b[r.extra[0]].data, b"X".to_vec());
    assert!(r.missing.is_empty());
}

#[test]
fn stream_compared_with_itself_is_identical() {
    let a = stream(&["A", "B", "C", "D"]);
    let r = compare_ordered_pcaps(&a, &a, true);
    assert!(r.missing.is_empty());
    assert!(r.extra.is_empty());
    assert!(r.is_identical());
}

#[test]
fn timestamps_do_not_take_part_in_fingerprints() {
    let a = stream(&["A", "B"]);
    let mut b = stream(&["A", "B"]);
    b[0].ts_sec = 99;
    b[1].ts_usec = 7;
    assert!(compare_ordered_pcaps(&a, &b, false).is_identical());
    assert!(compare_ordered_pcaps(&a, &b, true).is_identical());
}

#[test]
fn length_fields_count_only_when_ignoring_timestamps() {
    let a = stream(&["A"]);
    let mut b = stream(&["A"]);
    b[0].orig_len = 1500;
    assert!(compare_ordered_pcaps(&a, &b, false).is_identical());
    let r = compare_ordered_pcaps(&a, &b, true);
    assert_eq!(r.missing, vec![0]);
    assert_eq!(r.extra, vec![0]);
}

#[test]
fn substitution_is_missing_and_extra() {
    let a = stream(&["A", "B", "C"]);
    let b = stream(&["A", "Y", "C"]);
    let r = compare_ordered_pcaps(&a, &b, false);
    assert_eq!(r.missing, vec![1]);
    assert_eq!(r.extra, vec![1]);
}

#[test]
fn tails_are_missing_or_extra() {
    let a = stream(&["A", "B", "C"]);
    let b = stream(&["A"]);
    let r = compare_ordered_pcaps(&a, &b, false);
    assert_eq!(r.missing, vec![1, 2]);
    assert!(r.extra.is_empty());
    let r = compare_ordered_pcaps(&b, &a, false);
    assert!(r.missing.is_empty());
    assert_eq!(r.extra, vec![1, 2]);
    let empty: Vec<CaptureRecord> = Vec::new();
    let r = compare_ordered_pcaps(&empty, &a, false);
    assert_eq!(r.extra, vec![0, 1, 2]);
}

#[test]
fn resync_in_comparison_is_tried_first() {
    // a = [1, 2], b = [2, 1]: both resynchronization points exist; the one
    // in the comparison stream wins, so record 0 of b is extra.
    let r = align_fingerprints(&vec![1, 2], &vec![2, 1]);
    assert_eq!(r.extra, vec![0]);
    assert_eq!(r.missing, vec![1]);
}

#[test]
fn lookahead_window_bounds_the_resync() {
    // 100 novel records inserted: the match lies just outside the window.
    let a: Vec<u64> = vec![1, 2];
    let mut b: Vec<u64> = (1000..1100).collect();
    b.push(1);
    b.push(2);
    let r = align_fingerprints(&a, &b);
    assert_eq!(r.missing, vec![0, 1]);
    assert_eq!(r.extra, (0..102).collect::<Vec<usize>>());
    // 99 inserted: found inside the window.
    let mut c: Vec<u64> = (1000..1099).collect();
    c.push(1);
    c.push(2);
    let r = align_fingerprints(&a, &c);
    assert!(r.missing.is_empty());
    assert_eq!(r.extra, (0..99).collect::<Vec<usize>>());
}

#[test]
fn deleted_record_found_at_its_index() {
    let a: Vec<u64> = (10..30).collect();
    for p in 0..a.len() {
        let mut b = a.clone();
        b.remove(p);
        let r = align_fingerprints(&a, &b);
        assert_eq!(r.missing, vec![p]);
        assert!(r.extra.is_empty());
    }
}

#[test]
fn inserted_record_found_at_its_index() {
    let a: Vec<u64> = vec![5, 5, 6, 7, 5];
    for q in 0..=a.len() {
        let mut b = a.clone();
        b.insert(q, 42);
        let r = align_fingerprints(&a, &b);
        assert_eq!(r.extra, vec![q]);
        assert!(r.missing.is_empty());
    }
}

#[test]
fn fingerprint_digests_payload_or_lengths_and_payload() {
    let r = CaptureRecord { ts_sec: 3, ts_usec: 4, incl_len: 2, orig_len: 0x0102_0304, data: vec![9, 8] };
    let mut h = SeaHasher::new();
    h.write(&[9, 8]);
    assert_eq!(fingerprint(&r, false), h.finish());
    let mut h = SeaHasher::new();
    h.write(&[0, 0, 0, 2, 1, 2, 3, 4, 9, 8]);
    assert_eq!(fingerprint(&r, true), h.finish());
    assert_ne!(fingerprint(&r, true), fingerprint(&r, false));
}

#[test]
fn fingerprints_keep_stream_order() {
    let s = stream(&["A", "B", "A"]);
    let f = fingerprint_stream(&s, false);
    assert_eq!(f.len(), 3);
    assert_eq!(f[0], f[2]);
    assert_ne!(f[0], f[1]);
    assert_eq!(f[1], fingerprint(&s[1], false));
}
