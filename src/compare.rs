use crate::align::{align_fingerprints, alignment_of, lemma_self_alignment, Alignment};
use crate::record::CaptureRecord;
use seahash::SeaHasher;
use std::hash::Hasher;
use vstd::prelude::*;

verus! {

/// The 64-bit SeaHash digest of a byte string, as `SeaHasher` computes it
/// from its default seeds.
pub uninterp spec fn sea_digest(bytes: Seq<u8>) -> u64;

/// Relies on seahash's `SeaHasher::new`, `Hasher::write` and `Hasher::finish`:
/// a hasher with fixed default seeds, so the digest depends on the bytes alone.
#[verifier::external_body]
fn sea_hash(bytes: &Vec<u8>) -> (h: u64)
    ensures
        h == sea_digest(bytes@),
{
    let mut hasher = SeaHasher::new();
    hasher.write(bytes.as_slice());
    hasher.finish()
}

/// The four bytes of `x`, most significant first.
pub open spec fn be_bytes(x: u32) -> Seq<u8> {
    seq![(x >> 24u32) as u8, (x >> 16u32) as u8, (x >> 8u32) as u8, x as u8]
}

/// The bytes that a record's fingerprint digests.
///
/// With `ignore_timestamp` they are the two length fields (big-endian) followed
/// by the payload; without it, the payload alone. Neither mode digests the
/// timestamp: the modes differ only in whether the length fields take part.
pub open spec fn fingerprint_bytes(r: CaptureRecord, ignore_timestamp: bool) -> Seq<u8> {
    if ignore_timestamp {
        be_bytes(r.incl_len) + be_bytes(r.orig_len) + r.data@
    } else {
        r.data@
    }
}

/// A record's content fingerprint.
pub open spec fn record_fingerprint(r: CaptureRecord, ignore_timestamp: bool) -> u64 {
    sea_digest(fingerprint_bytes(r, ignore_timestamp))
}

/// The fingerprints of a stream, in stream order.
pub open spec fn stream_fingerprints(s: Seq<CaptureRecord>, ignore_timestamp: bool) -> Seq<u64> {
    Seq::new(s.len(), |k: int| record_fingerprint(s[k], ignore_timestamp))
}

fn push_be_bytes(out: &mut Vec<u8>, x: u32)
    ensures
        final(out)@ == old(out)@ + be_bytes(x),
{
    out.push((x >> 24u32) as u8);
    out.push((x >> 16u32) as u8);
    out.push((x >> 8u32) as u8);
    out.push(x as u8);
    assert(final(out)@ =~= old(out)@ + be_bytes(x));
}

/// Computes the content fingerprint of one record.
pub fn fingerprint(r: &CaptureRecord, ignore_timestamp: bool) -> (h: u64)
    ensures
        h == record_fingerprint(*r, ignore_timestamp),
{
    let mut buf: Vec<u8> = Vec::new();
    if ignore_timestamp {
        push_be_bytes(&mut buf, r.incl_len);
        push_be_bytes(&mut buf, r.orig_len);
    }
    let ghost head = buf@;
    let mut k: usize = 0;
    while k < r.data.len()
        invariant
            k <= r.data.len(),
            buf@ == head + r.data@.take(k as int),
        decreases r.data.len() - k,
    {
        buf.push(r.data[k]);
        k = k + 1;
        assert(buf@ =~= head + r.data@.take(k as int));
    }
    assert(r.data@.take(k as int) =~= r.data@);
    assert(buf@ =~= fingerprint_bytes(*r, ignore_timestamp));
    sea_hash(&buf)
}

/// Computes the fingerprint of every record of a stream, in order.
pub fn fingerprint_stream(records: &Vec<CaptureRecord>, ignore_timestamp: bool) -> (fps: Vec<u64>)
    ensures
        fps@ == stream_fingerprints(records@, ignore_timestamp),
{
    let mut fps: Vec<u64> = Vec::new();
    let mut k: usize = 0;
    while k < records.len()
        invariant
            k <= records.len(),
            fps@ == stream_fingerprints(records@, ignore_timestamp).take(k as int),
        decreases records.len() - k,
    {
        let h = fingerprint(&records[k], ignore_timestamp);
        fps.push(h);
        k = k + 1;
        assert(fps@ =~= stream_fingerprints(records@, ignore_timestamp).take(k as int));
    }
    assert(fps@ =~= stream_fingerprints(records@, ignore_timestamp));
    fps
}

/// Compares a comparison stream against a reference stream whose order is
/// roughly the same, and reports the reference records missing from the
/// comparison and the comparison records absent from the reference.
pub fn compare_ordered_pcaps(
    reference: &Vec<CaptureRecord>,
    comparison: &Vec<CaptureRecord>,
    ignore_timestamp: bool,
) -> (r: Alignment)
    ensures
        r.view_pair() == alignment_of(
            stream_fingerprints(reference@, ignore_timestamp),
            stream_fingerprints(comparison@, ignore_timestamp),
        ),
{
    let a = fingerprint_stream(reference, ignore_timestamp);
    let b = fingerprint_stream(comparison, ignore_timestamp);
    align_fingerprints(&a, &b)
}

/// Two records with the same lengths and payload have the same fingerprint,
/// whatever their timestamps.
pub proof fn lemma_same_content_same_fingerprint(
    a: CaptureRecord,
    b: CaptureRecord,
    ignore_timestamp: bool,
)
    requires
        a.same_content(&b),
    ensures
        record_fingerprint(a, ignore_timestamp) == record_fingerprint(b, ignore_timestamp),
{
    assert(fingerprint_bytes(a, ignore_timestamp) =~= fingerprint_bytes(b, ignore_timestamp));
}

/// Comparing a stream with itself finds no missing and no extra record.
pub proof fn lemma_compare_with_itself(s: Seq<CaptureRecord>, ignore_timestamp: bool)
    ensures
        alignment_of(
            stream_fingerprints(s, ignore_timestamp),
            stream_fingerprints(s, ignore_timestamp),
        ).0.len() == 0,
        alignment_of(
            stream_fingerprints(s, ignore_timestamp),
            stream_fingerprints(s, ignore_timestamp),
        ).1.len() == 0,
{
    lemma_self_alignment(stream_fingerprints(s, ignore_timestamp));
}

} // verus!
