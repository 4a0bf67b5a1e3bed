use crate::compare::{lemma_same_content_same_fingerprint, record_fingerprint, stream_fingerprints};
use crate::record::{micros_bound, CaptureRecord, EditError};
use vstd::prelude::*;

verus! {

/// `|x|`.
pub open spec fn abs(x: int) -> int {
    if x < 0 {
        -x
    } else {
        x
    }
}

/// `a / b` rounded toward zero.
pub open spec fn trunc_div(a: int, b: int) -> int {
    if a >= 0 {
        a / b
    } else {
        -((-a) / b)
    }
}

/// The distance in microseconds between record `k` of `s` and instant `target`.
pub open spec fn distance(s: Seq<CaptureRecord>, k: int, target: int) -> int {
    abs(s[k].micros() - target)
}

/// The forward scan for the record nearest `target`: `best` is the nearest
/// record before `j`, at distance `best_d`. A strictly nearer record takes its
/// place, an equally near one leaves it, and a farther one ends the scan.
pub open spec fn scan_nearest(
    s: Seq<CaptureRecord>,
    target: int,
    j: int,
    limit: int,
    best: int,
    best_d: int,
) -> int
    decreases limit - j,
{
    if j >= limit {
        best
    } else if distance(s, j, target) < best_d {
        scan_nearest(s, target, j + 1, limit, j, distance(s, j, target))
    } else if distance(s, j, target) > best_d {
        best
    } else {
        scan_nearest(s, target, j + 1, limit, best, best_d)
    }
}

/// The record that the scan from `from` (below `limit`) selects for `target`.
pub open spec fn nearest(s: Seq<CaptureRecord>, target: int, from: int, limit: int) -> int {
    scan_nearest(s, target, from + 1, limit, from, distance(s, from, target))
}

/// The spacing of the ideal instants: the stream's span divided by the number
/// of records kept, rounded toward zero.
pub open spec fn dilution_interval(s: Seq<CaptureRecord>, count: int) -> int {
    trunc_div(s[s.len() - 1].micros() - s[0].micros(), count)
}

/// The records selected for the ideal instants `i, i + 1, ..., count - 1`,
/// scanning from `cursor`. The scan for instant `i` stops early enough to
/// leave one record for each later instant.
pub open spec fn picks_from(
    s: Seq<CaptureRecord>,
    count: int,
    interval: int,
    i: int,
    cursor: int,
) -> Seq<int>
    decreases count - i,
{
    if i >= count {
        Seq::empty()
    } else {
        let p = nearest(s, s[0].micros() + i * interval, cursor, s.len() - (count - 1 - i));
        seq![p] + picks_from(s, count, interval, i + 1, p + 1)
    }
}

/// The indices of the records that diluting `s` by `factor` keeps, in order.
pub open spec fn dilution_picks(s: Seq<CaptureRecord>, factor: int) -> Seq<int> {
    let count = s.len() as int / factor;
    picks_from(s, count, dilution_interval(s, count), 0, 0)
}

/// `r` is a copy of `orig`, timestamp and content.
pub open spec fn copy_of(r: CaptureRecord, orig: CaptureRecord) -> bool {
    r.ts_sec == orig.ts_sec && r.ts_usec == orig.ts_usec && r.same_content(&orig)
}

proof fn lemma_scan_bounds(
    s: Seq<CaptureRecord>,
    target: int,
    j: int,
    limit: int,
    best: int,
    best_d: int,
    from: int,
)
    requires
        from <= best < j <= limit,
    ensures
        from <= scan_nearest(s, target, j, limit, best, best_d) < limit,
    decreases limit - j,
{
    if j < limit {
        if distance(s, j, target) < best_d {
            lemma_scan_bounds(s, target, j + 1, limit, j, distance(s, j, target), from);
        } else if distance(s, j, target) == best_d {
            lemma_scan_bounds(s, target, j + 1, limit, best, best_d, from);
        }
    }
}

proof fn lemma_picks_shape(s: Seq<CaptureRecord>, count: int, interval: int, i: int, cursor: int)
    requires
        0 <= i <= count,
        0 <= cursor <= s.len() - (count - i),
    ensures
        picks_from(s, count, interval, i, cursor).len() == count - i,
        forall|a: int|
            0 <= a < count - i ==> cursor <= #[trigger] picks_from(
                s,
                count,
                interval,
                i,
                cursor,
            )[a] < s.len(),
        forall|a: int, b: int|
            0 <= a < b < count - i ==> picks_from(s, count, interval, i, cursor)[a]
                < picks_from(s, count, interval, i, cursor)[b],
    decreases count - i,
{
    if i < count {
        let limit = s.len() - (count - 1 - i);
        let target = s[0].micros() + i * interval;
        let p = nearest(s, target, cursor, limit);
        lemma_scan_bounds(s, target, cursor + 1, limit, cursor, distance(s, cursor, target), cursor);
        lemma_picks_shape(s, count, interval, i + 1, p + 1);
        let rest = picks_from(s, count, interval, i + 1, p + 1);
        let all = picks_from(s, count, interval, i, cursor);
        assert(all == seq![p] + rest);
        assert forall|a: int| 0 <= a < count - i implies cursor <= #[trigger] all[a] < s.len() by {
            if a > 0 {
                assert(all[a] == rest[a - 1]);
            }
        }
        assert forall|a: int, b: int| 0 <= a < b < count - i implies all[a] < all[b] by {
            assert(all[b] == rest[b - 1]);
            if a > 0 {
                assert(all[a] == rest[a - 1]);
            }
        }
    }
}

/// Diluting a stream of `n` records by `factor` keeps `n / factor` of them,
/// each an index of the stream, in strictly increasing order: no record is
/// kept twice and the stream's order is kept.
pub proof fn lemma_dilution_shape(s: Seq<CaptureRecord>, factor: int)
    requires
        2 <= factor <= s.len(),
    ensures
        dilution_picks(s, factor).len() == s.len() as int / factor,
        forall|a: int|
            0 <= a < dilution_picks(s, factor).len() ==> 0 <= #[trigger] dilution_picks(
                s,
                factor,
            )[a] < s.len(),
        forall|a: int, b: int|
            0 <= a < b < dilution_picks(s, factor).len() ==> dilution_picks(s, factor)[a]
                < dilution_picks(s, factor)[b],
{
    let count = s.len() as int / factor;
    assert(count <= s.len()) by (nonlinear_arith)
        requires
            count == s.len() as int / factor,
            factor >= 2,
            s.len() >= 0,
    ;
    lemma_picks_shape(s, count, dilution_interval(s, count), 0, 0);
}

proof fn lemma_step_bound(span: int, count: int, i: int)
    requires
        count > 0,
        0 <= i < count,
    ensures
        span >= 0 ==> 0 <= i * trunc_div(span, count) <= span,
        span < 0 ==> span <= i * trunc_div(span, count) <= 0,
{
    if span >= 0 {
        let q = span / count;
        assert(0 <= i * q <= span) by (nonlinear_arith)
            requires
                q == span / count,
                span >= 0,
                count > 0,
                0 <= i < count,
        ;
    } else {
        let q = (-span) / count;
        assert(0 <= i * q <= -span) by (nonlinear_arith)
            requires
                q == (-span) / count,
                -span >= 0,
                count > 0,
                0 <= i < count,
        ;
        assert(i * (-q) == -(i * q)) by (nonlinear_arith);
    }
}

/// The index, from `from` up to `limit`, of the record that the forward scan
/// finds nearest to `target`.
fn nearest_index(records: &Vec<CaptureRecord>, target: i64, from: usize, limit: usize) -> (p: usize)
    requires
        from < limit <= records.len(),
        0 <= target <= micros_bound(),
    ensures
        p == nearest(records@, target as int, from as int, limit as int),
{
    let mut best = from;
    let mut best_d = abs_diff(records[from].timestamp_micros() as i64, target);
    let mut j = from + 1;
    while j < limit
        invariant
            from <= best < j <= limit <= records.len(),
            0 <= target <= micros_bound(),
            best_d == distance(records@, best as int, target as int),
            nearest(records@, target as int, from as int, limit as int) == scan_nearest(
                records@,
                target as int,
                j as int,
                limit as int,
                best as int,
                best_d as int,
            ),
        decreases limit - j,
    {
        let d = abs_diff(records[j].timestamp_micros() as i64, target);
        if d < best_d {
            best = j;
            best_d = d;
        } else if d > best_d {
            return best;
        }
        j = j + 1;
    }
    best
}

/// `|t - target|`, for instants within the range of a record header.
fn abs_diff(t: i64, target: i64) -> (d: i64)
    requires
        0 <= t <= micros_bound(),
        0 <= target <= micros_bound(),
    ensures
        d == abs(t - target),
{
    if t >= target {
        t - target
    } else {
        target - t
    }
}

/// Reduces a stream to `n / dilution_factor` of its records while keeping
/// its span: for evenly spaced ideal instants from the first record's
/// timestamp on, it keeps the nearest record not yet kept, scanning forward.
/// Kept records keep their own timestamps and their order.
pub fn pcap_dilute_timed(records: &Vec<CaptureRecord>, dilution_factor: usize) -> (r: Result<
    Vec<CaptureRecord>,
    EditError,
>)
    ensures
        dilution_factor < 2 ==> r == Err::<Vec<CaptureRecord>, EditError>(
            EditError::InvalidParameter,
        ),
        dilution_factor >= 2 && records.len() == 0 ==> r == Err::<Vec<CaptureRecord>, EditError>(
            EditError::EmptyStream,
        ),
        dilution_factor >= 2 && 0 < records.len() < dilution_factor ==> r == Err::<
            Vec<CaptureRecord>,
            EditError,
        >(EditError::InsufficientPackets),
        dilution_factor >= 2 && records.len() >= dilution_factor ==> r is Ok,
        r matches Ok(out) ==> {
            let picks = dilution_picks(records@, dilution_factor as int);
            &&& out.len() == records.len() as int / (dilution_factor as int)
            &&& picks.len() == out.len()
            &&& forall|i: int|
                0 <= i < out.len() ==> 0 <= picks[i] < records.len() && copy_of(
                    #[trigger] out[i],
                    records@[picks[i]],
                )
        },
{
    if dilution_factor < 2 {
        return Err(EditError::InvalidParameter);
    }
    let n = records.len();
    if n == 0 {
        return Err(EditError::EmptyStream);
    }
    if n < dilution_factor {
        return Err(EditError::InsufficientPackets);
    }
    let count = n / dilution_factor;
    assert(count >= 1) by (nonlinear_arith)
        requires
            n >= dilution_factor,
            dilution_factor >= 2,
            count == n / dilution_factor,
    ;
    proof {
        lemma_dilution_shape(records@, dilution_factor as int);
    }
    let first = records[0].timestamp_micros() as i64;
    let last = records[n - 1].timestamp_micros() as i64;
    let span = last - first;
    let interval: i64 = if span >= 0 {
        (span as u64 / count as u64) as i64
    } else {
        -(((-span) as u64 / count as u64) as i64)
    };
    assert(interval == dilution_interval(records@, count as int));
    let ghost picks = dilution_picks(records@, dilution_factor as int);
    let mut out: Vec<CaptureRecord> = Vec::new();
    let mut cursor: usize = 0;
    let mut i: usize = 0;
    while i < count
        invariant
            count == n / dilution_factor,
            1 <= count <= n == records.len(),
            first == records@[0].micros(),
            0 <= first <= micros_bound(),
            0 <= first + span <= micros_bound(),
            span == records@[n - 1].micros() - records@[0].micros(),
            interval == dilution_interval(records@, count as int),
            i <= count,
            cursor <= n - (count - i),
            picks == dilution_picks(records@, dilution_factor as int),
            picks.len() == count,
            forall|a: int| 0 <= a < picks.len() ==> 0 <= #[trigger] picks[a] < n,
            picks_from(records@, count as int, interval as int, i as int, cursor as int)
                =~= picks.subrange(i as int, count as int),
            out.len() == i,
            forall|a: int| 0 <= a < i ==> copy_of(#[trigger] out[a], records@[picks[a]]),
        decreases count - i,
    {
        proof {
            lemma_step_bound(span as int, count as int, i as int);
        }
        let target = (first as i128 + (i as i128) * (interval as i128)) as i64;
        let limit = n - (count - 1 - i);
        let pick = nearest_index(records, target, cursor, limit);
        proof {
            let rest = picks_from(records@, count as int, interval as int, i as int, cursor as int);
            assert(rest[0] == pick);
            assert(picks[i as int] == pick);
            lemma_scan_bounds(
                records@,
                target as int,
                cursor + 1,
                limit as int,
                cursor as int,
                distance(records@, cursor as int, target as int),
                cursor as int,
            );
            assert(rest.subrange(1, rest.len() as int) =~= picks_from(
                records@,
                count as int,
                interval as int,
                i + 1,
                pick + 1,
            ));
        }
        out.push(records[pick].duplicate());
        cursor = pick + 1;
        i = i + 1;
    }
    Ok(out)
}

/// Every record that dilution keeps has the fingerprint of a record of the
/// input, and the kept records come in input order.
pub proof fn lemma_diluted_fingerprints(
    s: Seq<CaptureRecord>,
    factor: int,
    out: Seq<CaptureRecord>,
    ignore_timestamp: bool,
)
    requires
        2 <= factor <= s.len(),
        out.len() == dilution_picks(s, factor).len(),
        forall|i: int|
            0 <= i < out.len() ==> copy_of(#[trigger] out[i], s[dilution_picks(s, factor)[i]]),
    ensures
        forall|i: int|
            0 <= i < out.len() ==> stream_fingerprints(s, ignore_timestamp).contains(
                record_fingerprint(#[trigger] out[i], ignore_timestamp),
            ),
        forall|i: int, j: int|
            0 <= i < j < out.len() ==> dilution_picks(s, factor)[i] < dilution_picks(s, factor)[j],
{
    lemma_dilution_shape(s, factor);
    let picks = dilution_picks(s, factor);
    let fps = stream_fingerprints(s, ignore_timestamp);
    assert forall|i: int| 0 <= i < out.len() implies fps.contains(
        record_fingerprint(#[trigger] out[i], ignore_timestamp),
    ) by {
        let p = picks[i];
        lemma_same_content_same_fingerprint(out[i], s[p], ignore_timestamp);
        assert(fps[p] == record_fingerprint(out[i], ignore_timestamp));
    }
}

} // verus!
