use crate::dilute::trunc_div;
use crate::record::{max_instant, max_micros, normalized_stream, CaptureRecord, EditError};
use vstd::prelude::*;

verus! {

/// The first record's instant in nanoseconds.
pub open spec fn first_ns(s: Seq<CaptureRecord>) -> int {
    s[0].micros() * 1000
}

/// The span from the first to the last record, in nanoseconds.
pub open spec fn span_ns(s: Seq<CaptureRecord>) -> int {
    s[s.len() - 1].micros() * 1000 - s[0].micros() * 1000
}

/// The offset, in nanoseconds, of output record `i` from the first record:
/// its share `i / (n * multiplier - 1)` of the span, rounded toward zero.
pub open spec fn augment_offset_ns(s: Seq<CaptureRecord>, multiplier: int, i: int) -> int {
    trunc_div(i * span_ns(s), s.len() * multiplier - 1)
}

/// The instant of output record `i`, in nanoseconds.
pub open spec fn augment_instant_ns(s: Seq<CaptureRecord>, multiplier: int, i: int) -> int {
    first_ns(s) + augment_offset_ns(s, multiplier, i)
}

/// The timestamp of output record `i` in whole microseconds: its instant
/// with the sub-microsecond part dropped.
pub open spec fn augment_micros(s: Seq<CaptureRecord>, multiplier: int, i: int) -> int {
    augment_instant_ns(s, multiplier, i) / 1000
}

proof fn lemma_total(n: int, multiplier: int)
    requires
        n >= 1,
        multiplier >= 2,
    ensures
        n * multiplier >= 2,
{
    assert(n * multiplier >= 2) by (nonlinear_arith)
        requires
            n >= 1,
            multiplier >= 2,
    ;
}

proof fn lemma_instant_bounds(s: Seq<CaptureRecord>, multiplier: int, i: int)
    requires
        s.len() >= 1,
        multiplier >= 2,
        0 <= i < s.len() * multiplier,
    ensures
        span_ns(s) >= 0 ==> first_ns(s) <= augment_instant_ns(s, multiplier, i) <= first_ns(s)
            + span_ns(s),
        span_ns(s) < 0 ==> first_ns(s) + span_ns(s) <= augment_instant_ns(s, multiplier, i)
            <= first_ns(s),
{
    lemma_total(s.len() as int, multiplier);
    let span = span_ns(s);
    let c = s.len() * multiplier - 1;
    if span >= 0 {
        let q = (i * span) / c;
        assert(0 <= q <= span) by (nonlinear_arith)
            requires
                q == (i * span) / c,
                span >= 0,
                c > 0,
                0 <= i <= c,
        ;
    } else {
        let q = (-(i * span)) / c;
        assert(-(i * span) == i * (-span)) by (nonlinear_arith);
        assert(0 <= q <= -span) by (nonlinear_arith)
            requires
                q == (i * (-span)) / c,
                -span >= 0,
                c > 0,
                0 <= i <= c,
        ;
    }
}

proof fn lemma_mul_cancel_lt(x: int, y: int, c: int)
    requires
        c > 0,
        x * c < y * c,
    ensures
        x < y,
{
    if x >= y {
        assert(x * c >= y * c) by (nonlinear_arith)
            requires
                x >= y,
                c > 0,
        ;
    }
}

/// For a stream whose span is not negative, output record `i` lies `i * S / c`
/// whole microseconds (rounded down) after the first record, where `S` is the
/// span in microseconds and `c` one less than the number of output records.
proof fn lemma_augment_micros_formula(s: Seq<CaptureRecord>, multiplier: int, i: int)
    requires
        s.len() >= 1,
        multiplier >= 2,
        0 <= i < s.len() * multiplier,
        s[0].micros() <= s[s.len() - 1].micros(),
    ensures
        augment_micros(s, multiplier, i) == s[0].micros() + (i * (s[s.len() - 1].micros()
            - s[0].micros())) / (s.len() * multiplier - 1),
{
    lemma_total(s.len() as int, multiplier);
    let c = s.len() * multiplier - 1;
    let f = s[0].micros();
    let sp = s[s.len() - 1].micros() - f;
    let x = i * sp;
    assert(x >= 0) by (nonlinear_arith)
        requires
            i >= 0,
            sp >= 0,
            x == i * sp,
    ;
    assert(i * span_ns(s) == 1000 * x) by (nonlinear_arith)
        requires
            span_ns(s) == sp * 1000,
            x == i * sp,
    ;
    let q = x / c;
    let r = (1000 * x) / c;
    assert(q * c <= x < q * c + c) by (nonlinear_arith)
        requires
            q == x / c,
            c > 0,
    ;
    assert(r * c <= 1000 * x < r * c + c) by (nonlinear_arith)
        requires
            r == (1000 * x) / c,
            c > 0,
    ;
    assert(r * c < (1000 * q + 1000) * c) by (nonlinear_arith)
        requires
            r * c <= 1000 * x,
            x < q * c + c,
    ;
    lemma_mul_cancel_lt(r, 1000 * q + 1000, c);
    assert((1000 * q) * c < (r + 1) * c) by (nonlinear_arith)
        requires
            q * c <= x,
            1000 * x < r * c + c,
    ;
    lemma_mul_cancel_lt(1000 * q, r + 1, c);
    assert(augment_instant_ns(s, multiplier, i) == 1000 * f + r);
    assert((1000 * f + r) / 1000 == f + q) by (nonlinear_arith)
        requires
            1000 * q <= r < 1000 * q + 1000,
    ;
}

/// Consecutive shares of a span differ by the span's own share, rounded down
/// or up.
proof fn lemma_share_gap(i: int, sp: int, c: int)
    requires
        i >= 0,
        sp >= 0,
        c > 0,
    ensures
        sp / c <= ((i + 1) * sp) / c - (i * sp) / c <= sp / c + 1,
        sp % c == 0 ==> ((i + 1) * sp) / c - (i * sp) / c == sp / c,
{
    let a = i * sp;
    let b = (i + 1) * sp;
    assert(b == a + sp) by (nonlinear_arith)
        requires
            a == i * sp,
            b == (i + 1) * sp,
    ;
    let qa = a / c;
    let qb = b / c;
    let g = sp / c;
    let rs = sp % c;
    assert(qa * c <= a < qa * c + c) by (nonlinear_arith)
        requires
            qa == a / c,
            c > 0,
    ;
    assert(qb * c <= b < qb * c + c) by (nonlinear_arith)
        requires
            qb == b / c,
            c > 0,
    ;
    assert(sp == g * c + rs && 0 <= rs < c) by (nonlinear_arith)
        requires
            g == sp / c,
            rs == sp % c,
            c > 0,
    ;
    assert(qb * c < (qa + g + 2) * c) by (nonlinear_arith)
        requires
            qb * c <= b,
            b == a + sp,
            a < qa * c + c,
            sp == g * c + rs,
            rs < c,
    ;
    lemma_mul_cancel_lt(qb, qa + g + 2, c);
    assert((qa + g) * c < (qb + 1) * c) by (nonlinear_arith)
        requires
            qa * c <= a,
            b == a + sp,
            b < qb * c + c,
            sp == g * c + rs,
            rs >= 0,
    ;
    lemma_mul_cancel_lt(qa + g, qb + 1, c);
    if rs == 0 {
        assert(qb * c < (qa + g + 1) * c) by (nonlinear_arith)
            requires
                qb * c <= b,
                b == a + sp,
                a < qa * c + c,
                sp == g * c,
        ;
        lemma_mul_cancel_lt(qb, qa + g + 1, c);
    }
}

/// Multiplies a stream to `n * multiplier` records spread evenly over the
/// input span. Output record `i` carries the content of input record
/// `i % n` and the timestamp `first + i * span / (n * multiplier - 1)`,
/// each computed from its own index in nanoseconds and written back in whole
/// microseconds, so the last output record lands on the last input
/// timestamp. Input timestamps other than the first and the last are not used.
pub fn pcap_augment_timed(records: &Vec<CaptureRecord>, multiplier: usize) -> (r: Result<
    Vec<CaptureRecord>,
    EditError,
>)
    requires
        records.len() * multiplier <= usize::MAX,
    ensures
        multiplier < 2 ==> r == Err::<Vec<CaptureRecord>, EditError>(EditError::InvalidParameter),
        multiplier >= 2 && records.len() == 0 ==> r == Err::<Vec<CaptureRecord>, EditError>(
            EditError::EmptyStream,
        ),
        multiplier >= 2 && records.len() > 0 ==> if records@[0].micros() <= max_micros()
            && records@[records.len() - 1].micros() <= max_micros() {
            r is Ok
        } else {
            r == Err::<Vec<CaptureRecord>, EditError>(EditError::TimestampOutOfRange)
        },
        multiplier >= 2 && records.len() > 0 && normalized_stream(records@) ==> r is Ok,
        r matches Ok(out) ==> records@[0].micros() <= records@[records.len() - 1].micros() ==> out[0].micros()
            == records@[0].micros() && out[out.len() - 1].micros() == records@[records.len()
            - 1].micros(),
        r matches Ok(out) ==> {
            &&& out.len() == records.len() * multiplier
            &&& forall|i: int|
                0 <= i < out.len() ==> {
                    &&& (#[trigger] out[i]).same_content(&records@[i % (records.len() as int)])
                    &&& out[i].normalized()
                    &&& out[i].micros() == augment_micros(records@, multiplier as int, i)
                }
        },
{
    if multiplier < 2 {
        return Err(EditError::InvalidParameter);
    }
    let n = records.len();
    if n == 0 {
        return Err(EditError::EmptyStream);
    }
    let total = n * multiplier;
    proof {
        lemma_total(n as int, multiplier as int);
    }
    let first_us = records[0].timestamp_micros();
    let last_us = records[n - 1].timestamp_micros();
    if first_us > max_instant() || last_us > max_instant() {
        return Err(EditError::TimestampOutOfRange);
    }
    let first: i128 = first_us as i128 * 1000;
    let last: i128 = last_us as i128 * 1000;
    let span = last - first;
    let steps = (total - 1) as i128;
    let mut out: Vec<CaptureRecord> = Vec::new();
    let mut i: usize = 0;
    while i < total
        invariant
            n == records.len() >= 1,
            multiplier >= 2,
            total == n * multiplier,
            first == first_ns(records@),
            0 <= first <= max_micros() * 1000,
            0 <= first + span_ns(records@) <= max_micros() * 1000,
            span == span_ns(records@),
            steps == total - 1,
            total >= 2,
            i <= total,
            out.len() == i,
            forall|a: int|
                0 <= a < i ==> {
                    &&& (#[trigger] out[a]).same_content(&records@[a % (n as int)])
                    &&& out[a].normalized()
                    &&& out[a].micros() == augment_micros(records@, multiplier as int, a)
                },
        decreases total - i,
    {
        proof {
            lemma_instant_bounds(records@, multiplier as int, i as int);
        }
        assert(-0x4000_0000_0000_0000_0000_0000_0000_0000 <= i * span
            <= 0x4000_0000_0000_0000_0000_0000_0000_0000) by (nonlinear_arith)
            requires
                0 <= i <= 0x1_0000_0000_0000_0000,
                -0x4000_0000_0000_0000 <= span <= 0x4000_0000_0000_0000,
        ;
        let share = (i as i128) * span;
        let offset: i128 = if share >= 0 {
            share / steps
        } else {
            -((-share) / steps)
        };
        assert(offset == augment_offset_ns(records@, multiplier as int, i as int));
        let instant = first + offset;
        let micros = (instant / 1000) as u64;
        let source = i % n;
        out.push(records[source].restamped(micros));
        i = i + 1;
    }
    proof {
        if records@[0].micros() <= records@[n - 1].micros() {
            lemma_augment_timing(records@, multiplier as int);
        }
    }
    Ok(out)
}

/// For a stream whose last timestamp is not before its first, augmentation
/// starts at the first timestamp and ends at the last, so the output keeps the
/// input span exactly. Its timestamps never decrease, and consecutive ones
/// are the span divided by `n * multiplier - 1` apart, rounded down or up to
/// whole microseconds (exactly that far when the division leaves nothing over).
pub proof fn lemma_augment_timing(s: Seq<CaptureRecord>, multiplier: int)
    requires
        s.len() >= 1,
        multiplier >= 2,
        s[0].micros() <= s[s.len() - 1].micros(),
    ensures
        augment_micros(s, multiplier, 0) == s[0].micros(),
        augment_micros(s, multiplier, s.len() * multiplier - 1) == s[s.len() - 1].micros(),
        forall|i: int, j: int|
            0 <= i <= j < s.len() * multiplier ==> augment_micros(s, multiplier, i)
                <= augment_micros(s, multiplier, j),
        forall|i: int|
            0 <= i < s.len() * multiplier - 1 ==> {
                let gap = augment_micros(s, multiplier, i + 1) - #[trigger] augment_micros(
                    s,
                    multiplier,
                    i,
                );
                let sp = s[s.len() - 1].micros() - s[0].micros();
                let c = s.len() * multiplier - 1;
                &&& sp / c <= gap <= sp / c + 1
                &&& sp % c == 0 ==> gap == sp / c
            },
{
    lemma_total(s.len() as int, multiplier);
    let c = s.len() * multiplier - 1;
    let f = s[0].micros();
    let sp = s[s.len() - 1].micros() - f;
    lemma_augment_micros_formula(s, multiplier, 0);
    lemma_augment_micros_formula(s, multiplier, c);
    assert((0 * sp) / c == 0) by (nonlinear_arith)
        requires
            c > 0,
    ;
    assert((c * sp) / c == sp) by (nonlinear_arith)
        requires
            c > 0,
    ;
    assert forall|i: int, j: int| 0 <= i <= j < c + 1 implies augment_micros(s, multiplier, i)
        <= augment_micros(s, multiplier, j) by {
        lemma_augment_micros_formula(s, multiplier, i);
        lemma_augment_micros_formula(s, multiplier, j);
        assert((i * sp) / c <= (j * sp) / c) by (nonlinear_arith)
            requires
                0 <= i <= j,
                sp >= 0,
                c > 0,
        ;
    }
    assert forall|i: int| 0 <= i < c implies {
        let gap = augment_micros(s, multiplier, i + 1) - #[trigger] augment_micros(
            s,
            multiplier,
            i,
        );
        &&& sp / c <= gap <= sp / c + 1
        &&& sp % c == 0 ==> gap == sp / c
    } by {
        lemma_augment_micros_formula(s, multiplier, i);
        lemma_augment_micros_formula(s, multiplier, i + 1);
        lemma_share_gap(i, sp, c);
    }
}

} // verus!
