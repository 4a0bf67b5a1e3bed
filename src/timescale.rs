use crate::factor::Factor;
use crate::record::{max_instant, max_micros, normalized_stream, CaptureRecord, EditError};
use vstd::prelude::*;

verus! {

/// `a / b` rounded to the nearest integer, halves away from zero.
pub open spec fn round_div(a: int, b: int) -> int {
    if a >= 0 {
        (2 * a + b) / (2 * b)
    } else {
        -((-2 * a + b) / (2 * b))
    }
}

/// Instant `t` moved so that its offset from `anchor` is scaled by `mul / div`,
/// rounded to whole microseconds.
pub open spec fn rescale_instant(anchor: int, t: int, mul: int, div: int) -> int {
    anchor + round_div((t - anchor) * mul, div)
}

/// Every record after the first, rescaled about the first by `mul / div`,
/// lands in the range of a header.
pub open spec fn rescale_fits(s: Seq<CaptureRecord>, mul: int, div: int) -> bool {
    forall|k: int|
        1 <= k < s.len() ==> 0 <= #[trigger] rescale_instant(s[0].micros(), s[k].micros(), mul, div)
            <= max_micros()
}

/// `out` is `s` with every record after the first rescaled about the first by
/// `mul / div`: the first record is kept as it is, the others keep their
/// content and get the rescaled instant, normalized.
pub open spec fn rescaled_stream(s: Seq<CaptureRecord>, out: Seq<CaptureRecord>, mul: int, div: int) -> bool {
    &&& out.len() == s.len()
    &&& s.len() > 0 ==> out[0].ts_sec == s[0].ts_sec && out[0].ts_usec == s[0].ts_usec
        && out[0].same_content(&s[0])
    &&& forall|k: int|
        1 <= k < s.len() ==> {
            &&& (#[trigger] out[k]).same_content(&s[k])
            &&& out[k].normalized()
            &&& out[k].micros() == rescale_instant(s[0].micros(), s[k].micros(), mul, div)
        }
}

/// `a / b` rounded half away from zero.
fn round_div_exec(a: i128, b: i128) -> (q: i128)
    requires
        b > 0,
        -1_000_000_000_000_000_000_000_000_000_000_000_000 <= a
            <= 1_000_000_000_000_000_000_000_000_000_000_000_000,
        b <= u64::MAX,
    ensures
        q == round_div(a as int, b as int),
{
    if a >= 0 {
        (2 * a + b) / (2 * b)
    } else {
        let m = 0 - a;
        0 - (2 * m + b) / (2 * b)
    }
}

proof fn lemma_round_div_bounds(a: int, b: int)
    requires
        b > 0,
    ensures
        -b <= 2 * b * round_div(a, b) - 2 * a <= b,
{
    if a >= 0 {
        let q = (2 * a + b) / (2 * b);
        assert(2 * b * q <= 2 * a + b < 2 * b * q + 2 * b) by (nonlinear_arith)
            requires
                q == (2 * a + b) / (2 * b),
                b > 0,
        ;
    } else {
        let q = (-2 * a + b) / (2 * b);
        assert(2 * b * q <= -2 * a + b < 2 * b * q + 2 * b) by (nonlinear_arith)
            requires
                q == (-2 * a + b) / (2 * b),
                b > 0,
        ;
        assert(2 * b * (-q) == -(2 * b * q)) by (nonlinear_arith);
    }
}

/// Rescales the offsets of all records after the first by `mul / div`.
fn rescale(records: &Vec<CaptureRecord>, mul: u64, div: u64) -> (r: Result<
    Vec<CaptureRecord>,
    EditError,
>)
    requires
        records.len() > 0,
        div > 0,
    ensures
        r is Ok <==> rescale_fits(records@, mul as int, div as int),
        r matches Ok(out) ==> rescaled_stream(records@, out@, mul as int, div as int),
        r matches Err(e) ==> e == EditError::TimestampOutOfRange,
{
    let n = records.len();
    let anchor = records[0].timestamp_micros();
    let mut out: Vec<CaptureRecord> = Vec::new();
    out.push(records[0].duplicate());
    let mut k: usize = 1;
    while k < n
        invariant
            1 <= k <= n == records.len(),
            div > 0,
            anchor == records@[0].micros(),
            out.len() == k,
            out[0].ts_sec == records@[0].ts_sec && out[0].ts_usec == records@[0].ts_usec
                && out[0].same_content(&records@[0]),
            forall|j: int|
                1 <= j < k ==> 0 <= #[trigger] rescale_instant(
                    records@[0].micros(),
                    records@[j].micros(),
                    mul as int,
                    div as int,
                ) <= max_micros(),
            forall|j: int|
                1 <= j < k ==> {
                    &&& (#[trigger] out[j]).same_content(&records@[j])
                    &&& out[j].normalized()
                    &&& out[j].micros() == rescale_instant(
                        records@[0].micros(),
                        records@[j].micros(),
                        mul as int,
                        div as int,
                    )
                },
        decreases n - k,
    {
        let t = records[k].timestamp_micros();
        let delta = t as i128 - anchor as i128;
        assert(-1_000_000_000_000_000_000_000_000_000_000_000_000 <= delta * mul
            <= 1_000_000_000_000_000_000_000_000_000_000_000_000) by (nonlinear_arith)
            requires
                -10_000_000_000_000_000 <= delta <= 10_000_000_000_000_000,
                0 <= mul <= u64::MAX,
        ;
        let scaled = round_div_exec(delta * (mul as i128), div as i128);
        proof {
            lemma_round_div_bounds(delta * mul, div as int);
        }
        let instant = anchor as i128 + scaled;
        assert(instant == rescale_instant(
            records@[0].micros(),
            records@[k as int].micros(),
            mul as int,
            div as int,
        ));
        if instant < 0 || instant > max_instant() as i128 {
            return Err(EditError::TimestampOutOfRange);
        }
        out.push(records[k].restamped(instant as u64));
        k = k + 1;
    }
    Ok(out)
}

/// Compresses a stream's time axis by `factor` (greater than one): each
/// record's offset from the first record is divided by the factor and rounded
/// half away from zero to whole microseconds. The first record is written
/// back unchanged; content and order are kept.
pub fn pcap_time_compressor(records: &Vec<CaptureRecord>, factor: Factor) -> (r: Result<
    Vec<CaptureRecord>,
    EditError,
>)
    ensures
        !factor.above_one() ==> r == Err::<Vec<CaptureRecord>, EditError>(
            EditError::InvalidParameter,
        ),
        factor.above_one() && records.len() == 0 ==> r == Err::<Vec<CaptureRecord>, EditError>(
            EditError::EmptyStream,
        ),
        factor.above_one() && records.len() > 0 && normalized_stream(records@) ==> r is Ok,
        factor.above_one() && records.len() > 0 ==> if rescale_fits(
            records@,
            factor.den as int,
            factor.num as int,
        ) {
            r matches Ok(out) && rescaled_stream(
                records@,
                out@,
                factor.den as int,
                factor.num as int,
            )
        } else {
            r == Err::<Vec<CaptureRecord>, EditError>(EditError::TimestampOutOfRange)
        },
{
    if factor.den == 0 || factor.num <= factor.den {
        return Err(EditError::InvalidParameter);
    }
    if records.len() == 0 {
        return Err(EditError::EmptyStream);
    }
    proof {
        if normalized_stream(records@) {
            lemma_compress_fits(records@, factor);
        }
    }
    rescale(records, factor.den, factor.num)
}

/// Stretches a stream's time axis by `factor` (greater than zero): each
/// record's offset from the first record is multiplied by the factor and
/// rounded half away from zero to whole microseconds. The first record is
/// written back unchanged; content and order are kept.
pub fn pcap_time_dilator(records: &Vec<CaptureRecord>, factor: Factor) -> (r: Result<
    Vec<CaptureRecord>,
    EditError,
>)
    ensures
        !factor.positive() ==> r == Err::<Vec<CaptureRecord>, EditError>(
            EditError::InvalidParameter,
        ),
        factor.positive() && records.len() == 0 ==> r == Err::<Vec<CaptureRecord>, EditError>(
            EditError::EmptyStream,
        ),
        factor.positive() && records.len() > 0 ==> if rescale_fits(
            records@,
            factor.num as int,
            factor.den as int,
        ) {
            r matches Ok(out) && rescaled_stream(
                records@,
                out@,
                factor.num as int,
                factor.den as int,
            )
        } else {
            r == Err::<Vec<CaptureRecord>, EditError>(EditError::TimestampOutOfRange)
        },
{
    if factor.den == 0 || factor.num == 0 {
        return Err(EditError::InvalidParameter);
    }
    if records.len() == 0 {
        return Err(EditError::EmptyStream);
    }
    rescale(records, factor.num, factor.den)
}

/// Compressing an instant about `anchor` by a factor `f` below three and then
/// stretching it about the same anchor by `f` brings it back to within one
/// microsecond of where it was.
pub proof fn lemma_round_trip_instant(anchor: int, t: int, f: Factor)
    requires
        f.above_one(),
        f.num < 3 * f.den,
    ensures
        t - 1 <= rescale_instant(
            anchor,
            rescale_instant(anchor, t, f.den as int, f.num as int),
            f.num as int,
            f.den as int,
        ) <= t + 1,
{
    let num = f.num as int;
    let den = f.den as int;
    let d = t - anchor;
    let e = round_div(d * den, num);
    lemma_round_div_bounds(d * den, num);
    let mid = rescale_instant(anchor, t, den, num);
    assert(mid - anchor == e);
    let g = round_div(e * num, den);
    lemma_round_div_bounds(e * num, den);
    assert(2 * num * e == 2 * (e * num)) by (nonlinear_arith);
    assert(2 * (d * den) == 2 * den * d) by (nonlinear_arith);
    assert(d - 1 <= g <= d + 1) by (nonlinear_arith)
        requires
            -num <= 2 * num * e - 2 * den * d <= num,
            -den <= 2 * den * g - 2 * num * e <= den,
            0 < den,
            num < 3 * den,
    ;
}

/// A stream compressed by a factor below three and then stretched by the same
/// factor has as many records as before, each within one microsecond of its
/// instant in the input stream.
pub proof fn lemma_compress_stretch_round_trip(
    s: Seq<CaptureRecord>,
    compressed: Seq<CaptureRecord>,
    restored: Seq<CaptureRecord>,
    f: Factor,
)
    requires
        f.above_one(),
        f.num < 3 * f.den,
        rescaled_stream(s, compressed, f.den as int, f.num as int),
        rescaled_stream(compressed, restored, f.num as int, f.den as int),
    ensures
        restored.len() == s.len(),
        forall|k: int|
            0 <= k < s.len() ==> s[k].micros() - 1 <= #[trigger] restored[k].micros() <= s[k].micros()
                + 1,
{
    assert forall|k: int| 0 <= k < s.len() implies s[k].micros() - 1
        <= #[trigger] restored[k].micros() <= s[k].micros() + 1 by {
        if k > 0 {
            lemma_round_trip_instant(s[0].micros(), s[k].micros(), f);
        }
    }
}

/// Scaling a non-negative offset by `den / num`, a fraction below one, and
/// rounding gives an offset between zero and the original one.
proof fn lemma_round_shrinks_nonneg(d: int, den: int, num: int)
    requires
        d >= 0,
        0 < den < num,
    ensures
        0 <= round_div(d * den, num) <= d,
{
    let x = d * den;
    assert(0 <= x <= d * (num - 1)) by (nonlinear_arith)
        requires
            x == d * den,
            d >= 0,
            0 < den < num,
    ;
    let q = (2 * x + num) / (2 * num);
    assert(q * (2 * num) <= 2 * x + num) by (nonlinear_arith)
        requires
            q == (2 * x + num) / (2 * num),
            num > 0,
    ;
    assert(q >= 0) by (nonlinear_arith)
        requires
            q == (2 * x + num) / (2 * num),
            x >= 0,
            num > 0,
    ;
    if q > d {
        assert(q * (2 * num) >= (d + 1) * (2 * num)) by (nonlinear_arith)
            requires
                q >= d + 1,
                num > 0,
        ;
        assert(false) by (nonlinear_arith)
            requires
                (d + 1) * (2 * num) <= 2 * x + num,
                x <= d * (num - 1),
                d >= 0,
                num > 0,
        ;
    }
}

/// Compressing a stream of normalized records never moves a timestamp out of
/// the range of a header: each lands between the first record and itself.
pub proof fn lemma_compress_fits(s: Seq<CaptureRecord>, f: Factor)
    requires
        f.above_one(),
        normalized_stream(s),
    ensures
        rescale_fits(s, f.den as int, f.num as int),
{
    assert forall|k: int| 1 <= k < s.len() implies 0 <= #[trigger] rescale_instant(
        s[0].micros(),
        s[k].micros(),
        f.den as int,
        f.num as int,
    ) <= max_micros() by {
        assert(s[0].normalized() && s[k].normalized());
        let d = s[k].micros() - s[0].micros();
        if d >= 0 {
            lemma_round_shrinks_nonneg(d, f.den as int, f.num as int);
        } else {
            lemma_round_shrinks_nonneg(-d, f.den as int, f.num as int);
            assert(-d * f.den == -(d * f.den)) by (nonlinear_arith);
            assert(d * f.den < 0) by (nonlinear_arith)
                requires
                    d < 0,
                    f.den > 0,
            ;
        }
    }
}

} // verus!
