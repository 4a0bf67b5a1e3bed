use crate::record::CaptureRecord;
use vstd::prelude::*;

verus! {

/// A record whose timestamp is earlier than that of the record before it.
#[derive(Debug, PartialEq, Eq, Clone, Copy, Structural)]
pub struct Violation {
    /// The record's position in the stream.
    pub index: usize,
    /// How far, in microseconds, it lies before the previous record.
    pub delta_micros: u64,
}

impl Violation {
    pub open spec fn view(&self) -> (int, int) {
        (self.index as int, self.delta_micros as int)
    }
}

/// What one pass over a stream found.
pub struct DisorderReport {
    /// How many records the stream holds.
    pub record_count: usize,
    /// The ordering violations, in stream order.
    pub violations: Vec<Violation>,
    /// The reader stopped before the end of its input.
    pub truncated: bool,
}

/// The violations, as (index, delta) pairs, among the first `k` records of `s`.
pub open spec fn disorder_upto(s: Seq<CaptureRecord>, k: int) -> Seq<(int, int)>
    decreases k,
{
    if k <= 1 {
        Seq::empty()
    } else if s[k - 1].micros() < s[k - 2].micros() {
        disorder_upto(s, k - 1).push((k - 1, s[k - 2].micros() - s[k - 1].micros()))
    } else {
        disorder_upto(s, k - 1)
    }
}

/// The violations of a whole stream.
pub open spec fn disorder_of(s: Seq<CaptureRecord>) -> Seq<(int, int)> {
    disorder_upto(s, s.len() as int)
}

/// A list of violations viewed as (index, delta) pairs.
pub open spec fn violation_pairs(v: Seq<Violation>) -> Seq<(int, int)> {
    v.map_values(|x: Violation| x.view())
}

/// Every record's timestamp is later than that of the record before it.
pub open spec fn strictly_increasing(s: Seq<CaptureRecord>) -> bool {
    forall|k: int| 0 < k < s.len() ==> s[k - 1].micros() < #[trigger] s[k].micros()
}

/// Checks in one forward pass that timestamps never go back, and whether the
/// reader consumed its whole input: `consumed` bytes were read out of
/// `input_len`, where that length is known.
pub fn detect_pcap_disorder(
    records: &Vec<CaptureRecord>,
    consumed: u64,
    input_len: Option<u64>,
) -> (r: DisorderReport)
    ensures
        r.record_count == records.len(),
        violation_pairs(r.violations@) == disorder_of(records@),
        r.truncated == (input_len matches Some(len) && consumed < len),
{
    let mut violations: Vec<Violation> = Vec::new();
    let n = records.len();
    if n > 0 {
        let mut prev = records[0].timestamp_micros();
        let mut k: usize = 1;
        assert(violation_pairs(violations@) =~= disorder_upto(records@, 1));
        while k < n
            invariant
                1 <= k <= n == records.len(),
                prev == records@[k - 1].micros(),
                violation_pairs(violations@) == disorder_upto(records@, k as int),
            decreases n - k,
        {
            let current = records[k].timestamp_micros();
            if current < prev {
                let v = Violation { index: k, delta_micros: prev - current };
                assert(violation_pairs(violations@.push(v)) =~= violation_pairs(violations@).push(
                    v.view(),
                ));
                violations.push(v);
            }
            prev = current;
            k = k + 1;
        }
    } else {
        assert(violation_pairs(violations@) =~= disorder_of(records@));
    }
    let truncated = match input_len {
        Some(len) => consumed < len,
        None => false,
    };
    DisorderReport { record_count: n, violations, truncated }
}

proof fn lemma_increasing_prefix(s: Seq<CaptureRecord>, k: int)
    requires
        0 <= k <= s.len(),
        forall|i: int| 0 < i < k ==> s[i - 1].micros() < #[trigger] s[i].micros(),
    ensures
        disorder_upto(s, k) == Seq::<(int, int)>::empty(),
    decreases k,
{
    if k > 1 {
        lemma_increasing_prefix(s, k - 1);
    }
}

/// A strictly increasing stream has no violation.
pub proof fn lemma_increasing_has_no_disorder(s: Seq<CaptureRecord>)
    requires
        strictly_increasing(s),
    ensures
        disorder_of(s).len() == 0,
{
    lemma_increasing_prefix(s, s.len() as int);
}

/// Inserting into a strictly increasing stream, at position `p >= 1`, one
/// record `x` earlier than the record before it gives exactly one violation,
/// at index `p`.
pub proof fn lemma_one_inserted_disorder(s: Seq<CaptureRecord>, p: int, x: CaptureRecord)
    requires
        strictly_increasing(s),
        1 <= p <= s.len(),
        x.micros() < s[p - 1].micros(),
    ensures
        disorder_of(s.insert(p, x)) == seq![(p, s[p - 1].micros() - x.micros())],
{
    let t = s.insert(p, x);
    assert forall|i: int| 0 < i < p implies t[i - 1].micros() < #[trigger] t[i].micros() by {
        assert(t[i] == s[i]);
        assert(t[i - 1] == s[i - 1]);
    }
    lemma_increasing_prefix(t, p);
    lemma_tail_after_insert(s, p, x, t.len() as int);
}

proof fn lemma_tail_after_insert(s: Seq<CaptureRecord>, p: int, x: CaptureRecord, k: int)
    requires
        strictly_increasing(s),
        1 <= p <= s.len(),
        x.micros() < s[p - 1].micros(),
        p + 1 <= k <= s.len() + 1,
        disorder_upto(s.insert(p, x), p) == Seq::<(int, int)>::empty(),
    ensures
        disorder_upto(s.insert(p, x), k) == seq![(p, s[p - 1].micros() - x.micros())],
    decreases k,
{
    let t = s.insert(p, x);
    if k == p + 1 {
        assert(t[p] == x);
        assert(t[p - 1] == s[p - 1]);
        assert(Seq::<(int, int)>::empty().push((p, s[p - 1].micros() - x.micros())) =~= seq![
            (p, s[p - 1].micros() - x.micros()),
        ]);
    } else {
        lemma_tail_after_insert(s, p, x, k - 1);
        assert(t[k - 1] == s[k - 2]);
        if k - 2 == p {
            assert(t[k - 2] == x);
            assert(s[p - 1].micros() < s[p].micros());
        } else {
            assert(t[k - 2] == s[k - 3]);
            assert(s[k - 3].micros() < s[k - 2].micros());
        }
    }
}

} // verus!
