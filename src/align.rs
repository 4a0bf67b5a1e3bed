use vstd::prelude::*;

verus! {

/// How many records ahead of a cursor the comparator looks for a
/// resynchronization point.
pub const LOOKAHEAD: usize = 100;

/// The indices `lo, lo + 1, ..., hi - 1`.
pub open spec fn index_range(lo: int, hi: int) -> Seq<int> {
    Seq::new((hi - lo) as nat, |k: int| lo + k)
}

/// A sequence of indices viewed as integers.
pub open spec fn indices(v: Seq<usize>) -> Seq<int> {
    v.map_values(|x: usize| x as int)
}

/// The first position `k` in `from..to` with `s[k] == x`, or `to` when there is none.
pub open spec fn find_from(s: Seq<u64>, x: u64, from: int, to: int) -> int
    decreases to - from,
{
    if from >= to {
        to
    } else if s[from] == x {
        from
    } else {
        find_from(s, x, from + 1, to)
    }
}

/// The end of the lookahead window that starts at cursor `c` in a stream of `len` records.
pub open spec fn window_end(c: int, len: int) -> int {
    if c + LOOKAHEAD < len {
        c + LOOKAHEAD
    } else {
        len
    }
}

/// The diff of fingerprint streams `a` (reference) and `b` (comparison) from
/// cursors `i` and `j` on: the indices of `a` classed as missing and the
/// indices of `b` classed as extra, each in increasing order.
///
/// Equal fingerprints advance both cursors. On a mismatch the comparator first
/// looks for `a[i]` in the window of `b` (the records of `b` it skips are
/// extra), then for `b[j]` in the window of `a` (the records of `a` it skips
/// are missing); when neither is found `a[i]` is missing and `b[j]` extra.
/// Once a stream runs out, the rest of the other one is missing or extra.
pub open spec fn align_from(a: Seq<u64>, b: Seq<u64>, i: int, j: int) -> (Seq<int>, Seq<int>)
    decreases a.len() - i + b.len() - j,
{
    if i < 0 || j < 0 || i >= a.len() || j >= b.len() {
        (index_range(i, a.len() as int), index_range(j, b.len() as int))
    } else if a[i] == b[j] {
        align_from(a, b, i + 1, j + 1)
    } else {
        let wb = window_end(j, b.len() as int);
        let kb = find_from(b, a[i], j, wb);
        if j <= kb && kb < wb {
            let rest = align_from(a, b, i + 1, kb + 1);
            (rest.0, index_range(j, kb) + rest.1)
        } else {
            let wa = window_end(i, a.len() as int);
            let ka = find_from(a, b[j], i, wa);
            if i <= ka && ka < wa {
                let rest = align_from(a, b, ka + 1, j + 1);
                (index_range(i, ka) + rest.0, rest.1)
            } else {
                let rest = align_from(a, b, i + 1, j + 1);
                (seq![i] + rest.0, seq![j] + rest.1)
            }
        }
    }
}

/// The diff of two whole fingerprint streams.
pub open spec fn alignment_of(a: Seq<u64>, b: Seq<u64>) -> (Seq<int>, Seq<int>) {
    align_from(a, b, 0, 0)
}

/// The outcome of a comparison: indices of reference records missing from the
/// comparison stream, and indices of comparison records absent from the reference.
pub struct Alignment {
    pub missing: Vec<usize>,
    pub extra: Vec<usize>,
}

impl Alignment {
    /// Both lists as sequences of integers.
    pub open spec fn view_pair(&self) -> (Seq<int>, Seq<int>) {
        (indices(self.missing@), indices(self.extra@))
    }

    /// The two streams hold the same records in the same order.
    pub fn is_identical(&self) -> (r: bool)
        ensures
            r == (self.missing@.len() == 0 && self.extra@.len() == 0),
    {
        self.missing.len() == 0 && self.extra.len() == 0
    }
}

proof fn lemma_find_from_bounds(s: Seq<u64>, x: u64, from: int, to: int)
    requires
        from <= to,
    ensures
        from <= find_from(s, x, from, to) <= to,
        find_from(s, x, from, to) < to ==> s[find_from(s, x, from, to)] == x,
    decreases to - from,
{
    if from < to && s[from] != x {
        lemma_find_from_bounds(s, x, from + 1, to);
    }
}

/// The first position in `from..to` of `v` that holds `x`, or `to`.
fn find_index(v: &Vec<u64>, x: u64, from: usize, to: usize) -> (k: usize)
    requires
        from <= to <= v.len(),
    ensures
        k == find_from(v@, x, from as int, to as int),
{
    let mut k = from;
    while k < to
        invariant
            from <= k <= to <= v.len(),
            find_from(v@, x, from as int, to as int) == find_from(v@, x, k as int, to as int),
        decreases to - k,
    {
        if v[k] == x {
            return k;
        }
        k = k + 1;
    }
    k
}

/// Appends the indices `lo..hi` to `out`.
fn push_range(out: &mut Vec<usize>, lo: usize, hi: usize)
    requires
        lo <= hi,
    ensures
        indices(final(out)@) == indices(old(out)@) + index_range(lo as int, hi as int),
{
    let ghost start = indices(out@);
    let mut k = lo;
    while k < hi
        invariant
            lo <= k <= hi,
            indices(out@) == start + index_range(lo as int, k as int),
        decreases hi - k,
    {
        proof {
            assert(indices(out@.push(k)) =~= indices(out@).push(k as int));
            assert(index_range(lo as int, k as int).push(k as int) =~= index_range(
                lo as int,
                k + 1,
            ));
        }
        out.push(k);
        k = k + 1;
    }
    assert(index_range(lo as int, k as int) =~= index_range(lo as int, hi as int));
}

/// Window end for cursor `c` in a stream of `len` records.
fn window_limit(c: usize, len: usize) -> (w: usize)
    requires
        c <= len,
    ensures
        w == window_end(c as int, len as int),
{
    if c < len && len - c > LOOKAHEAD {
        c + LOOKAHEAD
    } else {
        len
    }
}

/// Diffs two fingerprint streams with bounded-lookahead resynchronization.
pub fn align_fingerprints(a: &Vec<u64>, b: &Vec<u64>) -> (r: Alignment)
    ensures
        r.view_pair() == alignment_of(a@, b@),
{
    let mut missing: Vec<usize> = Vec::new();
    let mut extra: Vec<usize> = Vec::new();
    let mut i: usize = 0;
    let mut j: usize = 0;
    assert(indices(missing@) =~= Seq::<int>::empty());
    assert(indices(extra@) =~= Seq::<int>::empty());
    while i < a.len() && j < b.len()
        invariant
            i <= a.len(),
            j <= b.len(),
            alignment_of(a@, b@).0 == indices(missing@) + align_from(a@, b@, i as int, j as int).0,
            alignment_of(a@, b@).1 == indices(extra@) + align_from(a@, b@, i as int, j as int).1,
        decreases a.len() - i + b.len() - j,
    {
        let ghost m0 = indices(missing@);
        let ghost e0 = indices(extra@);
        if a[i] == b[j] {
            i = i + 1;
            j = j + 1;
            continue;
        }
        let wb = window_limit(j, b.len());
        let kb = find_index(b, a[i], j, wb);
        proof {
            lemma_find_from_bounds(b@, a@[i as int], j as int, wb as int);
        }
        if kb < wb {
            let ghost rest = align_from(a@, b@, i + 1, kb + 1);
            push_range(&mut extra, j, kb);
            assert(indices(extra@) + rest.1 =~= e0 + (index_range(j as int, kb as int) + rest.1));
            i = i + 1;
            j = kb + 1;
            continue;
        }
        let wa = window_limit(i, a.len());
        let ka = find_index(a, b[j], i, wa);
        proof {
            lemma_find_from_bounds(a@, b@[j as int], i as int, wa as int);
        }
        if ka < wa {
            let ghost rest = align_from(a@, b@, ka + 1, j + 1);
            push_range(&mut missing, i, ka);
            assert(indices(missing@) + rest.0 =~= m0 + (index_range(i as int, ka as int) + rest.0));
            i = ka + 1;
            j = j + 1;
            continue;
        }
        let ghost rest = align_from(a@, b@, i + 1, j + 1);
        proof {
            assert(indices(missing@.push(i)) =~= m0.push(i as int));
            assert(indices(extra@.push(j)) =~= e0.push(j as int));
            assert(m0.push(i as int) + rest.0 =~= m0 + (seq![i as int] + rest.0));
            assert(e0.push(j as int) + rest.1 =~= e0 + (seq![j as int] + rest.1));
        }
        missing.push(i);
        extra.push(j);
        i = i + 1;
        j = j + 1;
    }
    push_range(&mut missing, i, a.len());
    push_range(&mut extra, j, b.len());
    assert(indices(missing@) =~= alignment_of(a@, b@).0);
    assert(indices(extra@) =~= alignment_of(a@, b@).1);
    Alignment { missing, extra }
}

/// Where `a` from `i` and `b` from `j` agree on their next `n` fingerprints,
/// the diff from there equals the diff after them.
proof fn lemma_common_run(a: Seq<u64>, b: Seq<u64>, i: int, j: int, n: int)
    requires
        0 <= i,
        0 <= j,
        0 <= n,
        i + n <= a.len(),
        j + n <= b.len(),
        forall|k: int| i <= k < i + n ==> #[trigger] a[k] == b[k - i + j],
    ensures
        align_from(a, b, i, j) == align_from(a, b, i + n, j + n),
    decreases n,
{
    if n > 0 {
        assert(a[i] == b[j]);
        lemma_common_run(a, b, i + 1, j + 1, n - 1);
    }
}

/// Where the rest of `a` from `i` equals the rest of `b` from `j`, nothing more
/// is missing or extra.
proof fn lemma_equal_tails(a: Seq<u64>, b: Seq<u64>, i: int, j: int)
    requires
        0 <= i <= a.len(),
        0 <= j <= b.len(),
        a.len() - i == b.len() - j,
        forall|k: int| i <= k < a.len() ==> #[trigger] a[k] == b[k - i + j],
    ensures
        align_from(a, b, i, j).0.len() == 0,
        align_from(a, b, i, j).1.len() == 0,
{
    lemma_common_run(a, b, i, j, a.len() - i);
}

/// Comparing a stream with itself finds nothing missing and nothing extra.
pub proof fn lemma_self_alignment(a: Seq<u64>)
    ensures
        alignment_of(a, a).0.len() == 0,
        alignment_of(a, a).1.len() == 0,
{
    lemma_equal_tails(a, a, 0, 0);
}

/// Deleting the record at `p` from a copy of `a` makes `p` the one missing
/// index and leaves nothing extra, provided the deleted fingerprint does not
/// recur among the records that follow it within the lookahead window.
pub proof fn lemma_deletion_alignment(a: Seq<u64>, p: int)
    requires
        0 <= p < a.len(),
        forall|k: int| p < k < p + 1 + LOOKAHEAD && k < a.len() ==> a[k] != a[p],
    ensures
        alignment_of(a, a.remove(p)) == (seq![p], Seq::<int>::empty()),
{
    let b = a.remove(p);
    lemma_common_run(a, b, 0, 0, p);
    if p + 1 == a.len() {
        assert(index_range(p, a.len() as int) =~= seq![p]);
        assert(index_range(p, b.len() as int) =~= Seq::<int>::empty());
    } else {
        assert(a[p] != b[p]);
        let wb = window_end(p, b.len() as int);
        assert forall|k: int| p <= k < wb implies b[k] != a[p] by {
            assert(b[k] == a[k + 1]);
        }
        lemma_find_absent(b, a[p], p, wb);
        let wa = window_end(p, a.len() as int);
        assert(find_from(a, b[p], p + 1, wa) == p + 1);
        assert(find_from(a, b[p], p, wa) == p + 1);
        lemma_equal_tails(a, b, p + 2, p + 1);
        let rest = align_from(a, b, p + 2, p + 1);
        assert(index_range(p, p + 1) + rest.0 =~= seq![p]);
        assert(rest.1 =~= Seq::<int>::empty());
    }
}

/// Inserting a fingerprint that `a` does not hold at position `q` makes `q`
/// the one extra index and leaves nothing missing.
pub proof fn lemma_insertion_alignment(a: Seq<u64>, q: int, x: u64)
    requires
        0 <= q <= a.len(),
        !a.contains(x),
    ensures
        alignment_of(a, a.insert(q, x)) == (Seq::<int>::empty(), seq![q]),
{
    let b = a.insert(q, x);
    lemma_common_run(a, b, 0, 0, q);
    if q == a.len() {
        assert(index_range(q, a.len() as int) =~= Seq::<int>::empty());
        assert(index_range(q, b.len() as int) =~= seq![q]);
    } else {
        assert(a[q] != b[q]);
        let wb = window_end(q, b.len() as int);
        assert(find_from(b, a[q], q + 1, wb) == q + 1);
        assert(find_from(b, a[q], q, wb) == q + 1);
        lemma_equal_tails(a, b, q + 1, q + 2);
        let rest = align_from(a, b, q + 1, q + 2);
        assert(index_range(q, q + 1) + rest.1 =~= seq![q]);
        assert(rest.0 =~= Seq::<int>::empty());
    }
}

proof fn lemma_find_absent(s: Seq<u64>, x: u64, from: int, to: int)
    requires
        from <= to,
        forall|k: int| from <= k < to ==> s[k] != x,
    ensures
        find_from(s, x, from, to) == to,
    decreases to - from,
{
    if from < to {
        lemma_find_absent(s, x, from + 1, to);
    }
}

} // verus!
