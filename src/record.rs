use vstd::prelude::*;

verus! {

/// One timestamped capture record: a timestamp in seconds and microseconds,
/// the two length fields of its header, and its payload bytes.
pub struct CaptureRecord {
    pub ts_sec: u32,
    pub ts_usec: u32,
    pub incl_len: u32,
    pub orig_len: u32,
    pub data: Vec<u8>,
}

/// Errors of the stream transforms.
#[derive(Debug, PartialEq, Eq, Clone, Copy, Structural)]
pub enum EditError {
    /// A factor lies outside the range that the operation accepts.
    InvalidParameter,
    /// The stream holds no record where at least one is needed.
    EmptyStream,
    /// The stream holds fewer records than the dilution factor.
    InsufficientPackets,
    /// A rescaled timestamp falls outside what a record header can hold.
    TimestampOutOfRange,
}

/// Microseconds in one second.
pub const USEC_PER_SEC: u64 = 1_000_000;

/// The largest instant, in microseconds, that a normalized header can hold.
pub open spec fn max_micros() -> int {
    u32::MAX as int * 1_000_000 + 999_999
}

/// The largest instant, in microseconds, that a normalized header can hold.
pub fn max_instant() -> (t: u64)
    ensures
        t == max_micros(),
{
    u32::MAX as u64 * USEC_PER_SEC + (USEC_PER_SEC - 1)
}

/// Every record of the stream has a normalized timestamp.
pub open spec fn normalized_stream(s: Seq<CaptureRecord>) -> bool {
    forall|k: int| 0 <= k < s.len() ==> (#[trigger] s[k]).normalized()
}

/// An upper bound on the instant, in microseconds, of any record header.
pub open spec fn micros_bound() -> int {
    u32::MAX as int * 1_000_000 + u32::MAX as int
}

impl CaptureRecord {
    /// The record's instant in microseconds.
    pub open spec fn micros(&self) -> int {
        self.ts_sec as int * 1_000_000 + self.ts_usec as int
    }

    /// The two records carry the same lengths and payload.
    pub open spec fn same_content(&self, other: &CaptureRecord) -> bool {
        &&& self.incl_len == other.incl_len
        &&& self.orig_len == other.orig_len
        &&& self.data@ == other.data@
    }

    /// The microseconds field holds less than one second.
    pub open spec fn normalized(&self) -> bool {
        self.ts_usec < 1_000_000
    }

    /// The record's instant in microseconds.
    pub fn timestamp_micros(&self) -> (t: u64)
        ensures
            t == self.micros(),
            t <= micros_bound(),
    {
        self.ts_sec as u64 * USEC_PER_SEC + self.ts_usec as u64
    }

    /// A copy of the record's lengths and payload, stamped with instant `t`
    /// (microseconds), carried into whole seconds.
    pub fn restamped(&self, t: u64) -> (r: CaptureRecord)
        requires
            t <= max_micros(),
        ensures
            r.micros() == t,
            r.normalized(),
            r.same_content(self),
    {
        let data = self.data.clone();
        assert(data@ =~= self.data@);
        CaptureRecord {
            ts_sec: (t / USEC_PER_SEC) as u32,
            ts_usec: (t % USEC_PER_SEC) as u32,
            incl_len: self.incl_len,
            orig_len: self.orig_len,
            data,
        }
    }

    /// A copy of the record, timestamp included.
    pub fn duplicate(&self) -> (r: CaptureRecord)
        ensures
            r.micros() == self.micros(),
            r.ts_sec == self.ts_sec,
            r.ts_usec == self.ts_usec,
            r.same_content(self),
    {
        let data = self.data.clone();
        assert(data@ =~= self.data@);
        CaptureRecord {
            ts_sec: self.ts_sec,
            ts_usec: self.ts_usec,
            incl_len: self.incl_len,
            orig_len: self.orig_len,
            data,
        }
    }
}

} // verus!
