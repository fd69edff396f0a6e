//! Run counters and the estimate of the time that remains.
use vstd::prelude::*;
use std::time::{Duration, Instant};

verus! {

/// std::time::Instant, held opaque: the start of a run.
#[verifier::external_type_specification]
#[verifier::external_body]
pub struct ExInstant(std::time::Instant);

/// Relies on Instant::now for the start of a run; nothing is known of the value.
pub assume_specification[ std::time::Instant::now ]() -> std::time::Instant;

/// The whole nanoseconds of a duration, as Duration::as_nanos reads them.
pub uninterp spec fn duration_nanos(d: core::time::Duration) -> int;

/// Relies on Instant::elapsed for the time since the start of a run; like
/// every duration its nanoseconds fit the `u128` that Duration::as_nanos returns.
pub assume_specification[ std::time::Instant::elapsed ](i: &std::time::Instant) -> (r: core::time::Duration)
    ensures
        0 <= duration_nanos(r) <= u128::MAX,
;

/// Relies on Duration::as_nanos to read a duration as whole nanoseconds.
pub assume_specification[ core::time::Duration::as_nanos ](d: &core::time::Duration) -> (r: u128)
    ensures
        r == duration_nanos(*d),
;

/// Relies on Duration::from_nanos: the duration of exactly `nanos` nanoseconds.
pub assume_specification[ core::time::Duration::from_nanos ](nanos: u64) -> (r: core::time::Duration)
    ensures
        duration_nanos(r) == nanos,
;

/// Progress counters of one run.
pub struct Telemetry {
    pub files_processed: usize,
    pub bytes_read: usize,
    pub tokens_aggregated: usize,
    pub start_time: Instant,
}

/// Estimated nanoseconds left: the average time per processed file times the
/// files that remain, saturated to `u64`.
pub open spec fn ebt_nanos(elapsed: int, processed: int, total: int) -> int {
    let remaining = if total > processed { total - processed } else { 0 };
    let e = elapsed * remaining / processed;
    if e > u64::MAX { u64::MAX as int } else { e }
}

proof fn lemma_big_quotient(elapsed: int, remaining: int, processed: int)
    requires
        remaining > 0,
        elapsed * remaining > u128::MAX,
        0 < processed <= u64::MAX,
    ensures
        elapsed * remaining / processed > u64::MAX,
{
    assert(elapsed * remaining / processed > u64::MAX) by (nonlinear_arith)
        requires
            elapsed * remaining > u128::MAX,
            0 < processed <= u64::MAX,
            u128::MAX == 340282366920938463463374607431768211455int,
            u64::MAX == 18446744073709551615int,
    ;
}

/// Estimated nanoseconds left after `processed` of `total` files took `elapsed`.
pub fn estimate_remaining_nanos(elapsed: u128, processed: usize, total: usize) -> (r: u64)
    requires
        processed > 0,
    ensures
        r == ebt_nanos(elapsed as int, processed as int, total as int),
{
    let remaining: usize = if total > processed { total - processed } else { 0 };
    if remaining == 0 {
        assert(elapsed * 0 / processed as int == 0) by (nonlinear_arith)
            requires processed > 0;
        return 0;
    }
    if elapsed > u128::MAX / (remaining as u128) {
        assert(elapsed * remaining > u128::MAX) by (nonlinear_arith)
            requires
                remaining > 0,
                elapsed > u128::MAX / (remaining as u128),
        ;
        proof { lemma_big_quotient(elapsed as int, remaining as int, processed as int); }
        return u64::MAX;
    }
    assert(elapsed * remaining <= u128::MAX) by (nonlinear_arith)
        requires
            remaining > 0,
            elapsed <= u128::MAX / (remaining as u128),
    ;
    let e = elapsed * (remaining as u128) / (processed as u128);
    if e > u64::MAX as u128 { u64::MAX } else { e as u64 }
}

/// Whether a progress line is due after the count went from `before` to
/// `after`: on every tenth file and on the last one.
pub open spec fn report_due_spec(before: int, after: int, total: int) -> bool {
    exists|c: int| before < c <= after && #[trigger] report_point(c, total)
}

/// A count at which progress is reported.
pub open spec fn report_point(c: int, total: int) -> bool {
    c % 10 == 0 || c == total
}

/// Whether a progress line is due after the count went from `before` to `after`.
pub fn report_due(before: usize, after: usize, total: usize) -> (r: bool)
    ensures
        r == report_due_spec(before as int, after as int, total as int),
{
    let mut c: usize = before;
    while c < after
        invariant
            before <= c,
            c <= after || before >= after,
            forall|d: int| before < d <= c ==> !#[trigger] report_point(d, total as int),
        decreases after - c,
    {
        c = c + 1;
        if c % 10 == 0 || c == total {
            assert(report_point(c as int, total as int));
            return true;
        }
    }
    false
}

impl Telemetry {
    /// Zero counters, started now.
    pub fn new() -> (r: Telemetry)
        ensures
            r.files_processed == 0,
            r.bytes_read == 0,
            r.tokens_aggregated == 0,
    {
        Telemetry { files_processed: 0, bytes_read: 0, tokens_aggregated: 0, start_time: Instant::now() }
    }

    /// Time since the run started.
    pub fn elapsed(&self) -> (r: Duration)
        ensures
            0 <= duration_nanos(r) <= u128::MAX,
    {
        self.start_time.elapsed()
    }

    /// Estimated time left for `total_files`, or `None` before the first file.
    pub fn ebt(&self, total_files: usize) -> (r: Option<Duration>)
        ensures
            r is None <==> self.files_processed == 0,
            self.files_processed > 0 ==> (r matches Some(d) && exists|e: int| 0 <= e
                && duration_nanos(d) == #[trigger] ebt_nanos(e, self.files_processed as int, total_files as int)),
    {
        if self.files_processed == 0 {
            return None;
        }
        let elapsed = self.elapsed().as_nanos();
        let nanos = estimate_remaining_nanos(elapsed, self.files_processed, total_files);
        Some(Duration::from_nanos(nanos))
    }
}

} // verus!
