//! Runtime metrics of an operator: counters and a latency histogram.
pub mod histogram;

use std::time::Duration;
use vstd::prelude::*;

use crate::channel::SendResult;
use crate::time;

pub use self::histogram::{LatencyHistogram, TimedScope};

verus! {

/// What an operator has done so far. Every counter wraps around at its upper end.
#[derive(Debug, Clone, Copy)]
pub struct OperatorMetrics {
    pub records_in: u64,
    pub records_out: u64,
    pub records_dropped: u64,
    pub errors: u64,
    /// Total nanoseconds spent processing.
    pub processing_ns: u64,
}

impl OperatorMetrics {
    pub open spec fn zero() -> Self {
        OperatorMetrics {
            records_in: 0,
            records_out: 0,
            records_dropped: 0,
            errors: 0,
            processing_ns: 0,
        }
    }

    pub open spec fn with_in(self) -> Self {
        OperatorMetrics { records_in: self.records_in.wrapping_add(1), ..self }
    }

    pub open spec fn with_out(self) -> Self {
        OperatorMetrics { records_out: self.records_out.wrapping_add(1), ..self }
    }

    pub open spec fn with_dropped(self) -> Self {
        OperatorMetrics { records_dropped: self.records_dropped.wrapping_add(1), ..self }
    }

    pub open spec fn with_error(self) -> Self {
        OperatorMetrics { errors: self.errors.wrapping_add(1), ..self }
    }

    pub open spec fn with_processing_ns(self, ns: u64) -> Self {
        OperatorMetrics { processing_ns: self.processing_ns.wrapping_add(ns), ..self }
    }

    /// The metrics after one item was sent with that outcome.
    pub open spec fn with_outcome(self, outcome: SendResult) -> Self {
        match outcome {
            SendResult::Sent => self.with_out(),
            SendResult::Dropped => self.with_dropped(),
            SendResult::Disconnected => self,
        }
    }

    /// The metrics after items were sent with these outcomes, one after the other.
    pub open spec fn with_outcomes(self, outcomes: Seq<SendResult>) -> Self
        decreases outcomes.len(),
    {
        if outcomes.len() == 0 {
            self
        } else {
            self.with_outcomes(outcomes.drop_last()).with_outcome(outcomes.last())
        }
    }

    pub fn new() -> (m: Self)
        ensures
            m == Self::zero(),
    {
        OperatorMetrics {
            records_in: 0,
            records_out: 0,
            records_dropped: 0,
            errors: 0,
            processing_ns: 0,
        }
    }

    pub fn record_in(&mut self)
        ensures
            *final(self) == old(self).with_in(),
    {
        self.records_in = self.records_in.wrapping_add(1);
    }

    pub fn record_out(&mut self)
        ensures
            *final(self) == old(self).with_out(),
    {
        self.records_out = self.records_out.wrapping_add(1);
    }

    pub fn drop_record(&mut self)
        ensures
            *final(self) == old(self).with_dropped(),
    {
        self.records_dropped = self.records_dropped.wrapping_add(1);
    }

    pub fn record_error(&mut self)
        ensures
            *final(self) == old(self).with_error(),
    {
        self.errors = self.errors.wrapping_add(1);
    }

    pub fn add_processing_ns(&mut self, ns: u64)
        ensures
            *final(self) == old(self).with_processing_ns(ns),
    {
        self.processing_ns = self.processing_ns.wrapping_add(ns);
    }

    /// Counts an item that was sent or dropped. An item that found nobody to receive it counts
    /// as neither.
    pub fn record_outcome(&mut self, outcome: SendResult)
        ensures
            *final(self) == old(self).with_outcome(outcome),
    {
        match outcome {
            SendResult::Sent => self.record_out(),
            SendResult::Dropped => self.drop_record(),
            SendResult::Disconnected => {},
        }
    }

    pub fn snapshot(&self) -> (s: MetricsSnapshot)
        ensures
            s.records_in == self.records_in,
            s.records_out == self.records_out,
            s.records_dropped == self.records_dropped,
            s.errors == self.errors,
            s.processing_ns == self.processing_ns,
    {
        MetricsSnapshot {
            records_in: self.records_in,
            records_out: self.records_out,
            records_dropped: self.records_dropped,
            errors: self.errors,
            processing_ns: self.processing_ns,
        }
    }
}

/// Outcomes may be counted in parts.
pub proof fn law_outcomes_in_parts(m: OperatorMetrics, a: Seq<SendResult>, b: Seq<SendResult>)
    ensures
        m.with_outcomes(a + b) == m.with_outcomes(a).with_outcomes(b),
    decreases b.len(),
{
    if b.len() == 0 {
        assert(a + b =~= a);
    } else {
        law_outcomes_in_parts(m, a, b.drop_last());
        assert((a + b).drop_last() =~= a + b.drop_last());
    }
}

/// The number of outcomes of one sort.
pub open spec fn tally(outcomes: Seq<SendResult>, sort: SendResult) -> nat {
    outcomes.filter(|o: SendResult| o == sort).len()
}

/// Where a counter that wraps around stands after it has counted up to `n`.
pub open spec fn wrapped(n: int) -> u64 {
    (n % 0x1_0000_0000_0000_0000) as u64
}

/// Counting outcomes adds one to the records sent for each item that was sent, and one to the
/// records dropped for each that was dropped, where the counters wrap around at their upper end;
/// all else stays as it was, and an item that nobody could receive leaves no trace.
pub proof fn law_outcomes_are_counted(m: OperatorMetrics, outcomes: Seq<SendResult>)
    ensures
        ({
            let after = m.with_outcomes(outcomes);
            let sent = tally(outcomes, SendResult::Sent);
            let dropped = tally(outcomes, SendResult::Dropped);
            &&& after.records_out == wrapped(m.records_out + sent)
            &&& after.records_dropped == wrapped(m.records_dropped + dropped)
            &&& after.records_in == m.records_in
            &&& after.errors == m.errors
            &&& after.processing_ns == m.processing_ns
            &&& sent + dropped <= outcomes.len()
        }),
    decreases outcomes.len(),
{
    reveal(Seq::filter);
    if outcomes.len() > 0 {
        law_outcomes_are_counted(m, outcomes.drop_last());
    }
}

/// Counting outcomes leaves all but the records sent and dropped as it was.
pub proof fn lemma_outcomes_leave_the_rest(m: OperatorMetrics, outcomes: Seq<SendResult>)
    ensures
        m.with_outcomes(outcomes).records_in == m.records_in,
        m.with_outcomes(outcomes).errors == m.errors,
        m.with_outcomes(outcomes).processing_ns == m.processing_ns,
    decreases outcomes.len(),
{
    if outcomes.len() > 0 {
        lemma_outcomes_leave_the_rest(m, outcomes.drop_last());
    }
}

impl Default for OperatorMetrics {
    fn default() -> (m: Self)
        ensures
            m == Self::zero(),
    {
        Self::new()
    }
}

/// An exact quotient.
#[derive(Debug, Clone, Copy, PartialEq, Eq, Structural)]
pub struct Ratio {
    pub num: u128,
    pub den: u128,
}

impl Ratio {
    pub open spec fn of(num: int, den: int) -> Self {
        Ratio { num: num as u128, den: den as u128 }
    }
}

/// The metrics of an operator at one moment.
#[derive(Debug, Clone, Copy)]
pub struct MetricsSnapshot {
    pub records_in: u64,
    pub records_out: u64,
    pub records_dropped: u64,
    pub errors: u64,
    pub processing_ns: u64,
}

impl MetricsSnapshot {
    /// Records sent per second over a time. Zero over no time at all.
    pub open spec fn spec_throughput_per_sec(&self, elapsed: Duration) -> Ratio {
        if time::duration_nanos(elapsed) == 0 {
            Ratio::of(0, 1)
        } else {
            Ratio::of(self.records_out * 1_000_000_000, time::duration_nanos(elapsed) as int)
        }
    }

    /// Microseconds of processing per record sent. Zero where none was sent.
    pub open spec fn spec_avg_latency_us(&self) -> Ratio {
        if self.records_out == 0 {
            Ratio::of(0, 1)
        } else {
            Ratio::of(self.processing_ns as int, self.records_out * 1000)
        }
    }

    /// The share of dropped records in those received and dropped. Zero where there are none.
    pub open spec fn spec_drop_rate(&self) -> Ratio {
        if self.records_in + self.records_dropped == 0 {
            Ratio::of(0, 1)
        } else {
            Ratio::of(self.records_dropped as int, self.records_in + self.records_dropped)
        }
    }

    /// Records sent per second over a time. Zero over no time at all.
    pub fn throughput_per_sec(&self, elapsed: Duration) -> (r: Ratio)
        ensures
            r == self.spec_throughput_per_sec(elapsed),
    {
        let nanos: u128 = elapsed.as_nanos();
        if nanos == 0 {
            Ratio { num: 0, den: 1 }
        } else {
            Ratio { num: self.records_out as u128 * 1_000_000_000, den: nanos }
        }
    }

    /// Microseconds of processing per record sent. Zero where none was sent.
    pub fn avg_latency_us(&self) -> (r: Ratio)
        ensures
            r == self.spec_avg_latency_us(),
    {
        if self.records_out == 0 {
            Ratio { num: 0, den: 1 }
        } else {
            Ratio { num: self.processing_ns as u128, den: self.records_out as u128 * 1000 }
        }
    }

    /// The share of dropped records in those received and dropped. Zero where there are none.
    pub fn drop_rate(&self) -> (r: Ratio)
        ensures
            r == self.spec_drop_rate(),
    {
        let total: u128 = self.records_in as u128 + self.records_dropped as u128;
        if total == 0 {
            Ratio { num: 0, den: 1 }
        } else {
            Ratio { num: self.records_dropped as u128, den: total }
        }
    }
}

/// The throughput times the time gives back the records sent: `n` records over `t` nanoseconds are
/// `n * 10^9 / t` a second. Over no time at all it is zero.
pub proof fn law_throughput_times_time(s: MetricsSnapshot, elapsed: Duration)
    ensures
        ({
            let r = s.spec_throughput_per_sec(elapsed);
            let nanos = time::duration_nanos(elapsed);
            &&& r.den > 0
            &&& nanos == 0 ==> r.num == 0
            &&& nanos > 0 ==> r.num * nanos == r.den * (s.records_out * 1_000_000_000)
        }),
{
    let nanos = time::duration_nanos(elapsed) as int;
    if nanos > 0 {
        let n = s.records_out * 1_000_000_000;
        assert(n * nanos == nanos * n) by (nonlinear_arith);
    }
}

/// The average latency times the records sent gives back the time spent, where a microsecond is a
/// thousand nanoseconds. Where none was sent it is zero.
pub proof fn law_latency_times_records(s: MetricsSnapshot)
    ensures
        ({
            let r = s.spec_avg_latency_us();
            &&& r.den > 0
            &&& s.records_out == 0 ==> r.num == 0
            &&& s.records_out > 0 ==> r.num * (s.records_out * 1000) == r.den * s.processing_ns
        }),
{
    let (n, t) = (s.records_out * 1000, s.processing_ns as int);
    assert(t * n == n * t) by (nonlinear_arith);
}

/// The drop rate is a share: between zero and one, zero exactly where nothing was dropped, and
/// times all records that came in or were dropped it gives back those that were dropped.
pub proof fn law_drop_rate_is_a_share(s: MetricsSnapshot)
    ensures
        ({
            let r = s.spec_drop_rate();
            &&& r.den > 0
            &&& r.num <= r.den
            &&& r.num == 0 <==> s.records_dropped == 0
            &&& r.num * (s.records_in + s.records_dropped) == r.den * s.records_dropped
        }),
{
    let (all, dropped) = (s.records_in + s.records_dropped, s.records_dropped as int);
    let r = s.spec_drop_rate();
    assert(dropped * all == all * dropped) by (nonlinear_arith);
    if all == 0 {
        assert(r.num == 0 && r.den == 1);
        assert(r.num * all == 0 && r.den * dropped == 0);
    } else {
        assert(r.num == dropped && r.den == all);
        assert(r.num * all == r.den * dropped);
    }
}

} // verus!
