//! What is left of a pipeline once it has run.
use std::time::Duration;
use vstd::prelude::*;

use crate::metrics::{MetricsSnapshot, OperatorMetrics};
use crate::operator::{StopHandle, StopToken};

verus! {

/// The sum of a counter over all operators.
pub open spec fn total(
    metrics: Seq<(String, MetricsSnapshot)>,
    counter: spec_fn(MetricsSnapshot) -> u64,
) -> nat
    decreases metrics.len(),
{
    if metrics.len() == 0 {
        0
    } else {
        total(metrics.drop_last(), counter) + counter(metrics.last().1) as nat
    }
}

proof fn lemma_total_grows(
    metrics: Seq<(String, MetricsSnapshot)>,
    counter: spec_fn(MetricsSnapshot) -> u64,
    n: int,
)
    requires
        0 <= n <= metrics.len(),
    ensures
        total(metrics.take(n), counter) <= total(metrics, counter),
    decreases metrics.len(),
{
    if n < metrics.len() {
        lemma_total_grows(metrics.drop_last(), counter, n);
        assert(metrics.drop_last().take(n) =~= metrics.take(n));
    } else {
        assert(metrics.take(n) =~= metrics);
    }
}

/// The total does not depend on the order in which the operators are listed.
pub proof fn law_total_ignores_order(
    a: Seq<(String, MetricsSnapshot)>,
    b: Seq<(String, MetricsSnapshot)>,
    counter: spec_fn(MetricsSnapshot) -> u64,
)
    requires
        a.to_multiset() == b.to_multiset(),
    ensures
        total(a, counter) == total(b, counter),
    decreases a.len(),
{
    broadcast use vstd::seq_lib::group_to_multiset_ensures;

    assert(a.len() == a.to_multiset().len() && b.len() == b.to_multiset().len());
    if a.len() > 0 {
        let last = a.last();
        assert(a.to_multiset().contains(last));
        assert(b.contains(last));
        let i = b.index_of(last);
        let rest = b.remove(i);
        assert(a.drop_last() =~= a.remove(a.len() - 1));
        assert(a.drop_last().to_multiset() =~= rest.to_multiset());
        law_total_ignores_order(a.drop_last(), rest, counter);
        lemma_total_without(b, counter, i);
    }
}

proof fn lemma_total_without(
    metrics: Seq<(String, MetricsSnapshot)>,
    counter: spec_fn(MetricsSnapshot) -> u64,
    i: int,
)
    requires
        0 <= i < metrics.len(),
    ensures
        total(metrics, counter) == total(metrics.remove(i), counter) + counter(metrics[i].1),
    decreases metrics.len(),
{
    if i < metrics.len() - 1 {
        lemma_total_without(metrics.drop_last(), counter, i);
        assert(metrics.remove(i).drop_last() =~= metrics.drop_last().remove(i));
        assert(metrics.remove(i).last() == metrics.last());
    } else {
        assert(metrics.remove(i) =~= metrics.drop_last());
    }
}

/// Whether no name is listed twice.
pub open spec fn names_differ<V>(listed: Seq<(String, V)>) -> bool {
    forall|i: int, j: int|
        0 <= i < j < listed.len() ==> (#[trigger] listed[i]).0@ != (#[trigger] listed[j]).0@
}

/// Whether these are the metrics of every operator as they stand, under its name and in the same
/// order.
pub open spec fn are_snapshots(
    all: Seq<(String, MetricsSnapshot)>,
    metrics: Seq<(String, OperatorMetrics)>,
) -> bool {
    &&& all.len() == metrics.len()
    &&& forall|i: int|
        #![trigger all[i]]
        0 <= i < all.len() ==> {
            let (m, s) = (metrics[i].1, all[i].1);
            &&& all[i].0@ == metrics[i].0@
            &&& s.records_in == m.records_in
            &&& s.records_out == m.records_out
            &&& s.records_dropped == m.records_dropped
            &&& s.errors == m.errors
            &&& s.processing_ns == m.processing_ns
        }
}

/// The metrics of every operator as they stand, under its name and in the same order.
pub fn snapshots(metrics: &Vec<(String, OperatorMetrics)>) -> (all: Vec<(String, MetricsSnapshot)>)
    ensures
        are_snapshots(all@, metrics@),
        names_differ(metrics@) ==> names_differ(all@),
{
    let mut all: Vec<(String, MetricsSnapshot)> = Vec::new();
    for i in 0..metrics.len()
        invariant
            are_snapshots(all@, metrics@.take(i as int)),
    {
        all.push((metrics[i].0.clone(), metrics[i].1.snapshot()));
    }
    assert(metrics@.take(metrics@.len() as int) =~= metrics@);
    assert(names_differ(metrics@) ==> names_differ(all@)) by {
        assert forall|i: int, j: int|
            names_differ(metrics@) && 0 <= i < j < all@.len() implies (#[trigger] all@[i]).0@
            != (#[trigger] all@[j]).0@ by {
            assert(metrics@[i].0@ != metrics@[j].0@);
        }
    }
    all
}

/// What a pipeline has done by the time it was shut down.
pub struct ShutdownReport {
    pub elapsed: Duration,
    /// The threads of the pipeline, and whether each ended without a panic.
    pub thread_results: Vec<(String, bool)>,
    /// The metrics of each operator, under its name.
    pub metrics: Vec<(String, MetricsSnapshot)>,
}

impl ShutdownReport {
    /// No operator is listed twice.
    pub open spec fn wf(&self) -> bool {
        names_differ(self.metrics@)
    }

    /// The report on a pipeline whose operators have these metrics.
    pub fn new(
        elapsed: Duration,
        thread_results: Vec<(String, bool)>,
        metrics: &Vec<(String, OperatorMetrics)>,
    ) -> (report: Self)
        ensures
            report.elapsed == elapsed,
            report.thread_results == thread_results,
            are_snapshots(report.metrics@, metrics@),
            names_differ(metrics@) ==> report.wf(),
    {
        ShutdownReport { elapsed, thread_results, metrics: snapshots(metrics) }
    }

    /// The records that all operators sent.
    pub open spec fn spec_total_records_out(&self) -> nat {
        total(self.metrics@, |m: MetricsSnapshot| m.records_out)
    }

    /// The records that all operators dropped.
    pub open spec fn spec_total_dropped(&self) -> nat {
        total(self.metrics@, |m: MetricsSnapshot| m.records_dropped)
    }

    /// Whether both totals can be represented.
    pub fn totals_fit(&self) -> (fit: bool)
        ensures
            fit <==> self.spec_total_records_out() <= u64::MAX && self.spec_total_dropped()
                <= u64::MAX,
    {
        let ghost out = |m: MetricsSnapshot| m.records_out;
        let ghost dropped = |m: MetricsSnapshot| m.records_dropped;
        let mut total_out: u64 = 0;
        let mut total_dropped: u64 = 0;
        for i in 0..self.metrics.len()
            invariant
                total_out == total(self.metrics@.take(i as int), out),
                total_dropped == total(self.metrics@.take(i as int), dropped),
                out == (|m: MetricsSnapshot| m.records_out),
                dropped == (|m: MetricsSnapshot| m.records_dropped),
        {
            proof {
                assert(self.metrics@.take(i + 1).drop_last() =~= self.metrics@.take(i as int));
                lemma_total_grows(self.metrics@, out, i + 1);
                lemma_total_grows(self.metrics@, dropped, i + 1);
            }
            let m = &self.metrics[i].1;
            match (
                total_out.checked_add(m.records_out),
                total_dropped.checked_add(m.records_dropped),
            ) {
                (Some(a), Some(b)) => {
                    total_out = a;
                    total_dropped = b;
                },
                _ => {
                    return false;
                },
            }
        }
        assert(self.metrics@.take(self.metrics@.len() as int) =~= self.metrics@);
        true
    }

    pub fn total_records_out(&self) -> (n: u64)
        requires
            self.spec_total_records_out() <= u64::MAX,
        ensures
            n == self.spec_total_records_out(),
    {
        let ghost counter = |m: MetricsSnapshot| m.records_out;
        let mut n: u64 = 0;
        for i in 0..self.metrics.len()
            invariant
                n == total(self.metrics@.take(i as int), counter),
                total(self.metrics@, counter) <= u64::MAX,
                counter == (|m: MetricsSnapshot| m.records_out),
        {
            proof {
                assert(self.metrics@.take(i + 1).drop_last() =~= self.metrics@.take(i as int));
                lemma_total_grows(self.metrics@, counter, i + 1);
            }
            n = n + self.metrics[i].1.records_out;
        }
        assert(self.metrics@.take(self.metrics@.len() as int) =~= self.metrics@);
        n
    }

    pub fn total_dropped(&self) -> (n: u64)
        requires
            self.spec_total_dropped() <= u64::MAX,
        ensures
            n == self.spec_total_dropped(),
    {
        let ghost counter = |m: MetricsSnapshot| m.records_dropped;
        let mut n: u64 = 0;
        for i in 0..self.metrics.len()
            invariant
                n == total(self.metrics@.take(i as int), counter),
                total(self.metrics@, counter) <= u64::MAX,
                counter == (|m: MetricsSnapshot| m.records_dropped),
        {
            proof {
                assert(self.metrics@.take(i + 1).drop_last() =~= self.metrics@.take(i as int));
                lemma_total_grows(self.metrics@, counter, i + 1);
            }
            n = n + self.metrics[i].1.records_dropped;
        }
        assert(self.metrics@.take(self.metrics@.len() as int) =~= self.metrics@);
        n
    }

    /// Whether every thread ended without a panic.
    pub fn all_threads_ok(&self) -> (ok: bool)
        ensures
            ok <==> forall|i: int| 0 <= i < self.thread_results@.len() ==> #[trigger]
                self.thread_results@[i].1,
    {
        for i in 0..self.thread_results.len()
            invariant
                forall|k: int| 0 <= k < i ==> #[trigger] self.thread_results@[k].1,
        {
            if !self.thread_results[i].1 {
                return false;
            }
        }
        true
    }
}

/// What waiting for a condition does next.
#[derive(Clone, Copy, Debug, PartialEq, Eq, Structural)]
pub enum WaitStep {
    /// Ends with that answer.
    Done(bool),
    /// Sleeps a while and looks again.
    Poll,
}

/// Decides on a look at the condition: waiting ends with success as soon as it is met, and with
/// failure only at a look that comes after the deadline.
pub fn wait_step(before_deadline: bool, met: bool) -> (step: WaitStep)
    ensures
        step == WaitStep::Done(true) <==> met,
        step == WaitStep::Done(false) <==> !met && !before_deadline,
{
    if met {
        WaitStep::Done(true)
    } else if before_deadline {
        WaitStep::Poll
    } else {
        WaitStep::Done(false)
    }
}

/// Both sides of a new stop signal, which is not raised. Nothing is stated of what a later look
/// at it finds.
pub fn make_stop_pair() -> (pair: (StopToken, StopHandle))
    ensures
        pair.0.is_raised_by(pair.1),
        pair.0.starts_lowered(),
{
    StopToken::new()
}

/// The total of no operators is nothing, that of one is its counter, and that of several is the sum
/// of the totals of their parts.
pub proof fn law_total_in_parts(
    a: Seq<(String, MetricsSnapshot)>,
    b: Seq<(String, MetricsSnapshot)>,
    one: (String, MetricsSnapshot),
    counter: spec_fn(MetricsSnapshot) -> u64,
)
    ensures
        total(Seq::empty(), counter) == 0,
        total(seq![one], counter) == counter(one.1),
        total(a + b, counter) == total(a, counter) + total(b, counter),
    decreases b.len(),
{
    reveal_with_fuel(total, 2);
    assert(seq![one].drop_last() =~= Seq::empty());
    if b.len() == 0 {
        assert(a + b =~= a);
    } else {
        law_total_in_parts(a, b.drop_last(), one, counter);
        assert((a + b).drop_last() =~= a + b.drop_last());
    }
}

/// A report counts what the operators counted: its totals are those of the records that they sent
/// and dropped, and every operator is reported under its name with all its counters.
pub proof fn law_report_counts_what_was_counted(
    report: ShutdownReport,
    metrics: Seq<(String, OperatorMetrics)>,
)
    requires
        are_snapshots(report.metrics@, metrics),
    ensures
        report.metrics@.len() == metrics.len(),
        forall|i: int|
            0 <= i < metrics.len() ==> {
                let (reported, own) = (#[trigger] report.metrics@[i], metrics[i]);
                &&& reported.0@ == own.0@
                &&& reported.1.records_in == own.1.records_in
                &&& reported.1.records_out == own.1.records_out
                &&& reported.1.records_dropped == own.1.records_dropped
                &&& reported.1.errors == own.1.errors
                &&& reported.1.processing_ns == own.1.processing_ns
            },
        report.spec_total_records_out() == metrics.fold_left(
            0int,
            |sum: int, m: (String, OperatorMetrics)| sum + m.1.records_out,
        ),
        report.spec_total_dropped() == metrics.fold_left(
            0int,
            |sum: int, m: (String, OperatorMetrics)| sum + m.1.records_dropped,
        ),
{
    lemma_totals(report.metrics@, metrics);
}

proof fn lemma_totals(
    all: Seq<(String, MetricsSnapshot)>,
    metrics: Seq<(String, OperatorMetrics)>,
)
    requires
        are_snapshots(all, metrics),
    ensures
        total(all, |m: MetricsSnapshot| m.records_out) == metrics.fold_left(
            0int,
            |sum: int, m: (String, OperatorMetrics)| sum + m.1.records_out,
        ),
        total(all, |m: MetricsSnapshot| m.records_dropped) == metrics.fold_left(
            0int,
            |sum: int, m: (String, OperatorMetrics)| sum + m.1.records_dropped,
        ),
    decreases all.len(),
{
    reveal(Seq::fold_left);
    if all.len() > 0 {
        let (rest, own) = (all.drop_last(), metrics.drop_last());
        assert forall|i: int|
            #![trigger rest[i]]
            0 <= i < rest.len() implies {
            let (m, s) = (own[i].1, rest[i].1);
            &&& rest[i].0@ == own[i].0@
            &&& s.records_in == m.records_in
            &&& s.records_out == m.records_out
            &&& s.records_dropped == m.records_dropped
            &&& s.errors == m.errors
            &&& s.processing_ns == m.processing_ns
        } by {
            assert(rest[i] == all[i]);
        }
        lemma_totals(rest, own);
        assert(all[all.len() - 1] == all.last());
    }
}

} // verus!
