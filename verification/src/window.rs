//! Event-time windows: tumbling, sliding and session windows over timestamped records.
//!
//! A window collects records until the watermark reaches its end. It then closes and yields one
//! aggregate. Timestamps and window bounds are milliseconds since the epoch, and a window
//! `[start, end)` covers the timestamps from `start` up to but not including `end`. A window holds
//! the records whose timestamps it covers; a sliding window may hold some of a later time as well,
//! as `sliding::takes` says.
pub mod buckets;
pub mod contents;
pub mod session;
pub mod sliding;
pub mod tumbling;

use vstd::prelude::*;

pub use self::session::SessionWindow;
pub use self::sliding::SlidingWindow;
pub use self::tumbling::TumblingWindow;

verus! {

/// Milliseconds since the epoch.
pub type Timestamp = u64;

/// All windows operate on events tagged with a timestamp.
#[derive(Debug, Clone)]
pub struct TimedRecord<T> {
    pub ts: Timestamp,
    pub data: T,
}

/// A closed window result.
#[derive(Debug, Clone)]
pub struct WindowResult<A> {
    pub start_ms: Timestamp,
    pub end_ms: Timestamp,
    pub aggregate: A,
    pub count: u64,
}

/// An accumulator that a window folds its records into.
///
/// The spec functions say what the four operations compute, as functions of the accumulator and
/// of their argument. A window's results are stated in terms of them.
pub trait Aggregator: Clone + Send + 'static {
    type Input: Clone + Send + 'static;

    type Output: Clone + Send + 'static;

    /// The accumulator of no records.
    spec fn fresh() -> Self;

    /// This accumulator after one more record.
    spec fn added(self, item: Self::Input) -> Self;

    /// This accumulator after taking in all that `other` has accumulated.
    spec fn merged(self, other: Self) -> Self;

    /// The aggregate that this accumulator stands for.
    spec fn emitted(self) -> Self::Output;

    fn new_accumulator() -> (acc: Self)
        ensures
            acc == Self::fresh(),
    ;

    fn add(&mut self, item: &Self::Input)
        ensures
            *final(self) == old(self).added(*item),
    ;

    fn merge(&mut self, other: &Self)
        ensures
            *final(self) == old(self).merged(*other),
    ;

    fn emit(&self) -> (out: Self::Output)
        ensures
            out == self.emitted(),
    ;
}

/// The sum of the counts of a list of closed windows.
pub open spec fn sum_counts<O>(closed: Seq<WindowResult<O>>) -> nat
    decreases closed.len(),
{
    if closed.len() == 0 {
        0
    } else {
        sum_counts(closed.drop_last()) + closed.last().count as nat
    }
}

} // verus!
