//! Where records come from: generators that run at a fixed rate or as fast as they can.
use vstd::prelude::*;

use crate::channel::{self, BackpressurePolicy, PipeSender, Receipt, SendResult};
use crate::metrics::OperatorMetrics;
use crate::operator::StopToken;

verus! {

/// Nanoseconds in a second.
pub const NANOS_PER_SECOND: u64 = 1_000_000_000;

/// Whether a generator can be called with every number below `n`.
pub open spec fn generates_below<T, F: FnMut(u64) -> T>(generator: F, n: u64) -> bool {
    forall|seq: u64| seq < n ==> #[trigger] call_requires(generator, (seq,))
}

/// Why a source stopped.
#[derive(Clone, Copy, Debug, PartialEq, Eq, Structural)]
pub enum SourceEnd {
    /// It has sent all its records.
    Exhausted,
    /// The stop signal is raised.
    Stopped,
    /// Nobody is left to receive its records.
    Disconnected,
}

/// Generates records at a fixed rate.
#[verifier::reject_recursive_types(T)]
pub struct RateLimitedSource<T, F: FnMut(u64) -> T + Send + 'static> {
    pub generator: F,
    pub rate_per_sec: u64,
    pub max_records: Option<u64>,
}

/// How far a source with a fixed rate has come. Time is counted in nanoseconds from its start.
#[derive(Clone, Copy, Debug)]
pub struct Schedule {
    /// The time between two records.
    pub interval_ns: u64,
    /// The number of records there will be, if there is one.
    pub max_records: Option<u64>,
    /// The number of the next record.
    pub seq: u64,
    /// When the next record is due.
    pub next_ns: u128,
}

/// What a source with a fixed rate does next.
#[derive(Clone, Copy, Debug, PartialEq, Eq, Structural)]
pub enum SourceStep {
    /// Sends the next record.
    Send,
    /// Sleeps that long.
    Sleep { nanos: u128 },
    /// Stops.
    Halt(SourceEnd),
}

impl Schedule {
    /// The time between two records at that many a second, in whole nanoseconds. No record a
    /// second counts as one.
    pub open spec fn interval_of(rate_per_sec: u64) -> u64 {
        if rate_per_sec == 0 {
            NANOS_PER_SECOND
        } else {
            NANOS_PER_SECOND / rate_per_sec
        }
    }

    /// The next record is due as many intervals after the start as records came before it.
    pub open spec fn wf(&self) -> bool {
        &&& self.interval_ns <= NANOS_PER_SECOND
        &&& self.next_ns == self.seq * self.interval_ns
    }

    pub open spec fn is_exhausted(&self) -> bool {
        self.max_records matches Some(max) && self.seq >= max
    }

    pub open spec fn spec_step(&self, stopped: bool, now_ns: u128) -> SourceStep {
        if stopped {
            SourceStep::Halt(SourceEnd::Stopped)
        } else if self.is_exhausted() {
            SourceStep::Halt(SourceEnd::Exhausted)
        } else if now_ns >= self.next_ns {
            SourceStep::Send
        } else {
            SourceStep::Sleep { nanos: (self.next_ns - now_ns) as u128 }
        }
    }

    /// The schedule once the next record is sent.
    pub open spec fn advanced(self) -> Self {
        Schedule {
            seq: (self.seq + 1) as u64,
            next_ns: (self.next_ns + self.interval_ns) as u128,
            ..self
        }
    }

    /// A schedule whose first record is due at once.
    pub fn new(rate_per_sec: u64, max_records: Option<u64>) -> (s: Self)
        ensures
            s.wf(),
            s.interval_ns == Self::interval_of(rate_per_sec),
            s.max_records == max_records,
            s.seq == 0,
    {
        let rate: u64 = if rate_per_sec == 0 {
            1
        } else {
            rate_per_sec
        };
        proof {
            vstd::arithmetic::div_mod::lemma_div_is_ordered_by_denominator(
                NANOS_PER_SECOND as int,
                1,
                rate as int,
            );
        }
        Schedule { interval_ns: NANOS_PER_SECOND / rate, max_records, seq: 0, next_ns: 0 }
    }

    /// What to do at a time, given whether the stop signal is raised.
    pub fn step(&self, stopped: bool, now_ns: u128) -> (step: SourceStep)
        ensures
            step == self.spec_step(stopped, now_ns),
    {
        if stopped {
            return SourceStep::Halt(SourceEnd::Stopped);
        }
        if let Some(max) = self.max_records {
            if self.seq >= max {
                return SourceStep::Halt(SourceEnd::Exhausted);
            }
        }
        if now_ns >= self.next_ns {
            SourceStep::Send
        } else {
            SourceStep::Sleep { nanos: self.next_ns - now_ns }
        }
    }

    /// Moves on to the record after the next one.
    pub fn advance(&mut self)
        requires
            old(self).wf(),
            old(self).seq < u64::MAX,
        ensures
            final(self).wf(),
            *final(self) == old(self).advanced(),
    {
        proof {
            let (n, d) = (self.seq as int, self.interval_ns as int);
            assert((n + 1) * d == n * d + d) by (nonlinear_arith);
            assert(n * d <= 0x1_0000_0000_0000_0000 * 1_000_000_000) by (nonlinear_arith)
                requires
                    0 <= n < 0x1_0000_0000_0000_0000,
                    0 <= d <= 1_000_000_000,
            ;
        }
        self.seq = self.seq + 1;
        self.next_ns = self.next_ns + self.interval_ns as u128;
    }
}

/// A source with a fixed rate sends record number `seq` no earlier than `seq` intervals after its
/// start, and never more records than it may.
pub proof fn law_no_record_is_early(s: Schedule, stopped: bool, now_ns: u128)
    requires
        s.wf(),
        s.spec_step(stopped, now_ns) == SourceStep::Send,
    ensures
        s.seq * s.interval_ns <= now_ns,
        s.max_records matches Some(max) ==> s.seq < max,
{
}

/// A source with a fixed rate sleeps only while it is ahead: by then it has sent a record for
/// every interval that has begun. And it sleeps exactly until the next record is due.
pub proof fn law_sleeps_only_when_ahead(s: Schedule, stopped: bool, now_ns: u128)
    requires
        s.wf(),
    ensures
        s.spec_step(stopped, now_ns) matches SourceStep::Sleep { nanos } ==> {
            &&& now_ns < s.seq * s.interval_ns
            &&& s.interval_ns > 0
            &&& s.seq > now_ns as int / s.interval_ns as int
            &&& s.spec_step(false, (now_ns + nanos) as u128) == SourceStep::Send
        },
{
    if s.spec_step(stopped, now_ns) is Sleep {
        let (n, d, t) = (s.seq as int, s.interval_ns as int, now_ns as int);
        assert(d > 0) by (nonlinear_arith)
            requires
                0 <= t < n * d,
                n >= 0,
                d >= 0,
        ;
        assert(n > t / d) by (nonlinear_arith)
            requires
                0 <= t < n * d,
                d > 0,
        ;
    }
}

/// The interval fits the rate: as many intervals as records are due in a second fit into it, and
/// they would not if they were a nanosecond longer. No record a second counts as one.
pub proof fn law_interval_fits_the_rate(rate_per_sec: u64)
    ensures
        ({
            let d = Schedule::interval_of(rate_per_sec);
            let rate = if rate_per_sec == 0 {
                1
            } else {
                rate_per_sec as int
            };
            rate * d <= 1_000_000_000 < rate * (d + 1)
        }),
{
    let rate = if rate_per_sec == 0 {
        1
    } else {
        rate_per_sec as int
    };
    vstd::arithmetic::div_mod::lemma_fundamental_div_mod(1_000_000_000, rate);
    let d = 1_000_000_000int / rate;
    assert(rate * (d + 1) == rate * d + rate) by (nonlinear_arith);
}

/// A source with a fixed rate halts exactly if it is told to or has sent all its records, and says
/// which; otherwise it sends a record that is due, and sleeps exactly if none is. A record that was
/// sent makes the next one due an interval later.
pub proof fn law_source_goes_on_until_told(s: Schedule, stopped: bool, now_ns: u128)
    requires
        s.wf(),
        s.seq < u64::MAX,
    ensures
        ({
            let step = s.spec_step(stopped, now_ns);
            let all_sent = s.max_records matches Some(max) && s.seq >= max;
            &&& step == SourceStep::Halt(SourceEnd::Stopped) <==> stopped
            &&& step == SourceStep::Halt(SourceEnd::Exhausted) <==> !stopped && all_sent
            &&& step == SourceStep::Send <==> !stopped && !all_sent && now_ns >= s.next_ns
            &&& step is Sleep <==> !stopped && !all_sent && now_ns < s.next_ns
            &&& s.advanced().wf()
            &&& s.advanced().seq == s.seq + 1
            &&& s.advanced().next_ns == s.next_ns + s.interval_ns
            &&& s.advanced().interval_ns == s.interval_ns
            &&& s.advanced().max_records == s.max_records
        }),
{
    let (n, d) = (s.seq as int, s.interval_ns as int);
    assert((n + 1) * d == n * d + d) by (nonlinear_arith);
    assert(n * d <= 0x1_0000_0000_0000_0000 * 1_000_000_000) by (nonlinear_arith)
        requires
            0 <= n < 0x1_0000_0000_0000_0000,
            0 <= d <= 1_000_000_000,
    ;
}

/// A source that is ahead stays at most one interval ahead: where a record was sent on time, the
/// sleep after it is no longer than an interval.
pub proof fn law_sleep_is_short(s: Schedule, then_ns: u128, now_ns: u128)
    requires
        s.wf(),
        s.seq < u64::MAX,
        s.spec_step(false, then_ns) == SourceStep::Send,
        then_ns <= now_ns,
    ensures
        s.advanced().spec_step(false, now_ns) matches SourceStep::Sleep { nanos } ==> nanos
            <= s.interval_ns,
{
    let (n, d) = (s.seq as int, s.interval_ns as int);
    assert(n * d <= 0x1_0000_0000_0000_0000 * 1_000_000_000) by (nonlinear_arith)
        requires
            0 <= n < 0x1_0000_0000_0000_0000,
            0 <= d <= 1_000_000_000,
    ;
}

/// Whether a receipt says that what the generator returns for that number was offered.
pub open spec fn offers_generated<T, F: FnMut(u64) -> T>(
    receipt: Receipt<T>,
    generator: F,
    seq: u64,
    sender: PipeSender<T>,
    policy: BackpressurePolicy,
) -> bool {
    exists|item: T| #[trigger]
        call_ensures(generator, (seq,), item) && receipt.says(sender, item, policy)
}

/// Generates one record, offers it and counts what became of it.
fn produce<T: Send, F: FnMut(u64) -> T>(
    generator: &mut F,
    seq: u64,
    sender: &PipeSender<T>,
    metrics: &mut OperatorMetrics,
    policy: BackpressurePolicy,
) -> (receipt: Receipt<T>)
    requires
        call_requires(*old(generator), (seq,)),
    ensures
        offers_generated(receipt, *old(generator), seq, *sender, policy),
        *final(metrics) == old(metrics).with_outcome(receipt.spec_result()),
        *final(generator) == *old(generator),
{
    let record = (*generator)(seq);
    let ghost item = record;
    let receipt = sender.deliver(record, policy);
    assert(receipt.says(*sender, item, policy));
    metrics.record_outcome(receipt.result());
    receipt
}

impl<T: Send + Clone + 'static, F: FnMut(u64) -> T + Send + 'static> RateLimitedSource<T, F> {
    /// The schedule of the source at its start.
    pub fn schedule(&self) -> (s: Schedule)
        ensures
            s.wf(),
            s.interval_ns == Schedule::interval_of(self.rate_per_sec),
            s.max_records == self.max_records,
            s.seq == 0,
    {
        Schedule::new(self.rate_per_sec, self.max_records)
    }

    /// Generates the next record, offers it and counts what became of it. The schedule moves on
    /// unless nobody is left to receive records, which ends the source.
    pub fn send_next(
        &mut self,
        schedule: &mut Schedule,
        sender: &PipeSender<T>,
        metrics: &mut OperatorMetrics,
        policy: BackpressurePolicy,
    ) -> (sent: (Receipt<T>, Option<SourceEnd>))
        requires
            call_requires(old(self).generator, (old(schedule).seq,)),
            old(schedule).wf(),
            old(schedule).seq < u64::MAX,
        ensures
            offers_generated(
                sent.0,
                old(self).generator,
                old(schedule).seq,
                *sender,
                policy,
            ),
            *final(metrics) == old(metrics).with_outcome(sent.0.spec_result()),
            sent.0.spec_result() == SendResult::Disconnected ==> sent.1 == Some(
                SourceEnd::Disconnected,
            ) && *final(schedule) == *old(schedule),
            sent.0.spec_result() != SendResult::Disconnected ==> sent.1 is None
                && *final(schedule) == old(schedule).advanced(),
            final(schedule).wf(),
            *final(self) == *old(self),
    {
        let receipt = produce(&mut self.generator, schedule.seq, sender, metrics, policy);
        match receipt.result() {
            SendResult::Disconnected => (receipt, Some(SourceEnd::Disconnected)),
            _ => {
                schedule.advance();
                (receipt, None)
            },
        }
    }
}

/// Generates records as fast as possible (throughput testing).
#[verifier::reject_recursive_types(T)]
pub struct BurstSource<T, F: FnMut(u64) -> T + Send + 'static> {
    pub generator: F,
    pub max_records: u64,
}

/// Whether a source of `max` records can end so after its records met these outcomes: all were
/// tried, or the signal was raised before that, or the last one found nobody to receive it, as
/// none had before.
pub open spec fn ends(end: SourceEnd, outcomes: Seq<SendResult>, max: u64) -> bool {
    &&& outcomes.len() <= max
    &&& forall|i: int|
        0 <= i < outcomes.len() ==> (#[trigger] outcomes[i] == SendResult::Disconnected ==> i
            == outcomes.len() - 1)
    &&& match end {
        SourceEnd::Exhausted => outcomes.len() == max && !outcomes.contains(
            SendResult::Disconnected,
        ),
        SourceEnd::Stopped => outcomes.len() < max && !outcomes.contains(
            SendResult::Disconnected,
        ),
        SourceEnd::Disconnected => outcomes.len() > 0 && outcomes.last()
            == SendResult::Disconnected,
    }
}

impl<T: Send + Clone + 'static, F: FnMut(u64) -> T + Send + 'static> BurstSource<T, F> {
    /// Generates record number `seq`, offers it and counts what became of it. The source ends where
    /// nobody is left to receive records.
    pub fn send_next(
        &mut self,
        seq: u64,
        sender: &PipeSender<T>,
        metrics: &mut OperatorMetrics,
        policy: BackpressurePolicy,
    ) -> (sent: (Receipt<T>, Option<SourceEnd>))
        requires
            call_requires(old(self).generator, (seq,)),
        ensures
            offers_generated(sent.0, old(self).generator, seq, *sender, policy),
            *final(metrics) == old(metrics).with_outcome(sent.0.spec_result()),
            sent.1 == if sent.0.spec_result() == SendResult::Disconnected {
                Some(SourceEnd::Disconnected)
            } else {
                None
            },
            *final(self) == *old(self),
    {
        let receipt = produce(&mut self.generator, seq, sender, metrics, policy);
        match receipt.result() {
            SendResult::Disconnected => (receipt, Some(SourceEnd::Disconnected)),
            _ => (receipt, None),
        }
    }

    /// Generates and sends all records, numbered from zero, and counts what became of each.
    /// Stops early when the signal is raised or nobody is left to receive records.
    pub fn run(
        self,
        sender: PipeSender<T>,
        metrics: &mut OperatorMetrics,
        stop: StopToken,
        policy: BackpressurePolicy,
    ) -> (end: SourceEnd)
        requires
            generates_below(self.generator, self.max_records),
        ensures
            exists|receipts: Seq<Receipt<T>>|
                {
                    &&& #[trigger] ends(end, channel::results(receipts), self.max_records)
                    &&& *final(metrics) == old(metrics).with_outcomes(channel::results(receipts))
                    &&& forall|i: int|
                        0 <= i < receipts.len() ==> offers_generated(
                            #[trigger] receipts[i],
                            self.generator,
                            i as u64,
                            sender,
                            policy,
                        )
                    &&& receipts.len() > 0 ==> stop.reads(false)
                },
            end == SourceEnd::Stopped ==> stop.reads(true),
            self.max_records == 0 ==> end == SourceEnd::Exhausted,
    {
        let mut source = self;
        let ghost mut receipts: Seq<Receipt<T>> = Seq::empty();
        assert(channel::results(receipts) =~= Seq::empty());
        let mut seq: u64 = 0;
        while seq < source.max_records
            invariant
                source == self,
                generates_below(self.generator, self.max_records),
                seq > 0 ==> stop.reads(false),
                seq <= self.max_records,
                receipts.len() == seq,
                forall|i: int|
                    0 <= i < receipts.len() ==> (#[trigger] receipts[i]).spec_result()
                        != SendResult::Disconnected && offers_generated(
                        receipts[i],
                        self.generator,
                        i as u64,
                        sender,
                        policy,
                    ),
                *metrics == old(metrics).with_outcomes(channel::results(receipts)),
            decreases self.max_records - seq,
        {
            let ghost outcomes = channel::results(receipts);
            if stop.is_stopped() {
                assert(ends(SourceEnd::Stopped, outcomes, self.max_records));
                return SourceEnd::Stopped;
            }
            let (receipt, end) = source.send_next(seq, &sender, metrics, policy);
            proof {
                receipts = receipts.push(receipt);
                assert(channel::results(receipts).drop_last() =~= outcomes);
            }
            if let Some(end) = end {
                assert(ends(end, channel::results(receipts), self.max_records));
                return end;
            }
            seq = seq + 1;
        }
        assert(ends(SourceEnd::Exhausted, channel::results(receipts), self.max_records));
        SourceEnd::Exhausted
    }
}

/// A burst that was not told to stop and always found a receiver has tried all its records; one
/// that ends early says why; and none goes on once nobody is left to receive records.
pub proof fn law_bursts_are_complete(end: SourceEnd, outcomes: Seq<SendResult>, max: u64)
    requires
        ends(end, outcomes, max),
    ensures
        outcomes.len() <= max,
        end == SourceEnd::Exhausted ==> outcomes.len() == max,
        end == SourceEnd::Stopped ==> outcomes.len() < max,
        end == SourceEnd::Disconnected <==> outcomes.len() > 0 && outcomes.last()
            == SendResult::Disconnected,
        forall|i: int|
            0 <= i < outcomes.len() - 1 ==> #[trigger] outcomes[i] != SendResult::Disconnected,
{
    if outcomes.len() > 0 && outcomes.last() == SendResult::Disconnected {
        assert(outcomes.contains(SendResult::Disconnected));
    }
}

/// What a source offers under a number is what its generator returns for that number, and it is
/// offered by its sender under its policy.
pub proof fn law_sources_offer_what_is_generated<T, F: FnMut(u64) -> T>(
    receipt: Receipt<T>,
    generator: F,
    seq: u64,
    sender: PipeSender<T>,
    policy: BackpressurePolicy,
)
    ensures
        offers_generated(receipt, generator, seq, sender, policy) <==> exists|item: T| #[trigger]
            receipt.says(sender, item, policy) && call_ensures(generator, (seq,), item),
{
    if exists|item: T| #[trigger]
        receipt.says(sender, item, policy) && call_ensures(generator, (seq,), item) {
        let item = choose|item: T| #[trigger]
            receipt.says(sender, item, policy) && call_ensures(generator, (seq,), item);
        assert(call_ensures(generator, (seq,), item));
    }
}

} // verus!
