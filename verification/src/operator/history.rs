//! What holds of a whole run of an operator, however long it was and whatever came.
use std::time::Duration;
use vstd::prelude::*;

use crate::channel::{self, Receipt, SendResult};
use crate::metrics::{self, OperatorMetrics};
use crate::operator::{self, Dispatched, OperatorRunner, Process, ProcessResult};
use crate::time;

verus! {

/// What one step of a run came to.
#[verifier::reject_recursive_types(I)]
#[verifier::reject_recursive_types(O)]
pub enum RunEvent<I, O> {
    /// Nothing was done.
    Quiet,
    /// A record was processed and its result passed on.
    Handled { record: I, result: ProcessResult<O>, outcome: Dispatched<O> },
    /// The next record was taken off the pipe and processed, and its result passed on.
    Taken { record: I, result: ProcessResult<O>, outcome: Dispatched<O> },
    /// A tick was performed and what it yielded passed on.
    Ticked { items: Seq<O>, receipts: Seq<Receipt<O>> },
}

impl<I, O> RunEvent<I, O> {
    /// What was passed on.
    pub open spec fn items(self) -> Seq<O> {
        match self {
            RunEvent::Quiet => Seq::empty(),
            RunEvent::Handled { result, .. } => result.emitted(),
            RunEvent::Taken { result, .. } => result.emitted(),
            RunEvent::Ticked { items, .. } => items,
        }
    }

    /// What became of each item for each receiver.
    pub open spec fn outcomes(self) -> Seq<SendResult> {
        match self {
            RunEvent::Quiet => Seq::empty(),
            RunEvent::Handled { outcome, .. } => channel::results(outcome.receipts@),
            RunEvent::Taken { outcome, .. } => channel::results(outcome.receipts@),
            RunEvent::Ticked { receipts, .. } => channel::results(receipts),
        }
    }

    /// A record was processed.
    pub open spec fn is_record(self) -> bool {
        self is Handled || self is Taken
    }

    /// A record could not be processed.
    pub open spec fn is_error(self) -> bool {
        ||| self matches RunEvent::Handled { result, .. } && result is Error
        ||| self matches RunEvent::Taken { result, .. } && result is Error
    }
}

/// Whether a step with that event leads from one state of the operator to the next.
pub open spec fn happens<P: Process>(
    before: OperatorRunner<P>,
    event: RunEvent<P::Input, P::Output>,
    after: OperatorRunner<P>,
) -> bool where P::Output: Clone {
    match event {
        RunEvent::Quiet => after == before,
        RunEvent::Handled { record, result, outcome } => before.handles(
            record,
            result,
            outcome,
            &after,
        ),
        RunEvent::Taken { record, result, outcome } => {
            &&& before.rx.hands_out_now(Some(record))
            &&& before.with_taken(record).handles(record, result, outcome, &after)
        },
        RunEvent::Ticked { items, receipts } => before.yields(items, receipts, &after),
    }
}

/// Whether these events lead through these states.
pub open spec fn is_run<P: Process>(
    states: Seq<OperatorRunner<P>>,
    events: Seq<RunEvent<P::Input, P::Output>>,
) -> bool where P::Output: Clone {
    &&& states.len() == events.len() + 1
    &&& forall|i: int|
        0 <= i < events.len() ==> happens(states[i], #[trigger] events[i], states[i + 1])
}

/// The number of records processed.
pub open spec fn records<I, O>(events: Seq<RunEvent<I, O>>) -> nat
    decreases events.len(),
{
    if events.len() == 0 {
        0
    } else {
        records(events.drop_last()) + if events.last().is_record() {
            1nat
        } else {
            0
        }
    }
}

/// The records that were taken off the pipe and processed, in order.
pub open spec fn processed<I, O>(events: Seq<RunEvent<I, O>>) -> Seq<I>
    decreases events.len(),
{
    if events.len() == 0 {
        Seq::empty()
    } else {
        match events.last() {
            RunEvent::Taken { record, .. } => processed(events.drop_last()).push(record),
            _ => processed(events.drop_last()),
        }
    }
}

/// The number of records that could not be processed.
pub open spec fn errors<I, O>(events: Seq<RunEvent<I, O>>) -> nat
    decreases events.len(),
{
    if events.len() == 0 {
        0
    } else {
        errors(events.drop_last()) + if events.last().is_error() {
            1nat
        } else {
            0
        }
    }
}

/// The number of items passed on.
pub open spec fn items<I, O>(events: Seq<RunEvent<I, O>>) -> nat
    decreases events.len(),
{
    if events.len() == 0 {
        0
    } else {
        items(events.drop_last()) + events.last().items().len()
    }
}

/// What became of all items for all receivers, in order.
pub open spec fn outcomes<I, O>(events: Seq<RunEvent<I, O>>) -> Seq<SendResult>
    decreases events.len(),
{
    if events.len() == 0 {
        Seq::empty()
    } else {
        outcomes(events.drop_last()) + events.last().outcomes()
    }
}

/// Over a whole run that starts with all counters at zero, where they wrap around at their upper
/// end:
/// - the records received are those processed, and the errors those that could not be;
/// - the records sent and dropped are the items that the pipes took and that they had no room
///   for;
/// - every item was offered once to every receiver, so what was sent, what was dropped and what
///   found no receiver add up to the items times the receivers.
pub proof fn law_run_adds_up<P: Process>(
    states: Seq<OperatorRunner<P>>,
    events: Seq<RunEvent<P::Input, P::Output>>,
) where P::Output: Clone
    requires
        is_run(states, events),
        states[0].metrics == OperatorMetrics::zero(),
    ensures
        ({
            let (start, end) = (states[0], states.last());
            let all = outcomes(events);
            &&& end.metrics.records_in == metrics::wrapped(records(events) as int)
            &&& end.metrics.errors == metrics::wrapped(errors(events) as int)
            &&& end.metrics.records_out == metrics::wrapped(
                metrics::tally(all, SendResult::Sent) as int,
            )
            &&& end.metrics.records_dropped == metrics::wrapped(
                metrics::tally(all, SendResult::Dropped) as int,
            )
            &&& all.len() == items(events) * start.senders@.len()
            &&& metrics::tally(all, SendResult::Sent) + metrics::tally(all, SendResult::Dropped)
                + metrics::tally(all, SendResult::Disconnected) == all.len()
            &&& end.senders == start.senders
            &&& end.policy == start.policy
        }),
{
    lemma_run(states, events);
    let all = outcomes(events);
    metrics::law_outcomes_are_counted(OperatorMetrics::zero(), all);
    lemma_tallies(all);
}

proof fn lemma_tallies(all: Seq<SendResult>)
    ensures
        metrics::tally(all, SendResult::Sent) + metrics::tally(all, SendResult::Dropped)
            + metrics::tally(all, SendResult::Disconnected) == all.len(),
    decreases all.len(),
{
    reveal(Seq::filter);
    if all.len() > 0 {
        lemma_tallies(all.drop_last());
    }
}

/// What is counted as sent and dropped depends on nothing but what was before.
proof fn lemma_outcomes_of_alike(a: OperatorMetrics, b: OperatorMetrics, all: Seq<SendResult>)
    requires
        a.records_out == b.records_out,
        a.records_dropped == b.records_dropped,
    ensures
        a.with_outcomes(all).records_out == b.with_outcomes(all).records_out,
        a.with_outcomes(all).records_dropped == b.with_outcomes(all).records_dropped,
    decreases all.len(),
{
    if all.len() > 0 {
        lemma_outcomes_of_alike(a, b, all.drop_last());
    }
}

proof fn lemma_run<P: Process>(
    states: Seq<OperatorRunner<P>>,
    events: Seq<RunEvent<P::Input, P::Output>>,
) where P::Output: Clone
    requires
        is_run(states, events),
        states[0].metrics == OperatorMetrics::zero(),
    ensures
        ({
            let (start, end) = (states[0], states.last());
            let counted = OperatorMetrics::zero().with_outcomes(outcomes(events));
            &&& end.metrics.records_in == metrics::wrapped(records(events) as int)
            &&& end.metrics.errors == metrics::wrapped(errors(events) as int)
            &&& end.metrics.records_out == counted.records_out
            &&& end.metrics.records_dropped == counted.records_dropped
            &&& outcomes(events).len() == items(events) * start.senders@.len()
            &&& end.senders == start.senders
            &&& end.policy == start.policy
        }),
    decreases events.len(),
{
    let n = states[0].senders@.len();
    if events.len() == 0 {
        assert(0 * n == 0) by (nonlinear_arith);
    } else {
        let rest = events.drop_last();
        let event = events.last();
        let (before, after) = (states[events.len() - 1], states[events.len() as int]);
        assert forall|i: int| 0 <= i < rest.len() implies happens(
            states.drop_last()[i],
            #[trigger] rest[i],
            states.drop_last()[i + 1],
        ) by {
            assert(rest[i] == events[i]);
        }
        lemma_run(states.drop_last(), rest);
        assert(happens(before, events[events.len() - 1], after));
        let zero = OperatorMetrics::zero();
        let (past, new) = (outcomes(rest), event.outcomes());
        metrics::law_outcomes_in_parts(zero, past, new);
        assert((items(rest) + event.items().len()) * n == items(rest) * n + event.items().len()
            * n) by (nonlinear_arith);
        match event {
            RunEvent::Quiet => {
                assert(past + new =~= past);
                assert(0 * n == 0) by (nonlinear_arith);
            },
            RunEvent::Handled { record, result, outcome } => {
                lemma_handled(before, record, result, outcome, after, past);
            },
            RunEvent::Taken { record, result, outcome } => {
                lemma_handled(before.with_taken(record), record, result, outcome, after, past);
            },
            RunEvent::Ticked { items, receipts } => {
                operator::lemma_fan_out_len(receipts, items, before.senders@, before.policy);
                metrics::lemma_outcomes_leave_the_rest(before.metrics, new);
                lemma_outcomes_of_alike(before.metrics, zero.with_outcomes(past), new);
            },
        }
    }
}

/// What processing a record adds to the counters.
proof fn lemma_handled<P: Process>(
    before: OperatorRunner<P>,
    record: P::Input,
    result: ProcessResult<P::Output>,
    outcome: Dispatched<P::Output>,
    after: OperatorRunner<P>,
    past: Seq<SendResult>,
) where P::Output: Clone
    requires
        before.handles(record, result, outcome, &after),
        ({
            let counted = OperatorMetrics::zero().with_outcomes(past);
            &&& before.metrics.records_out == counted.records_out
            &&& before.metrics.records_dropped == counted.records_dropped
        }),
    ensures
        ({
            let new = channel::results(outcome.receipts@);
            let counted = OperatorMetrics::zero().with_outcomes(past + new);
            &&& after.metrics.records_in == before.metrics.records_in.wrapping_add(1)
            &&& after.metrics.errors == if result is Error {
                before.metrics.errors.wrapping_add(1)
            } else {
                before.metrics.errors
            }
            &&& after.metrics.records_out == counted.records_out
            &&& after.metrics.records_dropped == counted.records_dropped
            &&& new.len() == result.emitted().len() * before.senders@.len()
        }),
{
    let n = before.senders@.len();
    let zero = OperatorMetrics::zero();
    let new = channel::results(outcome.receipts@);
    metrics::law_outcomes_in_parts(zero, past, new);
    operator::lemma_fan_out_len(
        outcome.receipts@,
        result.emitted(),
        before.senders@,
        before.policy,
    );
    let took = choose|took: Duration| #[trigger]
        time::is_measured(took) && operator::dispatches(
            result,
            before.senders@,
            before.policy,
            outcome,
            before.metrics.with_in().with_processing_ns(time::duration_nanos(took) as u64),
            after.metrics,
        );
    let start = before.metrics.with_in().with_processing_ns(time::duration_nanos(took) as u64);
    metrics::lemma_outcomes_leave_the_rest(start, new);
    lemma_outcomes_of_alike(start, zero.with_outcomes(past), new);
    if result is Error {
        assert(0 * n == 0) by (nonlinear_arith);
        assert(new =~= Seq::empty());
        assert(past + new =~= past);
    }
}

/// The records that the operator has taken off its pipe over a run are exactly those that were
/// processed, each once and in the order in which they were taken.
pub proof fn law_what_is_taken_is_processed<P: Process>(
    states: Seq<OperatorRunner<P>>,
    events: Seq<RunEvent<P::Input, P::Output>>,
) where P::Output: Clone
    requires
        is_run(states, events),
    ensures
        states.last().rx.taken() == states[0].rx.taken() + processed(events),
        processed(events).len() <= records(events),
        forall|x: Option<P::Input>| #[trigger]
            states.last().rx.hands_out_now(x) <==> states[0].rx.hands_out_now(x),
        forall|i: int|
            0 <= i < processed(events).len() ==> states[0].rx.hands_out_now(
                Some(#[trigger] processed(events)[i]),
            ),
    decreases events.len(),
{
    if events.len() == 0 {
        assert(states[0].rx.taken() + processed(events) =~= states[0].rx.taken());
    } else {
        let rest = events.drop_last();
        let event = events.last();
        let (before, after) = (states[events.len() - 1], states[events.len() as int]);
        assert forall|i: int| 0 <= i < rest.len() implies happens(
            states.drop_last()[i],
            #[trigger] rest[i],
            states.drop_last()[i + 1],
        ) by {
            assert(rest[i] == events[i]);
        }
        law_what_is_taken_is_processed(states.drop_last(), rest);
        assert(states.drop_last().last() == before);
        assert(happens(before, events[events.len() - 1], after));
        if let RunEvent::Taken { record, result, outcome } = event {
            channel::law_taking_keeps_account(before.rx, record);
            assert(after.rx == before.rx.after_taking(record));
            assert(states[0].rx.taken() + processed(events) =~= before.rx.taken().push(record));
        }
    }
}

/// A step of the operator's loop that asks for a record is one step of a run, and takes one record
/// off the pipe exactly if it processes one: that record.
pub proof fn law_asking_for_a_record_is_a_step<P: Process>(
    before: OperatorRunner<P>,
    yes: bool,
    error: Option<String>,
    after: OperatorRunner<P>,
) where P::Output: Clone
    requires
        before.takes_next(yes, error, &after),
    ensures
        yes ==> exists|
            record: P::Input,
            result: ProcessResult<P::Output>,
            outcome: Dispatched<P::Output>,
        |
            {
                &&& #[trigger] happens(
                    before,
                    RunEvent::Taken { record, result, outcome },
                    after,
                )
                &&& after.rx.taken() == before.rx.taken().push(record)
                &&& after.metrics.records_in == before.metrics.records_in.wrapping_add(1)
                &&& error == outcome.error
                &&& error is Some <==> result is Error
            },
        !yes ==> {
            &&& happens(before, RunEvent::Quiet, after)
            &&& after.rx.taken() == before.rx.taken()
            &&& before.rx.hands_out_now(None)
            &&& error is None
        },
{
    if yes {
        let (record, result, outcome) = choose|
            record: P::Input,
            result: ProcessResult<P::Output>,
            outcome: Dispatched<P::Output>,
        |
            {
                &&& before.rx.hands_out_now(Some(record))
                &&& #[trigger] before.with_taken(record).handles(record, result, outcome, &after)
                &&& error == outcome.error
            };
        channel::law_taking_keeps_account(before.rx, record);
        assert(happens(before, RunEvent::Taken { record, result, outcome }, after));
        let taken = before.with_taken(record);
        let took = choose|took: Duration| #[trigger]
            time::is_measured(took) && operator::dispatches(
                result,
                taken.senders@,
                taken.policy,
                outcome,
                taken.metrics.with_in().with_processing_ns(time::duration_nanos(took) as u64),
                after.metrics,
            );
        metrics::lemma_outcomes_leave_the_rest(
            taken.metrics.with_in().with_processing_ns(time::duration_nanos(took) as u64),
            channel::results(outcome.receipts@),
        );
    }
}

} // verus!
