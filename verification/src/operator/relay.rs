//! Operators wired directly from one pipe to the next.
use vstd::prelude::*;

use crate::channel::{BackpressurePolicy, PipeReceiver, PipeSender, Receipt, SendResult};
use crate::operator::{Process, ProcessResult};

verus! {

/// Processes one record and offers the result to the pipe if it is a single item. Nothing but a
/// single item is offered.
pub fn relay_one<P: Process>(
    processor: &mut P,
    input: P::Input,
    tx: &PipeSender<P::Output>,
    policy: BackpressurePolicy,
) -> (receipt: Option<Receipt<P::Output>>)
    requires
        old(processor).accepts(input),
    ensures
        exists|r: ProcessResult<P::Output>| #[trigger]
            old(processor).answers(input, r, final(processor)) && match r {
                ProcessResult::EmitOne(item) => receipt matches Some(receipt) && receipt.says(
                    *tx,
                    item,
                    policy,
                ),
                _ => receipt is None,
            },
{
    match processor.process(input) {
        ProcessResult::EmitOne(item) => Some(tx.deliver(item, policy)),
        _ => None,
    }
}

/// Whether the items were offered to the pipe one by one.
pub open spec fn offers_each<T>(
    receipts: Seq<Receipt<T>>,
    items: Seq<T>,
    tx: PipeSender<T>,
    policy: BackpressurePolicy,
) -> bool {
    &&& receipts.len() == items.len()
    &&& forall|i: int| 0 <= i < items.len() ==> #[trigger] receipts[i].says(tx, items[i], policy)
}

/// Processes one record and offers all that comes of it to the pipe, in order.
pub fn relay_all<P: Process>(
    processor: &mut P,
    input: P::Input,
    tx: &PipeSender<P::Output>,
    policy: BackpressurePolicy,
) -> (receipts: Vec<Receipt<P::Output>>)
    requires
        old(processor).accepts(input),
    ensures
        exists|r: ProcessResult<P::Output>| #[trigger]
            old(processor).answers(input, r, final(processor)) && offers_each(
                receipts@,
                r.emitted(),
                *tx,
                policy,
            ),
{
    let mut receipts: Vec<Receipt<P::Output>> = Vec::new();
    match processor.process(input) {
        ProcessResult::EmitOne(item) => {
            receipts.push(tx.deliver(item, policy));
        },
        ProcessResult::Emit(items) => {
            let ghost all = items@;
            for item in it: items
                invariant
                    it.seq() == all,
                    receipts@.len() == it.index(),
                    forall|i: int|
                        0 <= i < it.index() ==> #[trigger] receipts@[i].says(*tx, all[i], policy),
            {
                receipts.push(tx.deliver(item, policy));
            }
        },
        _ => {},
    }
    receipts
}

/// The most records that a relay takes from a pipe. One that took a record every nanosecond would
/// get there after centuries.
pub const MAX_RECORDS: u64 = u64::MAX;

/// Whether an operator can be given any `n` records in a row.
pub open spec fn accepts_next<P: Process>(p: P, n: nat) -> bool
    decreases n,
{
    n > 0 ==> {
        &&& forall|input: P::Input| #[trigger] p.accepts(input)
        &&& forall|input: P::Input, r: ProcessResult<P::Output>, after: P| #[trigger]
            p.answers(input, r, &after) ==> accepts_next(after, (n - 1) as nat)
    }
}

/// One record that was relayed.
#[verifier::reject_recursive_types(I)]
#[verifier::reject_recursive_types(O)]
pub struct RelayStep<I, O> {
    pub input: I,
    pub result: ProcessResult<O>,
    pub receipts: Seq<Receipt<O>>,
}

/// Which items a relay passes on.
#[derive(Clone, Copy, Debug, PartialEq, Eq, Structural)]
pub enum Relayed {
    /// Those that come alone.
    Single,
    /// All.
    All,
}

/// What of a result is passed on.
pub open spec fn passed_on<O>(result: ProcessResult<O>, which: Relayed) -> Seq<O> {
    if which == Relayed::All || result is EmitOne {
        result.emitted()
    } else {
        Seq::empty()
    }
}

/// Whether a receiver was found gone.
pub open spec fn meets_nobody<O>(receipts: Seq<Receipt<O>>) -> bool {
    exists|k: int|
        0 <= k < receipts.len() && (#[trigger] receipts[k]).spec_result()
            == SendResult::Disconnected
}

/// Whether these steps lead the operator through these states: each takes the record that the
/// pipe handed out, and offers what comes of it to the next pipe.
pub open spec fn is_relay<P: Process>(
    states: Seq<P>,
    steps: Seq<RelayStep<P::Input, P::Output>>,
    rx: PipeReceiver<P::Input>,
    tx: PipeSender<P::Output>,
    policy: BackpressurePolicy,
    which: Relayed,
) -> bool {
    &&& states.len() == steps.len() + 1
    &&& forall|i: int|
        0 <= i < steps.len() ==> {
            let step = #[trigger] steps[i];
            &&& rx.hands_out(Some(step.input))
            &&& states[i].answers(step.input, step.result, &states[i + 1])
            &&& offers_each(step.receipts, passed_on(step.result, which), tx, policy)
        }
}

proof fn lemma_relay_goes_on<P: Process>(
    states: Seq<P>,
    steps: Seq<RelayStep<P::Input, P::Output>>,
    rx: PipeReceiver<P::Input>,
    tx: PipeSender<P::Output>,
    policy: BackpressurePolicy,
    which: Relayed,
    step: RelayStep<P::Input, P::Output>,
    after: P,
)
    requires
        is_relay(states, steps, rx, tx, policy, which),
        rx.hands_out(Some(step.input)),
        states.last().answers(step.input, step.result, &after),
        offers_each(step.receipts, passed_on(step.result, which), tx, policy),
    ensures
        is_relay(states.push(after), steps.push(step), rx, tx, policy, which),
{
    let (s, t) = (states.push(after), steps.push(step));
    assert forall|i: int| 0 <= i < t.len() implies {
        let step = #[trigger] t[i];
        &&& rx.hands_out(Some(step.input))
        &&& s[i].answers(step.input, step.result, &s[i + 1])
        &&& offers_each(step.receipts, passed_on(step.result, which), tx, policy)
    } by {
        if i < steps.len() {
            assert(t[i] == steps[i]);
        }
    }
}

/// Processes the records of a pipe and offers each result that is a single item to the next pipe,
/// until no record can come any more or nobody is left to receive the items.
pub fn relay_until_closed<P: Process>(
    processor: &mut P,
    rx: &PipeReceiver<P::Input>,
    tx: &PipeSender<P::Output>,
    policy: BackpressurePolicy,
)
    requires
        accepts_next(*old(processor), MAX_RECORDS as nat),
    ensures
        exists|states: Seq<P>, steps: Seq<RelayStep<P::Input, P::Output>>|
            {
                &&& #[trigger] is_relay(states, steps, *rx, *tx, policy, Relayed::Single)
                &&& states[0] == *old(processor)
                &&& states.last() == *final(processor)
                &&& forall|i: int|
                    0 <= i < steps.len() - 1 ==> !meets_nobody((#[trigger] steps[i]).receipts)
                &&& {
                    ||| steps.len() > 0 && meets_nobody(steps.last().receipts)
                    ||| rx.hands_out(None)
                    ||| steps.len() == MAX_RECORDS
                }
            },
{
    let ghost mut states: Seq<P> = seq![*processor];
    let ghost mut steps: Seq<RelayStep<P::Input, P::Output>> = Seq::empty();
    let mut taken: u64 = 0;
    while taken < MAX_RECORDS
        invariant
            taken == steps.len(),
            states.len() > 0,
            states[0] == *old(processor),
            states.last() == *processor,
            is_relay(states, steps, *rx, *tx, policy, Relayed::Single),
            accepts_next(*processor, (MAX_RECORDS - taken) as nat),
            forall|i: int| 0 <= i < steps.len() ==> !meets_nobody((#[trigger] steps[i]).receipts),
        decreases MAX_RECORDS - taken,
    {
        let input = match rx.recv() {
            Some(input) => input,
            None => {
                return;
            },
        };
        let ghost given = input;
        let ghost before = *processor;
        let receipt = relay_one(processor, input, tx, policy);
        let gone: bool = match &receipt {
            Some(receipt) => receipt.result() == SendResult::Disconnected,
            None => false,
        };
        proof {
            let result = choose|r: ProcessResult<P::Output>| #[trigger]
                before.answers(given, r, processor) && match r {
                    ProcessResult::EmitOne(item) => receipt matches Some(receipt) && receipt.says(
                        *tx,
                        item,
                        policy,
                    ),
                    _ => receipt is None,
                };
            let receipts = match receipt {
                Some(receipt) => seq![receipt],
                None => Seq::empty(),
            };
            let step = RelayStep { input: given, result, receipts };
            assert(gone <==> meets_nobody(receipts)) by {
                if gone {
                    assert(receipts[0].spec_result() == SendResult::Disconnected);
                }
            }
            lemma_relay_goes_on(
                states,
                steps,
                *rx,
                *tx,
                policy,
                Relayed::Single,
                step,
                *processor,
            );
            states = states.push(*processor);
            steps = steps.push(step);
        }
        if gone {
            return;
        }
        taken = taken + 1;
    }
}

/// Processes the records of a pipe and offers all that comes of them to the next pipe, until no
/// record can come any more.
pub fn relay_all_until_closed<P: Process>(
    processor: &mut P,
    rx: &PipeReceiver<P::Input>,
    tx: &PipeSender<P::Output>,
    policy: BackpressurePolicy,
)
    requires
        accepts_next(*old(processor), MAX_RECORDS as nat),
    ensures
        exists|states: Seq<P>, steps: Seq<RelayStep<P::Input, P::Output>>|
            {
                &&& #[trigger] is_relay(states, steps, *rx, *tx, policy, Relayed::All)
                &&& states[0] == *old(processor)
                &&& states.last() == *final(processor)
                &&& rx.hands_out(None) || steps.len() == MAX_RECORDS
            },
{
    let ghost mut states: Seq<P> = seq![*processor];
    let ghost mut steps: Seq<RelayStep<P::Input, P::Output>> = Seq::empty();
    let mut taken: u64 = 0;
    while taken < MAX_RECORDS
        invariant
            taken == steps.len(),
            states.len() > 0,
            states[0] == *old(processor),
            states.last() == *processor,
            is_relay(states, steps, *rx, *tx, policy, Relayed::All),
            accepts_next(*processor, (MAX_RECORDS - taken) as nat),
        decreases MAX_RECORDS - taken,
    {
        let input = match rx.recv() {
            Some(input) => input,
            None => {
                return;
            },
        };
        let ghost given = input;
        let ghost before = *processor;
        let receipts = relay_all(processor, input, tx, policy);
        proof {
            let result = choose|r: ProcessResult<P::Output>| #[trigger]
                before.answers(given, r, processor) && offers_each(
                    receipts@,
                    r.emitted(),
                    *tx,
                    policy,
                );
            let step = RelayStep { input: given, result, receipts: receipts@ };
            lemma_relay_goes_on(states, steps, *rx, *tx, policy, Relayed::All, step, *processor);
            states = states.push(*processor);
            steps = steps.push(step);
        }
        taken = taken + 1;
    }
}

/// An operator that takes any record and stays so can be given any number of them.
pub proof fn law_accepts_next_if_always<P: Process>(p: P, n: nat)
    requires
        forall|q: P, input: P::Input| #[trigger] q.accepts(input),
    ensures
        accepts_next(p, n),
    decreases n,
{
    if n > 0 {
        assert forall|input: P::Input, r: ProcessResult<P::Output>, after: P| #[trigger]
            p.answers(input, r, &after) implies accepts_next(after, (n - 1) as nat) by {
            law_accepts_next_if_always(after, (n - 1) as nat);
        }
    }
}

/// Every record of a relay is one that the pipe handed out and is answered by the operator from the
/// state that the record before it left; what comes of it is offered to the next pipe, item by item
/// and in order. A relay of single items offers an item that comes alone and nothing else; a relay
/// of all offers all.
pub proof fn law_relay_offers_what_comes<P: Process>(
    states: Seq<P>,
    steps: Seq<RelayStep<P::Input, P::Output>>,
    rx: PipeReceiver<P::Input>,
    tx: PipeSender<P::Output>,
    policy: BackpressurePolicy,
    which: Relayed,
    i: int,
)
    requires
        is_relay(states, steps, rx, tx, policy, which),
        0 <= i < steps.len(),
    ensures
        rx.hands_out(Some(steps[i].input)),
        states[i].answers(steps[i].input, steps[i].result, &states[i + 1]),
        match steps[i].result {
            ProcessResult::EmitOne(item) => steps[i].receipts.len() == 1
                && steps[i].receipts[0].says(tx, item, policy),
            ProcessResult::Emit(items) => if which == Relayed::All {
                &&& steps[i].receipts.len() == items@.len()
                &&& forall|k: int|
                    0 <= k < items@.len() ==> (#[trigger] steps[i].receipts[k]).says(
                        tx,
                        items@[k],
                        policy,
                    )
            } else {
                steps[i].receipts.len() == 0
            },
            _ => steps[i].receipts.len() == 0,
        },
{
    let step = steps[i];
    if let ProcessResult::Emit(items) = step.result {
        if which == Relayed::All {
            assert forall|k: int| 0 <= k < items@.len() implies (#[trigger] step.receipts[k]).says(
                tx,
                items@[k],
                policy,
            ) by {
                assert(step.receipts[k].says(tx, passed_on(step.result, which)[k], policy));
            }
        }
    }
    if let ProcessResult::EmitOne(item) = step.result {
        assert(step.receipts[0].says(tx, passed_on(step.result, which)[0], policy));
    }
}

} // verus!
