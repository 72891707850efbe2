//! Operators: what they do to a record, how they pass results on, and when they stop.
pub mod history;
pub mod relay;

use std::marker::PhantomData;
use std::sync::atomic::{AtomicBool, Ordering};
use std::sync::Arc;
use std::time::{Duration, Instant};
use vstd::prelude::*;

use crate::channel::{self, BackpressurePolicy, PipeReceiver, PipeSender, Receipt, SendResult};
use crate::metrics::{self, OperatorMetrics};
use crate::time;

pub use self::relay::{relay_all, relay_all_until_closed, relay_one, relay_until_closed};

verus! {

/// The side of a shared stop signal that operators watch.
pub struct StopToken(Arc<AtomicBool>);

/// The side of a shared stop signal that raises it.
pub struct StopHandle(Arc<AtomicBool>);

impl StopToken {
    /// Whether the handle raises this signal.
    pub closed spec fn is_raised_by(&self, handle: StopHandle) -> bool {
        self.0 == handle.0
    }

    /// Whether the flag of this signal was made lowered.
    pub closed spec fn starts_lowered(&self) -> bool {
        call_ensures(AtomicBool::new, (false,), *self.0)
    }

    /// Whether a look at the flag of this signal can find this.
    pub closed spec fn reads(&self, stopped: bool) -> bool {
        call_ensures(AtomicBool::load, (&*self.0, Ordering::Acquire), stopped)
    }

    /// Both sides of a new signal, which is not raised.
    ///
    /// The flag is shared memory that any thread may write at any moment, so nothing is stated
    /// of what a later look at it finds.
    pub fn new() -> (pair: (Self, StopHandle))
        ensures
            pair.0.is_raised_by(pair.1),
            pair.0.starts_lowered(),
    {
        let flag = Arc::new(AtomicBool::new(false));
        (StopToken(Arc::clone(&flag)), StopHandle(flag))
    }

    /// Whether the signal is raised as of now, which rests with the holder of the handle.
    pub fn is_stopped(&self) -> (stopped: bool)
        ensures
            self.reads(stopped),
    {
        self.0.load(Ordering::Acquire)
    }
}

impl Default for StopToken {
    /// A signal that nobody can raise.
    fn default() -> (token: Self)
        ensures
            token.starts_lowered(),
    {
        let (token, _) = Self::new();
        token
    }
}

impl StopHandle {
    /// Whether the flag of this signal was written raised.
    pub closed spec fn is_raised(&self) -> bool {
        call_ensures(AtomicBool::store, (&*self.0, true, Ordering::Release), ())
    }

    /// Raises the signal, for good: nothing lowers it.
    pub fn stop(&self)
        ensures
            self.is_raised(),
    {
        self.0.store(true, Ordering::Release);
    }
}

/// What came of processing one record.
pub enum ProcessResult<T> {
    /// Pass these on, in order.
    Emit(Vec<T>),
    /// Pass this one on.
    EmitOne(T),
    /// Pass nothing on.
    Drop,
    /// The record could not be processed.
    Error(String),
}

impl<T> ProcessResult<T> {
    /// What is passed on.
    pub open spec fn emitted(self) -> Seq<T> {
        match self {
            ProcessResult::Emit(items) => items@,
            ProcessResult::EmitOne(item) => seq![item],
            ProcessResult::Drop => Seq::empty(),
            ProcessResult::Error(_) => Seq::empty(),
        }
    }
}

/// Whether a result passes on exactly these items, in the form for as many as there are.
pub open spec fn passes_on<T>(r: ProcessResult<T>, items: Seq<T>) -> bool {
    if items.len() == 0 {
        r is Drop
    } else if items.len() == 1 {
        r == ProcessResult::EmitOne(items[0])
    } else {
        r matches ProcessResult::Emit(all) && all@ == items
    }
}

/// The result that passes on these items: none, one or several.
pub fn pass_on<T>(items: Vec<T>) -> (r: ProcessResult<T>)
    ensures
        passes_on(r, items@),
        r.emitted() == items@,
{
    let mut items = items;
    if items.len() == 0 {
        assert(items@ =~= Seq::empty());
        return ProcessResult::Drop;
    }
    if items.len() > 1 {
        return ProcessResult::Emit(items);
    }
    let ghost all = items@;
    let item = items.remove(0);
    assert(all =~= seq![item]);
    ProcessResult::EmitOne(item)
}

/// A result passes on what it holds, and in the form for as many items as there are.
pub proof fn law_results_pass_on_what_they_hold<T>(r: ProcessResult<T>, items: Seq<T>)
    ensures
        r matches ProcessResult::Emit(all) ==> r.emitted() == all@,
        r matches ProcessResult::EmitOne(item) ==> r.emitted() == seq![item],
        r is Drop || r is Error ==> r.emitted().len() == 0,
        passes_on(r, items) ==> {
            &&& r.emitted() == items
            &&& r is Drop <==> items.len() == 0
            &&& r is EmitOne <==> items.len() == 1
            &&& r is Emit <==> items.len() > 1
        },
{
    if passes_on(r, items) {
        assert(r.emitted() =~= items);
    }
}

/// The work of an operator.
pub trait Process: Send + 'static {
    type Input: Send + 'static;

    type Output: Send + 'static;

    /// Whether the operator can be given this record as it stands. Any, unless an operator says
    /// otherwise.
    open spec fn accepts(&self, input: Self::Input) -> bool {
        true
    }

    /// Whether the operator, given this record, can answer so and be left so. An operator that
    /// does not say promises nothing.
    open spec fn answers(
        &self,
        input: Self::Input,
        r: ProcessResult<Self::Output>,
        after: &Self,
    ) -> bool {
        true
    }

    fn process(&mut self, input: Self::Input) -> (r: ProcessResult<Self::Output>)
        requires
            old(self).accepts(input),
        ensures
            old(self).answers(input, r, final(self)),
    ;

    /// Called once per tick even when no input arrives (for watermark/timer work).
    fn on_tick(&mut self) -> (out: Vec<Self::Output>)
        default_ensures
            out@.len() == 0,
    {
        Vec::new()
    }
}

/// A copy of a value for each of several receivers.
pub trait CloneForFanout: Sized {
    /// Whether `copy` is such a copy.
    spec fn copies_to(&self, copy: Self) -> bool;

    fn clone_for_fanout(&self) -> (copy: Self)
        ensures
            self.copies_to(copy),
    ;
}

impl<T: Clone> CloneForFanout for T {
    /// A clone is.
    open spec fn copies_to(&self, copy: Self) -> bool {
        cloned(*self, copy)
    }

    fn clone_for_fanout(&self) -> (copy: Self) {
        self.clone()
    }
}

/// Map: transforms each record 1:1.
#[verifier::reject_recursive_types(I)]
#[verifier::reject_recursive_types(O)]
pub struct MapProcessor<I, O, F: FnMut(I) -> O + Send + 'static> {
    pub f: F,
    pub _phantom: PhantomData<(I, O)>,
}

impl<I, O, F> MapProcessor<I, O, F> where
    I: Send + 'static,
    O: Send + 'static,
    F: FnMut(I) -> O + Send + 'static,
 {
    pub fn new(f: F) -> (p: Self)
        ensures
            p.f == f,
    {
        MapProcessor { f, _phantom: PhantomData }
    }
}

impl<I, O, F> Process for MapProcessor<I, O, F> where
    I: Send + 'static,
    O: Send + Clone + 'static,
    F: FnMut(I) -> O + Send + 'static,
 {
    type Input = I;

    type Output = O;

    /// Whatever the function can be called with.
    open spec fn accepts(&self, input: I) -> bool {
        call_requires(self.f, (input,))
    }

    /// Passes on what the function returns.
    open spec fn answers(&self, input: I, r: ProcessResult<O>, after: &Self) -> bool {
        &&& r matches ProcessResult::EmitOne(out)
        &&& call_ensures(self.f, (input,), out)
        &&& forall|next: I| #[trigger] after.accepts(next) == self.accepts(next)
    }

    fn process(&mut self, input: I) -> (r: ProcessResult<O>)
        ensures
            r matches ProcessResult::EmitOne(out) && call_ensures(old(self).f, (input,), out),
    {
        ProcessResult::EmitOne((self.f)(input))
    }

    /// There is nothing to do.
    fn on_tick(&mut self) -> (out: Vec<O>)
        ensures
            out@.len() == 0,
            *final(self) == *old(self),
    {
        Vec::new()
    }
}

/// A map takes exactly what its function can be called with, and passes on what that returns.
pub proof fn law_map_applies_the_function<I, O, F>(
    p: MapProcessor<I, O, F>,
    input: I,
    r: ProcessResult<O>,
    after: MapProcessor<I, O, F>,
) where I: Send + 'static, O: Send + Clone + 'static, F: FnMut(I) -> O + Send + 'static
    ensures
        p.accepts(input) == call_requires(p.f, (input,)),
        p.answers(input, r, &after) ==> {
            &&& r matches ProcessResult::EmitOne(out)
            &&& call_ensures(p.f, (input,), out)
            &&& forall|next: I| #[trigger] after.accepts(next) == p.accepts(next)
        },
{
}

/// Filter: passes records that satisfy a predicate.
#[verifier::reject_recursive_types(T)]
pub struct FilterProcessor<T, F: FnMut(&T) -> bool + Send + 'static> {
    pub pred: F,
    pub _phantom: PhantomData<T>,
}

impl<T, F> FilterProcessor<T, F> where
    T: Send + Clone + 'static,
    F: FnMut(&T) -> bool + Send + 'static,
 {
    pub fn new(pred: F) -> (p: Self)
        ensures
            p.pred == pred,
    {
        FilterProcessor { pred, _phantom: PhantomData }
    }
}

impl<T, F> Process for FilterProcessor<T, F> where
    T: Send + Clone + 'static,
    F: FnMut(&T) -> bool + Send + 'static,
 {
    type Input = T;

    type Output = T;

    /// Whatever the predicate can be called with.
    open spec fn accepts(&self, input: T) -> bool {
        call_requires(self.pred, (&input,))
    }

    /// Passes the record on unchanged or not at all, as the predicate says.
    open spec fn answers(&self, input: T, r: ProcessResult<T>, after: &Self) -> bool {
        &&& forall|next: T| #[trigger] after.accepts(next) == self.accepts(next)
        &&& match r {
            ProcessResult::EmitOne(out) => out == input && call_ensures(
                self.pred,
                (&input,),
                true,
            ),
            ProcessResult::Drop => call_ensures(self.pred, (&input,), false),
            _ => false,
        }
    }

    fn process(&mut self, input: T) -> (r: ProcessResult<T>)
        ensures
            r == ProcessResult::EmitOne(input) && call_ensures(old(self).pred, (&input,), true)
                || r is Drop && call_ensures(old(self).pred, (&input,), false),
    {
        if (self.pred)(&input) {
            ProcessResult::EmitOne(input)
        } else {
            ProcessResult::Drop
        }
    }

    /// There is nothing to do.
    fn on_tick(&mut self) -> (out: Vec<T>)
        ensures
            out@.len() == 0,
            *final(self) == *old(self),
    {
        Vec::new()
    }
}

/// A filter takes exactly what its predicate can be called with. It passes a record on unchanged
/// where the predicate can say yes, and drops it where it can say no.
pub proof fn law_filter_follows_the_predicate<T, F>(
    p: FilterProcessor<T, F>,
    input: T,
    r: ProcessResult<T>,
    after: FilterProcessor<T, F>,
) where T: Send + Clone + 'static, F: FnMut(&T) -> bool + Send + 'static
    ensures
        p.accepts(input) == call_requires(p.pred, (&input,)),
        p.answers(input, r, &after) ==> {
            &&& forall|next: T| #[trigger] after.accepts(next) == p.accepts(next)
            &&& {
                ||| r == ProcessResult::EmitOne(input) && call_ensures(p.pred, (&input,), true)
                ||| r is Drop && call_ensures(p.pred, (&input,), false)
            }
        },
{
}

/// FlatMap: expands each record into zero or more outputs.
#[verifier::reject_recursive_types(I)]
#[verifier::reject_recursive_types(O)]
pub struct FlatMapProcessor<I, O, F: FnMut(I) -> Vec<O> + Send + 'static> {
    pub f: F,
    pub _phantom: PhantomData<(I, O)>,
}

impl<I, O, F> FlatMapProcessor<I, O, F> where
    I: Send + 'static,
    O: Send + Clone + 'static,
    F: FnMut(I) -> Vec<O> + Send + 'static,
 {
    pub fn new(f: F) -> (p: Self)
        ensures
            p.f == f,
    {
        FlatMapProcessor { f, _phantom: PhantomData }
    }
}

impl<I, O, F> Process for FlatMapProcessor<I, O, F> where
    I: Send + 'static,
    O: Send + Clone + 'static,
    F: FnMut(I) -> Vec<O> + Send + 'static,
 {
    type Input = I;

    type Output = O;

    /// Whatever the function can be called with.
    open spec fn accepts(&self, input: I) -> bool {
        call_requires(self.f, (input,))
    }

    /// Passes on all that the function returns.
    open spec fn answers(&self, input: I, r: ProcessResult<O>, after: &Self) -> bool {
        &&& r matches ProcessResult::Emit(out)
        &&& call_ensures(self.f, (input,), out)
        &&& forall|next: I| #[trigger] after.accepts(next) == self.accepts(next)
    }

    fn process(&mut self, input: I) -> (r: ProcessResult<O>)
        ensures
            r matches ProcessResult::Emit(out) && call_ensures(old(self).f, (input,), out),
    {
        ProcessResult::Emit((self.f)(input))
    }

    /// There is nothing to do.
    fn on_tick(&mut self) -> (out: Vec<O>)
        ensures
            out@.len() == 0,
            *final(self) == *old(self),
    {
        Vec::new()
    }
}

/// A flat map takes exactly what its function can be called with, and passes on all that it
/// returns.
pub proof fn law_flat_map_applies_the_function<I, O, F>(
    p: FlatMapProcessor<I, O, F>,
    input: I,
    r: ProcessResult<O>,
    after: FlatMapProcessor<I, O, F>,
) where I: Send + 'static, O: Send + Clone + 'static, F: FnMut(I) -> Vec<O> + Send + 'static
    ensures
        p.accepts(input) == call_requires(p.f, (input,)),
        p.answers(input, r, &after) ==> {
            &&& r matches ProcessResult::Emit(out)
            &&& call_ensures(p.f, (input,), out)
            &&& forall|next: I| #[trigger] after.accepts(next) == p.accepts(next)
        },
{
}

/// Whether a receipt says that this sender offered a copy of the item.
pub open spec fn offers_copy<T: Clone>(
    receipt: Receipt<T>,
    sender: PipeSender<T>,
    item: T,
    policy: BackpressurePolicy,
) -> bool {
    exists|copy: T| #[trigger] receipt.says(sender, copy, policy) && item.copies_to(copy)
}

/// Whether every receiver was offered a copy of the item, in order.
pub open spec fn fans_out<T: Clone>(
    receipts: Seq<Receipt<T>>,
    item: T,
    senders: Seq<PipeSender<T>>,
    policy: BackpressurePolicy,
) -> bool {
    &&& receipts.len() == senders.len()
    &&& forall|k: int|
        0 <= k < senders.len() ==> #[trigger] offers_copy(receipts[k], senders[k], item, policy)
}

/// Whether every receiver was offered a copy of every item, one item after the other.
pub open spec fn fans_out_all<T: Clone>(
    receipts: Seq<Receipt<T>>,
    items: Seq<T>,
    senders: Seq<PipeSender<T>>,
    policy: BackpressurePolicy,
) -> bool
    decreases items.len(),
{
    if items.len() == 0 {
        receipts.len() == 0
    } else {
        let before = receipts.len() - senders.len();
        &&& before >= 0
        &&& fans_out_all(receipts.take(before), items.drop_last(), senders, policy)
        &&& fans_out(receipts.skip(before), items.last(), senders, policy)
    }
}

/// Every receiver is offered a copy of every item: the `k`th receiver one of the `i`th item.
pub proof fn law_every_receiver_gets_every_item<T: Clone>(
    receipts: Seq<Receipt<T>>,
    items: Seq<T>,
    senders: Seq<PipeSender<T>>,
    policy: BackpressurePolicy,
    i: int,
    k: int,
)
    requires
        fans_out_all(receipts, items, senders, policy),
        0 <= i < items.len(),
        0 <= k < senders.len(),
    ensures
        receipts.len() == items.len() * senders.len(),
        offers_copy(receipts[i * senders.len() + k], senders[k], items[i], policy),
    decreases items.len(),
{
    let n = senders.len() as int;
    let m = items.len() as int;
    let before = receipts.len() - n;
    lemma_fan_out_len(receipts, items, senders, policy);
    assert(before == (m - 1) * n) by (nonlinear_arith)
        requires
            before == m * n - n,
    ;
    if i < m - 1 {
        law_every_receiver_gets_every_item(
            receipts.take(before),
            items.drop_last(),
            senders,
            policy,
            i,
            k,
        );
        assert(i * n + k < before) by (nonlinear_arith)
            requires
                i < m - 1,
                0 <= k < n,
                before == (m - 1) * n,
        ;
        assert(i * n >= 0) by (nonlinear_arith)
            requires
                i >= 0,
                n >= 0,
        ;
        assert(receipts.take(before)[i * n + k] == receipts[i * n + k]);
    } else {
        assert(receipts.skip(before)[k] == receipts[i * n + k]);
        assert(offers_copy(receipts.skip(before)[k], senders[k], items.last(), policy));
    }
}

pub proof fn lemma_fan_out_len<T: Clone>(
    receipts: Seq<Receipt<T>>,
    items: Seq<T>,
    senders: Seq<PipeSender<T>>,
    policy: BackpressurePolicy,
)
    requires
        fans_out_all(receipts, items, senders, policy),
    ensures
        receipts.len() == items.len() * senders.len(),
    decreases items.len(),
{
    let (m, n) = (items.len() as int, senders.len() as int);
    if m > 0 {
        lemma_fan_out_len(receipts.take(receipts.len() - n), items.drop_last(), senders, policy);
        assert((m - 1) * n + n == m * n) by (nonlinear_arith);
    } else {
        assert(m * n == 0) by (nonlinear_arith)
            requires
                m == 0,
        ;
    }
}

/// What passing on the result of one record came to.
#[verifier::reject_recursive_types(T)]
pub struct Dispatched<T> {
    /// What became of each item for each receiver, in the order in which they were offered.
    pub receipts: Vec<Receipt<T>>,
    /// Why the record could not be processed, if it could not.
    pub error: Option<String>,
}

/// Whether `d` and the metrics `after` are what passing `result` on to these receivers can come
/// to: every receiver was offered every item, what became of them is counted, and an error is
/// counted and reported.
pub open spec fn dispatches<T: Clone>(
    result: ProcessResult<T>,
    senders: Seq<PipeSender<T>>,
    policy: BackpressurePolicy,
    d: Dispatched<T>,
    before: OperatorMetrics,
    after: OperatorMetrics,
) -> bool {
    &&& fans_out_all(d.receipts@, result.emitted(), senders, policy)
    &&& match result {
        ProcessResult::Error(e) => d.error == Some(e) && after == before.with_error(),
        _ => d.error is None && after == before.with_outcomes(channel::results(d.receipts@)),
    }
}

/// An operator with what it needs to run: where records come from and go to, and how it is
/// measured and stopped.
#[verifier::reject_recursive_types(P)]
pub struct OperatorRunner<P: Process> where P::Output: Clone {
    pub name: String,
    pub processor: P,
    pub rx: PipeReceiver<P::Input>,
    pub senders: Vec<PipeSender<P::Output>>,
    pub metrics: OperatorMetrics,
    pub stop: StopToken,
    pub policy: BackpressurePolicy,
    pub tick_ms: u64,
}

/// Where the loop of an operator stands. All but the last are a question that the loop answers
/// with yes or no to go on.
#[derive(Clone, Copy, Debug, PartialEq, Eq, Structural)]
pub enum RunnerStep {
    /// Is the stop signal raised?
    CheckStop,
    /// Is there a record? If so, it is processed.
    Receive { processed_any: bool },
    /// Is a tick due? If so, it is performed.
    CheckTick { processed_any: bool },
    /// Has a short rest been taken? There is no going on without.
    Rest,
    /// Is there a record left? If so, it is processed.
    Drain,
    /// The operator has stopped.
    Halt,
}

impl RunnerStep {
    pub open spec fn spec_next(self, yes: bool) -> Self {
        match self {
            RunnerStep::CheckStop => if yes {
                RunnerStep::Drain
            } else {
                RunnerStep::Receive { processed_any: false }
            },
            RunnerStep::Receive { processed_any } => if yes {
                RunnerStep::Receive { processed_any: true }
            } else {
                RunnerStep::CheckTick { processed_any }
            },
            RunnerStep::CheckTick { processed_any } => if processed_any {
                RunnerStep::CheckStop
            } else {
                RunnerStep::Rest
            },
            RunnerStep::Rest => if yes {
                RunnerStep::CheckStop
            } else {
                RunnerStep::Rest
            },
            RunnerStep::Drain => if yes {
                RunnerStep::Drain
            } else {
                RunnerStep::Halt
            },
            RunnerStep::Halt => RunnerStep::Halt,
        }
    }

    /// The step after as many yeses.
    pub open spec fn after_yeses(self, n: nat) -> Self
        decreases n,
    {
        if n == 0 {
            self
        } else {
            self.after_yeses((n - 1) as nat).spec_next(true)
        }
    }

    /// The step after this one, given the answer to its question: all records that are there are
    /// processed, then a tick that is due is performed, then the operator rests if there was no
    /// record, and it looks at the stop signal once in every such round. Once the signal is
    /// raised, it processes the records that are left, and halts.
    pub fn next(self, yes: bool) -> (step: Self)
        ensures
            step == self.spec_next(yes),
    {
        match self {
            RunnerStep::CheckStop => if yes {
                RunnerStep::Drain
            } else {
                RunnerStep::Receive { processed_any: false }
            },
            RunnerStep::Receive { processed_any } => if yes {
                RunnerStep::Receive { processed_any: true }
            } else {
                RunnerStep::CheckTick { processed_any }
            },
            RunnerStep::CheckTick { processed_any } => if processed_any {
                RunnerStep::CheckStop
            } else {
                RunnerStep::Rest
            },
            RunnerStep::Rest => if yes {
                RunnerStep::CheckStop
            } else {
                RunnerStep::Rest
            },
            RunnerStep::Drain => if yes {
                RunnerStep::Drain
            } else {
                RunnerStep::Halt
            },
            RunnerStep::Halt => RunnerStep::Halt,
        }
    }
}

/// In a round that finds `n` records and is not stopped, the operator processes all of them and
/// looks for a tick, whatever that finds; it then rests if there was no record, and otherwise
/// goes straight to the next round.
pub proof fn law_round(n: nat, due: bool)
    ensures
        ({
            let receiving = RunnerStep::CheckStop.spec_next(false);
            let drained = receiving.after_yeses(n).spec_next(false);
            let done = drained.spec_next(due);
            &&& forall|k: nat| k <= n ==> #[trigger] receiving.after_yeses(k) is Receive
            &&& drained == (RunnerStep::CheckTick { processed_any: n > 0 })
            &&& done == if n == 0 {
                RunnerStep::Rest
            } else {
                RunnerStep::CheckStop
            }
        }),
{
    let receiving = RunnerStep::CheckStop.spec_next(false);
    assert forall|k: nat| k <= n implies #[trigger] receiving.after_yeses(k) is Receive by {
        lemma_receiving(k);
    }
    lemma_receiving(n);
}

proof fn lemma_receiving(n: nat)
    ensures
        RunnerStep::CheckStop.spec_next(false).after_yeses(n) == (RunnerStep::Receive {
            processed_any: n > 0,
        }),
    decreases n,
{
    if n > 0 {
        lemma_receiving((n - 1) as nat);
    }
}

/// After a rest the operator looks at the stop signal again, and there is no going on without the
/// rest.
pub proof fn law_rest_ends_the_round()
    ensures
        RunnerStep::Rest.spec_next(true) == RunnerStep::CheckStop,
        RunnerStep::Rest.spec_next(false) == RunnerStep::Rest,
{
}

/// Once the stop signal has been seen, the operator asks for record after record, processes each
/// of the `n` that are left, and halts when there is none.
pub proof fn law_drains_before_halting(n: nat)
    ensures
        ({
            let stopped = RunnerStep::CheckStop.spec_next(true);
            &&& forall|k: nat| k <= n ==> #[trigger] stopped.after_yeses(k) == RunnerStep::Drain
            &&& stopped.after_yeses(n).spec_next(false) == RunnerStep::Halt
        }),
{
    assert forall|k: nat| k <= n implies #[trigger] RunnerStep::Drain.after_yeses(k)
        == RunnerStep::Drain by {
        lemma_draining(k);
    }
    lemma_draining(n);
}

proof fn lemma_draining(n: nat)
    ensures
        RunnerStep::Drain.after_yeses(n) == RunnerStep::Drain,
    decreases n,
{
    if n > 0 {
        lemma_draining((n - 1) as nat);
    }
}

/// The operator halts only where it has seen the stop signal and then found no record left.
pub proof fn law_halts_only_when_drained(step: RunnerStep, yes: bool)
    requires
        step != RunnerStep::Halt,
        step.spec_next(yes) == RunnerStep::Halt,
    ensures
        step == RunnerStep::Drain && !yes,
        forall|before: RunnerStep, answer: bool| #[trigger]
            before.spec_next(answer) == RunnerStep::Drain ==> before == RunnerStep::Drain || (
            before == RunnerStep::CheckStop && answer),
{
}

/// Once halted, the operator asks for nothing any more.
pub proof fn law_halted_stays_halted(n: nat)
    ensures
        RunnerStep::Halt.after_yeses(n) == RunnerStep::Halt,
        RunnerStep::Halt.spec_next(false) == RunnerStep::Halt,
    decreases n,
{
    if n > 0 {
        law_halted_stays_halted((n - 1) as nat);
    }
}

/// Whether a tick is due when so much time has passed since the last one.
pub fn tick_due(since_last: Duration, tick_ms: u64) -> (due: bool)
    ensures
        due == (time::duration_nanos(since_last) >= tick_ms * 1_000_000),
{
    since_last.as_nanos() >= Duration::from_millis(tick_ms).as_nanos()
}

/// Calls the function on what is behind the reference, and says so of the function value.
fn apply<A, B, F: FnOnce(&mut A) -> B>(f: F, a: &mut A) -> (b: B)
    requires
        forall|p: &mut A| *p == *old(a) ==> #[trigger] call_requires(f, (p,)),
    ensures
        exists|p: &mut A|
            *p == *old(a) && *final(p) == *final(a) && #[trigger] call_ensures(f, (p,), b),
{
    f(a)
}

impl<P: Process> OperatorRunner<P> where P::Output: Clone {
    /// Offers a copy of the item to every receiver and counts what became of each.
    pub fn emit(&mut self, item: &P::Output) -> (receipts: Vec<Receipt<P::Output>>)
        ensures
            fans_out(receipts@, *item, old(self).senders@, old(self).policy),
            *final(self) == (OperatorRunner {
                metrics: old(self).metrics.with_outcomes(channel::results(receipts@)),
                ..*old(self)
            }),
    {
        let mut receipts: Vec<Receipt<P::Output>> = Vec::new();
        let mut i: usize = 0;
        while i < self.senders.len()
            invariant
                i <= self.senders@.len(),
                receipts@.len() == i,
                *self == (OperatorRunner {
                    metrics: old(self).metrics.with_outcomes(channel::results(receipts@)),
                    ..*old(self)
                }),
                forall|k: int|
                    0 <= k < i ==> #[trigger] offers_copy(
                        receipts@[k],
                        self.senders@[k],
                        *item,
                        self.policy,
                    ),
            decreases self.senders@.len() - i,
        {
            let copy = item.clone_for_fanout();
            let ghost offered = copy;
            let receipt = self.senders[i].deliver(copy, self.policy);
            self.metrics.record_outcome(receipt.result());
            let ghost before = receipts@;
            receipts.push(receipt);
            proof {
                let all = channel::results(receipts@);
                assert(all.drop_last() =~= channel::results(before));
                assert(receipts@[i as int].says(self.senders@[i as int], offered, self.policy));
            }
            i = i + 1;
        }
        receipts
    }

    /// Offers a copy of every item to every receiver, one item after the other.
    pub fn emit_all(&mut self, items: &Vec<P::Output>) -> (receipts: Vec<Receipt<P::Output>>)
        ensures
            fans_out_all(receipts@, items@, old(self).senders@, old(self).policy),
            *final(self) == (OperatorRunner {
                metrics: old(self).metrics.with_outcomes(channel::results(receipts@)),
                ..*old(self)
            }),
    {
        let mut receipts: Vec<Receipt<P::Output>> = Vec::new();
        let mut i: usize = 0;
        while i < items.len()
            invariant
                i <= items@.len(),
                fans_out_all(
                    receipts@,
                    items@.take(i as int),
                    old(self).senders@,
                    old(self).policy,
                ),
                *self == (OperatorRunner {
                    metrics: old(self).metrics.with_outcomes(channel::results(receipts@)),
                    ..*old(self)
                }),
            decreases items@.len() - i,
        {
            let ghost before = receipts@;
            let mut more = self.emit(&items[i]);
            let ghost added = more@;
            receipts.append(&mut more);
            proof {
                metrics::law_outcomes_in_parts(
                    old(self).metrics,
                    channel::results(before),
                    channel::results(added),
                );
                assert(channel::results(receipts@) =~= channel::results(before)
                    + channel::results(added));
                assert(receipts@.take(before.len() as int) =~= before);
                assert(receipts@.skip(before.len() as int) =~= added);
                assert(items@.take(i + 1).drop_last() =~= items@.take(i as int));
                assert(items@.take(i + 1).last() == items@[i as int]);
            }
            i = i + 1;
        }
        assert(items@.take(i as int) =~= items@);
        receipts
    }

    /// Passes the result of a record on and counts what came of it.
    pub fn dispatch(&mut self, result: ProcessResult<P::Output>) -> (d: Dispatched<P::Output>)
        ensures
            dispatches(
                result,
                old(self).senders@,
                old(self).policy,
                d,
                old(self).metrics,
                final(self).metrics,
            ),
            *final(self) == (OperatorRunner { metrics: final(self).metrics, ..*old(self) }),
    {
        match result {
            ProcessResult::Emit(items) => {
                let receipts = self.emit_all(&items);
                Dispatched { receipts, error: None }
            },
            ProcessResult::EmitOne(item) => {
                let receipts = self.emit(&item);
                proof {
                    let one = seq![item];
                    assert(receipts@.take(0) =~= Seq::empty());
                    assert(receipts@.skip(0) =~= receipts@);
                    assert(one.drop_last() =~= Seq::empty());
                    reveal_with_fuel(fans_out_all, 2);
                    assert(fans_out_all(receipts@, one, self.senders@, self.policy));
                }
                Dispatched { receipts, error: None }
            },
            ProcessResult::Drop => {
                let d = Dispatched { receipts: Vec::new(), error: None };
                assert(channel::results(d.receipts@) =~= Seq::empty());
                d
            },
            ProcessResult::Error(e) => {
                self.metrics.record_error();
                Dispatched { receipts: Vec::new(), error: Some(e) }
            },
        }
    }

    /// Counts the time that a record took and passes its result on.
    pub fn settle(
        &mut self,
        result: ProcessResult<P::Output>,
        ns: u64,
    ) -> (d: Dispatched<P::Output>)
        ensures
            dispatches(
                result,
                old(self).senders@,
                old(self).policy,
                d,
                old(self).metrics.with_processing_ns(ns),
                final(self).metrics,
            ),
            *final(self) == (OperatorRunner { metrics: final(self).metrics, ..*old(self) }),
    {
        self.metrics.add_processing_ns(ns);
        self.dispatch(result)
    }

    /// Processes one record: counts it, takes the time of it, and passes the result on.
    pub fn handle(&mut self, record: P::Input) -> (d: Dispatched<P::Output>)
        requires
            old(self).processor.accepts(record),
        ensures
            exists|result: ProcessResult<P::Output>| #[trigger]
                old(self).handles(record, result, d, final(self)),
    {
        self.metrics.record_in();
        let start = time::now();
        let result = self.processor.process(record);
        let took = time::elapsed(&start);
        assert(time::is_measured(took));
        let ns: u64 = took.as_nanos() as u64;
        let ghost r = result;
        let d = self.settle(result, ns);
        assert(old(self).handles(record, r, d, self));
        d
    }

    /// Whether the operator can be given any record as it stands.
    pub open spec fn accepts_any(&self) -> bool {
        forall|input: P::Input| #[trigger] self.processor.accepts(input)
    }

    /// Whether processing the record can have that result, and passing the result on can lead to
    /// `after` with that outcome. The time that processing took is measured and counted.
    pub open spec fn handles(
        &self,
        record: P::Input,
        result: ProcessResult<P::Output>,
        d: Dispatched<P::Output>,
        after: &Self,
    ) -> bool {
        &&& *after == (OperatorRunner {
            metrics: after.metrics,
            processor: after.processor,
            ..*self
        })
        &&& self.processor.answers(record, result, &after.processor)
        &&& exists|took: Duration| #[trigger]
            time::is_measured(took) && dispatches(
                result,
                self.senders@,
                self.policy,
                d,
                self.metrics.with_in().with_processing_ns(time::duration_nanos(took) as u64),
                after.metrics,
            )
    }

    /// The operator with that record taken off its pipe.
    pub open spec fn with_taken(self, record: P::Input) -> Self {
        OperatorRunner { rx: self.rx.after_taking(record), ..self }
    }

    /// Whether the next record of the pipe was taken off it and processed, with that error to
    /// report; or, where there was none, nothing was done.
    pub open spec fn takes_next(&self, yes: bool, error: Option<String>, after: &Self) -> bool {
        if yes {
            exists|record: P::Input, result: ProcessResult<P::Output>, d: Dispatched<P::Output>|
                {
                    &&& self.rx.hands_out_now(Some(record))
                    &&& #[trigger] self.with_taken(record).handles(record, result, d, after)
                    &&& error == d.error
                }
        } else {
            &&& self.rx.hands_out_now(None)
            &&& error is None
            &&& *after == *self
        }
    }

    /// Whether passing these items on can lead to `after`, in which the operator's own state may
    /// be another.
    pub open spec fn yields(
        &self,
        items: Seq<P::Output>,
        receipts: Seq<Receipt<P::Output>>,
        after: &Self,
    ) -> bool {
        &&& fans_out_all(receipts, items, self.senders@, self.policy)
        &&& *after == (OperatorRunner {
            metrics: self.metrics.with_outcomes(channel::results(receipts)),
            processor: after.processor,
            ..*self
        })
    }

    /// Performs a tick: lets the operator do its timed work and passes on what it yields.
    pub fn tick(&mut self) -> (receipts: Vec<Receipt<P::Output>>)
        ensures
            exists|p: &mut P, items: Vec<P::Output>|
                #![trigger call_ensures(P::on_tick, (p,), items)]
                {
                    &&& *p == old(self).processor
                    &&& *final(p) == final(self).processor
                    &&& call_ensures(P::on_tick, (p,), items)
                    &&& old(self).yields(items@, receipts@, final(self))
                },
    {
        let items = apply(P::on_tick, &mut self.processor);
        self.emit_all(&items)
    }

    /// Takes the next record off the pipe, if there is one, and processes it.
    fn take_next(&mut self) -> (taken: (bool, Option<String>))
        requires
            old(self).accepts_any(),
        ensures
            old(self).takes_next(taken.0, taken.1, final(self)),
    {
        match self.rx.take() {
            Some(record) => {
                let ghost taken = *self;
                let ghost r = record;
                let d = self.handle(record);
                assert(taken == old(self).with_taken(r));
                (true, d.error)
            },
            None => (false, None),
        }
    }

    /// Answers the question of a step and does what comes with the answer: looks at the stop
    /// signal, processes the next record if there is one, or performs a tick if it is due, from
    /// which on the time to the next one counts. A rest is left to the caller, and so is reporting
    /// why a record could not be processed.
    pub fn perform(&mut self, step: RunnerStep, last_tick: &mut Instant) -> (next: (
        RunnerStep,
        Option<String>,
    ))
        requires
            step is Receive || step is Drain ==> old(self).accepts_any(),
        ensures
            match step {
                RunnerStep::CheckStop => {
                    &&& exists|stopped: bool| #[trigger]
                        old(self).stop.reads(stopped) && next.0 == step.spec_next(stopped)
                    &&& next.1 is None
                    &&& *final(self) == *old(self)
                },
                RunnerStep::Receive { .. } => exists|yes: bool| #[trigger]
                    old(self).takes_next(yes, next.1, final(self)) && next.0 == step.spec_next(yes),
                RunnerStep::Drain => exists|yes: bool| #[trigger]
                    old(self).takes_next(yes, next.1, final(self)) && next.0 == step.spec_next(yes),
                RunnerStep::CheckTick { .. } => {
                    &&& next.0 == step.spec_next(true)
                    &&& next.1 is None
                    &&& exists|gone: Duration| #[trigger]
                        time::elapsed_since(*old(last_tick), gone) && if time::duration_nanos(gone)
                            < old(self).tick_ms * 1_000_000 {
                            *final(self) == *old(self) && *final(last_tick) == *old(last_tick)
                        } else {
                            &&& time::is_reading(*final(last_tick))
                            &&& exists|
                                p: &mut P,
                                items: Vec<P::Output>,
                                receipts: Seq<Receipt<P::Output>>,
                            |
                                #![trigger call_ensures(P::on_tick, (p,), items),
                                    old(self).yields(items@, receipts, final(self))]
                                {
                                    &&& *p == old(self).processor
                                    &&& *final(p) == final(self).processor
                                    &&& call_ensures(P::on_tick, (p,), items)
                                    &&& old(self).yields(items@, receipts, final(self))
                                }
                        }
                },
                RunnerStep::Rest => next.0 == RunnerStep::Rest && next.1 is None && *final(self)
                    == *old(self),
                RunnerStep::Halt => next.0 == RunnerStep::Halt && next.1 is None && *final(self)
                    == *old(self),
            },
            !(step is CheckTick) ==> *final(last_tick) == *old(last_tick),
    {
        match step {
            RunnerStep::CheckStop => (step.next(self.stop.is_stopped()), None),
            RunnerStep::Receive { .. } => {
                let (yes, error) = self.take_next();
                (step.next(yes), error)
            },
            RunnerStep::Drain => {
                let (yes, error) = self.take_next();
                (step.next(yes), error)
            },
            RunnerStep::CheckTick { .. } => {
                let gone = time::elapsed(last_tick);
                let due: bool = tick_due(gone, self.tick_ms);
                if due {
                    self.tick();
                    *last_tick = time::now();
                }
                (step.next(due), None)
            },
            RunnerStep::Rest => (RunnerStep::Rest, None),
            RunnerStep::Halt => (RunnerStep::Halt, None),
        }
    }
}

/// Processing a record counts it once, and counts it as an error exactly if it is reported as
/// one; where it went and how it is configured stays as it was.
pub proof fn law_handling_counts_once<P: Process>(
    before: OperatorRunner<P>,
    record: P::Input,
    result: ProcessResult<P::Output>,
    d: Dispatched<P::Output>,
    after: OperatorRunner<P>,
) where P::Output: Clone
    requires
        before.handles(record, result, d, &after),
        before.metrics.records_in < u64::MAX,
        before.metrics.errors < u64::MAX,
    ensures
        after.metrics.records_in == before.metrics.records_in + 1,
        after.metrics.errors == before.metrics.errors + if d.error is Some {
            1int
        } else {
            0
        },
        after.senders == before.senders,
        after.policy == before.policy,
{
    let took = choose|took: Duration| #[trigger]
        time::is_measured(took) && dispatches(
            result,
            before.senders@,
            before.policy,
            d,
            before.metrics.with_in().with_processing_ns(time::duration_nanos(took) as u64),
            after.metrics,
        );
    metrics::lemma_outcomes_leave_the_rest(
        before.metrics.with_in().with_processing_ns(time::duration_nanos(took) as u64),
        channel::results(d.receipts@),
    );
}

/// Processing a record hands that record to the operator's own work, which answers from the state
/// it was in; every receiver is offered a copy of every item that comes of it; a record that could
/// not be processed is reported with the reason and offered to nobody; and the time it took is
/// added to the time spent.
pub proof fn law_handling_passes_everything_on<P: Process>(
    before: OperatorRunner<P>,
    record: P::Input,
    result: ProcessResult<P::Output>,
    d: Dispatched<P::Output>,
    after: OperatorRunner<P>,
    i: int,
    k: int,
) where P::Output: Clone
    requires
        before.handles(record, result, d, &after),
    ensures
        before.processor.answers(record, result, &after.processor),
        d.receipts@.len() == result.emitted().len() * before.senders@.len(),
        0 <= i < result.emitted().len() && 0 <= k < before.senders@.len() ==> offers_copy(
            d.receipts@[i * before.senders@.len() + k],
            before.senders@[k],
            result.emitted()[i],
            before.policy,
        ),
        match result {
            ProcessResult::Error(e) => d.error == Some(e) && d.receipts@.len() == 0,
            _ => d.error is None,
        },
        exists|took: Duration| #[trigger]
            time::is_measured(took) && after.metrics.processing_ns == metrics::wrapped(
                before.metrics.processing_ns + (time::duration_nanos(took) as u64),
            ),
        after.rx == before.rx,
        after.name == before.name,
        after.stop == before.stop,
        after.tick_ms == before.tick_ms,
{
    let took = choose|took: Duration| #[trigger]
        time::is_measured(took) && dispatches(
            result,
            before.senders@,
            before.policy,
            d,
            before.metrics.with_in().with_processing_ns(time::duration_nanos(took) as u64),
            after.metrics,
        );
    lemma_fan_out_len(d.receipts@, result.emitted(), before.senders@, before.policy);
    if 0 <= i < result.emitted().len() && 0 <= k < before.senders@.len() {
        law_every_receiver_gets_every_item(
            d.receipts@,
            result.emitted(),
            before.senders@,
            before.policy,
            i,
            k,
        );
    }
    metrics::lemma_outcomes_leave_the_rest(
        before.metrics.with_in().with_processing_ns(time::duration_nanos(took) as u64),
        channel::results(d.receipts@),
    );
}

/// What a tick yields is offered to every receiver, item by item, and counted; the records that
/// came in, the errors and the time spent are as they were.
pub proof fn law_ticking_passes_everything_on<P: Process>(
    before: OperatorRunner<P>,
    items: Seq<P::Output>,
    receipts: Seq<Receipt<P::Output>>,
    after: OperatorRunner<P>,
    i: int,
    k: int,
) where P::Output: Clone
    requires
        before.yields(items, receipts, &after),
    ensures
        receipts.len() == items.len() * before.senders@.len(),
        0 <= i < items.len() && 0 <= k < before.senders@.len() ==> offers_copy(
            receipts[i * before.senders@.len() + k],
            before.senders@[k],
            items[i],
            before.policy,
        ),
        after.metrics.records_out == metrics::wrapped(
            before.metrics.records_out + metrics::tally(
                channel::results(receipts),
                SendResult::Sent,
            ),
        ),
        after.metrics.records_dropped == metrics::wrapped(
            before.metrics.records_dropped + metrics::tally(
                channel::results(receipts),
                SendResult::Dropped,
            ),
        ),
        after.metrics.records_in == before.metrics.records_in,
        after.metrics.errors == before.metrics.errors,
        after.metrics.processing_ns == before.metrics.processing_ns,
        after.rx == before.rx,
        after.senders == before.senders,
{
    lemma_fan_out_len(receipts, items, before.senders@, before.policy);
    if 0 <= i < items.len() && 0 <= k < before.senders@.len() {
        law_every_receiver_gets_every_item(
            receipts,
            items,
            before.senders@,
            before.policy,
            i,
            k,
        );
    }
    metrics::law_outcomes_are_counted(before.metrics, channel::results(receipts));
}

} // verus!
