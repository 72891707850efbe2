//! Where records end up, and when a sink stops.
use std::marker::PhantomData;
use std::time::Duration;
use vstd::prelude::*;
use vstd::string::StringExecFns;

use crate::channel::PipeReceiver;
use crate::metrics::{self, OperatorMetrics};
use crate::operator::StopToken;
use crate::time;

verus! {

/// The most steps that a sink takes before it gives up waiting for the stop signal. A sink that
/// took a step every nanosecond would get there after centuries.
pub const MAX_STEPS: u64 = u64::MAX;

/// How long a sink waits for a record before it looks at the stop signal again.
pub const WAIT_MS: u64 = 1;

/// Whether a sink that drains has come to its end once it has found these.
pub open spec fn runs_to_end<T>(looks: Seq<Look<T>>) -> bool {
    SinkStep::CheckStop.after(answers(looks), OnStop::Drain) == SinkStep::Halt || looks.len()
        == MAX_STEPS
}

/// The metrics after so many records came in.
pub open spec fn with_records_in(m: OperatorMetrics, n: nat) -> OperatorMetrics
    decreases n,
{
    if n == 0 {
        m
    } else {
        with_records_in(m, (n - 1) as nat).with_in()
    }
}

/// Keeps all records, in the order in which they came (for testing and small demos).
pub struct CollectSink<T> {
    pub collected: Vec<T>,
}

impl<T: Send + 'static> CollectSink<T> {
    pub fn new() -> (s: Self)
        ensures
            s.collected@.len() == 0,
    {
        CollectSink { collected: Vec::new() }
    }

    /// Keeps one more record and counts it.
    pub fn accept(&mut self, item: T, metrics: &mut OperatorMetrics)
        ensures
            final(self).collected@ == old(self).collected@.push(item),
            *final(metrics) == old(metrics).with_in(),
    {
        self.collected.push(item);
        metrics.record_in();
    }

    /// Keeps the records of a pipe until the stop signal is raised, and then all that are left.
    pub fn run(self, rx: PipeReceiver<T>, metrics: &mut OperatorMetrics, stop: StopToken) -> (done:
        Self)
        ensures
            exists|looks: Seq<Look<T>>|
                {
                    &&& #[trigger] sees(looks, rx, stop)
                    &&& runs_to_end(looks)
                    &&& done.collected@ == self.collected@ + records(looks)
                    &&& *final(metrics) == with_records_in(*old(metrics), records(looks).len())
                },
    {
        let mut sink = self;
        let mut step = SinkStep::CheckStop;
        let mut steps: u64 = 0;
        let ghost mut looks: Seq<Look<T>> = Seq::empty();
        assert(answers(looks) =~= Seq::empty());
        assert(self.collected@ + records(looks) =~= self.collected@);
        while steps < MAX_STEPS && step != SinkStep::Halt
            invariant
                looks.len() == steps,
                sees(looks, rx, stop),
                step == SinkStep::CheckStop.after(answers(looks), OnStop::Drain),
                sink.collected@ == self.collected@ + records(looks),
                *metrics == with_records_in(*old(metrics), records(looks).len()),
            decreases MAX_STEPS - steps,
        {
            let ghost before = looks;
            let look = look(step, &rx, &stop);
            let yes: bool = look.is_yes();
            proof {
                looks = looks.push(look);
                assert(looks.drop_last() =~= before);
                assert(answers(looks).drop_last() =~= answers(before));
            }
            if let Look::Record(item) = look {
                sink.accept(item, metrics);
                assert(sink.collected@ =~= self.collected@ + records(looks));
            }
            step = step.next(yes, OnStop::Drain);
            steps = steps + 1;
        }
        sink
    }
}

impl<T: Send + 'static> Default for CollectSink<T> {
    fn default() -> (s: Self)
        ensures
            s.collected@.len() == 0,
    {
        Self::new()
    }
}

/// Counts records (for benchmarking without I/O overhead). The count wraps around at its upper
/// end.
#[derive(Debug, Clone, Copy)]
pub struct CountSink {
    pub count: u64,
}

impl CountSink {
    pub fn new() -> (s: Self)
        ensures
            s.count == 0,
    {
        CountSink { count: 0 }
    }

    /// Counts one more record.
    pub fn accept(&mut self, metrics: &mut OperatorMetrics)
        ensures
            final(self).count == old(self).count.wrapping_add(1),
            *final(metrics) == old(metrics).with_in(),
    {
        self.count = self.count.wrapping_add(1);
        metrics.record_in();
    }

    /// Counts the records of a pipe until the stop signal is raised, and then all that are left.
    pub fn run<T: Send + 'static>(
        self,
        rx: PipeReceiver<T>,
        metrics: &mut OperatorMetrics,
        stop: StopToken,
    ) -> (done: Self)
        ensures
            exists|looks: Seq<Look<T>>|
                {
                    let n = records(looks).len();
                    &&& #[trigger] sees(looks, rx, stop)
                    &&& runs_to_end(looks)
                    &&& done.count == (self.count + n) % 0x1_0000_0000_0000_0000
                    &&& *final(metrics) == with_records_in(*old(metrics), n)
                },
    {
        let mut sink = self;
        let mut step = SinkStep::CheckStop;
        let mut steps: u64 = 0;
        let ghost mut looks: Seq<Look<T>> = Seq::empty();
        assert(answers(looks) =~= Seq::empty());
        while steps < MAX_STEPS && step != SinkStep::Halt
            invariant
                looks.len() == steps,
                sees(looks, rx, stop),
                step == SinkStep::CheckStop.after(answers(looks), OnStop::Drain),
                sink.count == (self.count + records(looks).len()) % 0x1_0000_0000_0000_0000,
                *metrics == with_records_in(*old(metrics), records(looks).len()),
            decreases MAX_STEPS - steps,
        {
            let ghost before = looks;
            let look = look(step, &rx, &stop);
            let yes: bool = look.is_yes();
            proof {
                looks = looks.push(look);
                assert(looks.drop_last() =~= before);
                assert(answers(looks).drop_last() =~= answers(before));
            }
            if let Look::Record(_) = look {
                sink.accept(metrics);
            }
            step = step.next(yes, OnStop::Drain);
            steps = steps + 1;
        }
        sink
    }
}

impl Default for CountSink {
    fn default() -> (s: Self)
        ensures
            s.count == 0,
    {
        Self::new()
    }
}

/// Shows records (debugging).
pub struct PrintSink<T: Send + 'static> {
    pub prefix: String,
    pub _phantom: PhantomData<T>,
}

impl<T: Send + 'static> PrintSink<T> {
    pub fn new(prefix: &str) -> (s: Self)
        ensures
            s.prefix@ == prefix@,
    {
        PrintSink { prefix: prefix.to_owned(), _phantom: PhantomData }
    }

    /// The line that shows a record, given how the record itself is shown; counts the record.
    pub fn accept(&self, shown: &str, metrics: &mut OperatorMetrics) -> (line: String)
        ensures
            line@ == self.prefix@ + seq![':', ' '] + shown@,
            *final(metrics) == old(metrics).with_in(),
    {
        proof {
            reveal_strlit(": ");
        }
        metrics.record_in();
        let mut line: String = self.prefix.clone();
        line.append(": ");
        line.append(shown);
        assert(": "@ =~= seq![':', ' ']);
        line
    }
}

/// What a sink does with the records that are left when it is stopped.
#[derive(Clone, Copy, Debug, PartialEq, Eq, Structural)]
pub enum OnStop {
    /// Takes them.
    Drain,
    /// Leaves them.
    Leave,
}

/// Where the loop of a sink stands. All but the last are a question that the loop answers with
/// yes or no to go on.
#[derive(Clone, Copy, Debug, PartialEq, Eq, Structural)]
pub enum SinkStep {
    /// Is the stop signal raised?
    CheckStop,
    /// Did a record come while the sink waited? If so, it is accepted.
    Wait,
    /// Is there a record left? If so, it is accepted.
    Drain,
    /// The sink has stopped.
    Halt,
}

impl SinkStep {
    pub open spec fn spec_next(self, yes: bool, on_stop: OnStop) -> Self {
        match self {
            SinkStep::CheckStop => if !yes {
                SinkStep::Wait
            } else if on_stop == OnStop::Drain {
                SinkStep::Drain
            } else {
                SinkStep::Halt
            },
            SinkStep::Wait => SinkStep::CheckStop,
            SinkStep::Drain => if yes {
                SinkStep::Drain
            } else {
                SinkStep::Halt
            },
            SinkStep::Halt => SinkStep::Halt,
        }
    }

    /// Whether the answer yes comes with a record that the sink accepts.
    pub open spec fn takes(self) -> bool {
        self == SinkStep::Wait || self == SinkStep::Drain
    }

    /// The step after a list of answers.
    pub open spec fn after(self, answers: Seq<bool>, on_stop: OnStop) -> Self
        decreases answers.len(),
    {
        if answers.len() == 0 {
            self
        } else {
            self.after(answers.drop_last(), on_stop).spec_next(answers.last(), on_stop)
        }
    }

    /// The number of records accepted on the way.
    pub open spec fn taken(self, answers: Seq<bool>, on_stop: OnStop) -> nat
        decreases answers.len(),
    {
        if answers.len() == 0 {
            0
        } else {
            let before = answers.drop_last();
            self.taken(before, on_stop) + if self.after(before, on_stop).takes()
                && answers.last() {
                1nat
            } else {
                0
            }
        }
    }

    /// The step after this one, given the answer to its question.
    pub fn next(self, yes: bool, on_stop: OnStop) -> (step: Self)
        ensures
            step == self.spec_next(yes, on_stop),
    {
        match self {
            SinkStep::CheckStop => if !yes {
                SinkStep::Wait
            } else if on_stop == OnStop::Drain {
                SinkStep::Drain
            } else {
                SinkStep::Halt
            },
            SinkStep::Wait => SinkStep::CheckStop,
            SinkStep::Drain => if yes {
                SinkStep::Drain
            } else {
                SinkStep::Halt
            },
            SinkStep::Halt => SinkStep::Halt,
        }
    }
}

/// What a step found.
pub enum Look<T> {
    Yes,
    No,
    /// Yes, namely this record.
    Record(T),
}

impl<T> Look<T> {
    pub open spec fn spec_is_yes(self) -> bool {
        !(self is No)
    }

    pub fn is_yes(&self) -> (yes: bool)
        ensures
            yes == self.spec_is_yes(),
    {
        match self {
            Look::No => false,
            _ => true,
        }
    }
}

/// What a step found where a record was handed out, or none was.
pub open spec fn found<T>(item: Option<T>) -> Look<T> {
    match item {
        Some(record) => Look::Record(record),
        None => Look::No,
    }
}

/// Whether a step can find this: what it asks the stop signal or the pipe, and what these
/// answered.
pub open spec fn finds<T>(
    step: SinkStep,
    rx: PipeReceiver<T>,
    stop: StopToken,
    look: Look<T>,
) -> bool {
    match step {
        SinkStep::CheckStop => exists|stopped: bool| #[trigger]
            stop.reads(stopped) && look == if stopped {
                Look::<T>::Yes
            } else {
                Look::<T>::No
            },
        SinkStep::Wait => exists|timeout: Duration, item: Option<T>| #[trigger]
            rx.hands_out_within(timeout, item) && time::duration_nanos(timeout) == WAIT_MS
                * time::NANOS_PER_MILLI && look == found(item),
        SinkStep::Drain => exists|item: Option<T>| #[trigger]
            rx.hands_out_now(item) && look == found(item),
        SinkStep::Halt => look is No,
    }
}

/// The answers that these were.
pub open spec fn answers<T>(looks: Seq<Look<T>>) -> Seq<bool> {
    looks.map_values(|l: Look<T>| l.spec_is_yes())
}

/// The records among what was found, in order.
pub open spec fn records<T>(looks: Seq<Look<T>>) -> Seq<T>
    decreases looks.len(),
{
    if looks.len() == 0 {
        Seq::empty()
    } else {
        match looks.last() {
            Look::Record(item) => records(looks.drop_last()).push(item),
            _ => records(looks.drop_last()),
        }
    }
}

/// Whether a sink that drains can have found these, one after the other from its start: each is
/// what its step found in the pipe or the signal.
pub open spec fn sees<T>(looks: Seq<Look<T>>, rx: PipeReceiver<T>, stop: StopToken) -> bool
    decreases looks.len(),
{
    looks.len() > 0 ==> {
        let before = looks.drop_last();
        &&& sees(before, rx, stop)
        &&& finds(
            SinkStep::CheckStop.after(answers(before), OnStop::Drain),
            rx,
            stop,
            looks.last(),
        )
    }
}

/// A sink takes a record at exactly those steps at which its machine does.
pub proof fn law_takes_what_it_finds<T>(looks: Seq<Look<T>>, rx: PipeReceiver<T>, stop: StopToken)
    requires
        sees(looks, rx, stop),
    ensures
        records(looks).len() == SinkStep::CheckStop.taken(answers(looks), OnStop::Drain),
    decreases looks.len(),
{
    if looks.len() > 0 {
        let before = looks.drop_last();
        law_takes_what_it_finds(before, rx, stop);
        assert(answers(looks).drop_last() =~= answers(before));
        assert(answers(looks).last() == looks.last().spec_is_yes());
    }
}

/// A sink that has halted has seen the stop signal raised, and after that found the pipe with
/// nothing left.
pub proof fn law_halts_told_and_drained<T>(
    looks: Seq<Look<T>>,
    rx: PipeReceiver<T>,
    stop: StopToken,
)
    requires
        sees(looks, rx, stop),
        SinkStep::CheckStop.after(answers(looks), OnStop::Drain) == SinkStep::Halt,
    ensures
        stop.reads(true),
        rx.hands_out_now(None),
    decreases looks.len(),
{
    if looks.len() > 0 {
        let before = looks.drop_last();
        assert(answers(looks).drop_last() =~= answers(before));
        assert(answers(looks).last() == looks.last().spec_is_yes());
        let step = SinkStep::CheckStop.after(answers(before), OnStop::Drain);
        if step == SinkStep::Halt {
            law_halts_told_and_drained(before, rx, stop);
        } else {
            lemma_drains_only_when_told(before, rx, stop);
        }
    } else {
        assert(answers(looks) =~= Seq::empty());
    }
}

proof fn lemma_drains_only_when_told<T>(
    looks: Seq<Look<T>>,
    rx: PipeReceiver<T>,
    stop: StopToken,
)
    requires
        sees(looks, rx, stop),
        SinkStep::CheckStop.after(answers(looks), OnStop::Drain) == SinkStep::Drain,
    ensures
        stop.reads(true),
    decreases looks.len(),
{
    if looks.len() > 0 {
        let before = looks.drop_last();
        assert(answers(looks).drop_last() =~= answers(before));
        assert(answers(looks).last() == looks.last().spec_is_yes());
        if SinkStep::CheckStop.after(answers(before), OnStop::Drain) == SinkStep::Drain {
            lemma_drains_only_when_told(before, rx, stop);
        }
    } else {
        assert(answers(looks) =~= Seq::empty());
    }
}

/// Answers the question of a step: looks at the stop signal, waits a while for a record, or takes
/// one that is there. A record comes with the answer exactly where the step takes one and the
/// answer is yes; which answer it is rests with the other threads and the clock.
pub fn look<T: Send>(step: SinkStep, rx: &PipeReceiver<T>, stop: &StopToken) -> (look: Look<T>)
    ensures
        finds(step, *rx, *stop, look),
        look is Record <==> step.takes() && look.spec_is_yes(),
{
    let record = match step {
        SinkStep::CheckStop => {
            return if stop.is_stopped() {
                Look::Yes
            } else {
                Look::No
            };
        },
        SinkStep::Wait => rx.recv_timeout(Duration::from_millis(WAIT_MS)),
        SinkStep::Drain => rx.try_recv(),
        SinkStep::Halt => None,
    };
    match record {
        Some(record) => Look::Record(record),
        None => Look::No,
    }
}

/// Once stopped, a sink that drains accepts exactly the `n` records that are left, and then
/// halts.
pub proof fn law_drains(n: nat)
    ensures
        ({
            let answers = Seq::new(n, |i: int| true).push(false);
            let stopped = SinkStep::CheckStop.spec_next(true, OnStop::Drain);
            &&& stopped.after(answers, OnStop::Drain) == SinkStep::Halt
            &&& stopped.taken(answers, OnStop::Drain) == n
        }),
{
    let left = Seq::new(n, |i: int| true);
    lemma_draining(n);
    assert(left.push(false).drop_last() =~= left);
}

proof fn lemma_draining(n: nat)
    ensures
        ({
            let left = Seq::new(n, |i: int| true);
            &&& SinkStep::Drain.after(left, OnStop::Drain) == SinkStep::Drain
            &&& SinkStep::Drain.taken(left, OnStop::Drain) == n
        }),
    decreases n,
{
    if n > 0 {
        let left = Seq::new(n, |i: int| true);
        lemma_draining((n - 1) as nat);
        assert(left.drop_last() =~= Seq::new((n - 1) as nat, |i: int| true));
    }
}

/// Every record that comes in is counted, where the counter wraps around at its upper end, and
/// nothing else changes.
pub proof fn law_records_in_are_counted(m: OperatorMetrics, n: nat)
    ensures
        with_records_in(m, n) == (OperatorMetrics {
            records_in: metrics::wrapped(m.records_in + n),
            ..m
        }),
    decreases n,
{
    if n > 0 {
        law_records_in_are_counted(m, (n - 1) as nat);
    }
}

/// A sink that has halted accepts no record any more, whatever comes.
pub proof fn law_halted_takes_nothing(answers: Seq<bool>, on_stop: OnStop)
    ensures
        SinkStep::Halt.after(answers, on_stop) == SinkStep::Halt,
        SinkStep::Halt.taken(answers, on_stop) == 0,
    decreases answers.len(),
{
    if answers.len() > 0 {
        law_halted_takes_nothing(answers.drop_last(), on_stop);
    }
}

/// A sink that leaves records behind accepts none once it has seen the stop signal.
pub proof fn law_leaves(answers: Seq<bool>)
    ensures
        SinkStep::CheckStop.spec_next(true, OnStop::Leave).taken(answers, OnStop::Leave) == 0,
{
    law_halted_takes_nothing(answers, OnStop::Leave);
}

/// A sink halts only when it has seen the stop signal, and one that drains not before it has
/// found nothing left.
pub proof fn law_halts_only_when_stopped(step: SinkStep, yes: bool, on_stop: OnStop)
    requires
        step == SinkStep::Drain ==> on_stop == OnStop::Drain,
        step != SinkStep::Halt,
        step.spec_next(yes, on_stop) == SinkStep::Halt,
    ensures
        match on_stop {
            OnStop::Drain => step == SinkStep::Drain && !yes,
            OnStop::Leave => step == SinkStep::CheckStop && yes,
        },
{
}

/// The records that a sink has found are exactly those that its looks came with, in order.
pub proof fn law_every_record_found_is_kept<T>(looks: Seq<Look<T>>, item: T)
    ensures
        records(Seq::<Look<T>>::empty()) == Seq::<T>::empty(),
        records(looks.push(Look::Record(item))) == records(looks).push(item),
        records(looks.push(Look::Yes)) == records(looks),
        records(looks.push(Look::No)) == records(looks),
{
    assert(looks.push(Look::Record(item)).drop_last() =~= looks);
    assert(looks.push(Look::Yes).drop_last() =~= looks);
    assert(looks.push(Look::No).drop_last() =~= looks);
}

/// A step asks what it stands for: the stop signal, the pipe for no longer than a millisecond, or
/// the pipe without waiting; and a record that comes is what the pipe handed out.
pub proof fn law_looks_are_answers<T>(
    step: SinkStep,
    rx: PipeReceiver<T>,
    stop: StopToken,
    look: Look<T>,
)
    requires
        finds(step, rx, stop, look),
    ensures
        step == SinkStep::CheckStop ==> !(look is Record) && stop.reads(look is Yes),
        step == SinkStep::Wait ==> exists|timeout: Duration, item: Option<T>| #[trigger]
            rx.hands_out_within(timeout, item) && time::duration_nanos(timeout) == 1_000_000 && (
            item matches Some(x) ==> look == Look::Record(x)) && (item is None ==> look is No),
        step == SinkStep::Drain ==> exists|item: Option<T>| #[trigger]
            rx.hands_out_now(item) && (item matches Some(x) ==> look == Look::Record(x)) && (
            item is None ==> look is No),
        step == SinkStep::Halt ==> look is No,
{
}

/// A sink that drains ends when it has been told to stop and then found nothing left, and otherwise
/// only after 2^64 - 1 steps.
pub proof fn law_sinks_run_until_told_and_drained<T>(
    looks: Seq<Look<T>>,
    rx: PipeReceiver<T>,
    stop: StopToken,
)
    requires
        sees(looks, rx, stop),
        runs_to_end(looks),
    ensures
        looks.len() == u64::MAX || stop.reads(true) && rx.hands_out_now(None) && looks.len() > 0
            && looks.last() is No,
{
    if looks.len() != u64::MAX {
        law_halts_told_and_drained(looks, rx, stop);
        lemma_halts_with_a_no(looks, rx, stop);
    }
}

proof fn lemma_halts_with_a_no<T>(looks: Seq<Look<T>>, rx: PipeReceiver<T>, stop: StopToken)
    requires
        sees(looks, rx, stop),
        SinkStep::CheckStop.after(answers(looks), OnStop::Drain) == SinkStep::Halt,
    ensures
        looks.len() > 0,
        looks.last() is No,
{
    if looks.len() > 0 {
        let before = looks.drop_last();
        assert(answers(looks).drop_last() =~= answers(before));
        assert(answers(looks).last() == looks.last().spec_is_yes());
    } else {
        assert(answers(looks) =~= Seq::empty());
    }
}

/// A sink looks at the stop signal before every wait and after it, whatever came; it drains only
/// once the signal is raised, and then until nothing is left.
pub proof fn law_sinks_look_at_the_signal_every_round(yes: bool, on_stop: OnStop)
    ensures
        SinkStep::CheckStop.spec_next(false, on_stop) == SinkStep::Wait,
        SinkStep::Wait.spec_next(yes, on_stop) == SinkStep::CheckStop,
        SinkStep::CheckStop.spec_next(true, OnStop::Drain) == SinkStep::Drain,
        SinkStep::CheckStop.spec_next(true, OnStop::Leave) == SinkStep::Halt,
        SinkStep::Drain.spec_next(true, on_stop) == SinkStep::Drain,
        SinkStep::Drain.spec_next(false, on_stop) == SinkStep::Halt,
        SinkStep::Wait.takes(),
        SinkStep::Drain.takes(),
        !SinkStep::CheckStop.takes(),
        !SinkStep::Halt.takes(),
{
}

} // verus!
