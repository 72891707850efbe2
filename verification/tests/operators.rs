use std::time::{Duration, Instant};

use streamline::channel::{BackpressurePolicy, Pipe, PipeReceiver, PipeSender, SendResult};
use streamline::metrics::OperatorMetrics;
use streamline::operator::{
    pass_on, relay_all, relay_all_until_closed, relay_one, relay_until_closed, tick_due, CloneForFanout, FilterProcessor, FlatMapProcessor,
    MapProcessor, OperatorRunner, Process, ProcessResult, RunnerStep, StopToken,
};
use streamline::pipeline::{make_stop_pair, wait_step, ShutdownReport, WaitStep};

const POLICY: BackpressurePolicy = BackpressurePolicy::Drop;

struct Doubler {
    ticks: u32,
}

impl Process for Doubler {
    type Input = u32;
    type Output = u32;

    fn process(&mut self, n: u32) -> ProcessResult<u32> {
        match n {
            0 => ProcessResult::Drop,
            1 => ProcessResult::Error("one".to_owned()),
            2 => ProcessResult::EmitOne(2),
            _ => ProcessResult::Emit(vec![n, n]),
        }
    }

    fn on_tick(&mut self) -> Vec<u32> {
        self.ticks += 1;
        vec![self.ticks; 2]
    }
}

fn runner(
    capacities: &[usize],
) -> (PipeSender<u32>, OperatorRunner<Doubler>, Vec<PipeReceiver<u32>>) {
    let (tx, rx) = Pipe::new(8).split();
    let mut senders = Vec::new();
    let mut receivers = Vec::new();
    for c in capacities {
        let (s, r) = Pipe::new(*c).split();
        senders.push(s);
        receivers.push(r);
    }
    let (stop, _) = StopToken::new();
    let runner = OperatorRunner {
        name: "doubler".to_owned(),
        processor: Doubler { ticks: 0 },
        rx,
        senders,
        metrics: OperatorMetrics::new(),
        stop,
        policy: POLICY,
        tick_ms: 10,
    };
    (tx, runner, receivers)
}

fn drain(rx: &PipeReceiver<u32>) -> Vec<u32> {
    let mut all = Vec::new();
    while let Some(item) = rx.try_recv() {
        all.push(item);
    }
    all
}

#[test]
fn every_receiver_gets_every_item_in_order() {
    let (_, mut r, rxs) = runner(&[8, 8]);
    for n in [0u32, 2, 3] {
        assert!(r.handle(n).error.is_none());
    }
    for rx in &rxs {
        assert_eq!(drain(rx), vec![2, 3, 3]);
    }
    assert_eq!((r.metrics.records_in, r.metrics.records_out), (3, 6));
    assert_eq!((r.metrics.records_dropped, r.metrics.errors), (0, 0));
}

#[test]
fn an_error_is_counted_and_reported() {
    let (_, mut r, rxs) = runner(&[8]);
    let d = r.handle(1);
    assert_eq!(d.error, Some("one".to_owned()));
    assert_eq!(d.receipts.len(), 0);
    assert_eq!((r.metrics.errors, r.metrics.records_out), (1, 0));
    assert!(drain(&rxs[0]).is_empty());
}

#[test]
fn a_full_receiver_drops_without_holding_up_the_others() {
    let (_, mut r, rxs) = runner(&[1, 8]);
    let d = r.handle(5);
    let results: Vec<SendResult> = d.receipts.iter().map(|x| x.result()).collect();
    assert_eq!(
        results,
        vec![SendResult::Sent, SendResult::Sent, SendResult::Dropped, SendResult::Sent]
    );
    assert_eq!((r.metrics.records_out, r.metrics.records_dropped), (3, 1));
    assert_eq!(drain(&rxs[1]), vec![5, 5]);
}

#[test]
fn a_missing_receiver_counts_as_nothing() {
    let (_, mut r, rxs) = runner(&[4]);
    drop(rxs);
    let d = r.settle(ProcessResult::EmitOne(9), 77);
    assert_eq!(d.receipts[0].result(), SendResult::Disconnected);
    assert_eq!((r.metrics.records_out, r.metrics.records_dropped), (0, 0));
    assert_eq!(r.metrics.processing_ns, 77);
}

#[test]
fn a_tick_passes_on_what_it_yields() {
    let (_, mut r, rxs) = runner(&[8]);
    assert_eq!(r.tick().len(), 2);
    assert_eq!(r.tick().len(), 2);
    assert_eq!(drain(&rxs[0]), vec![1, 1, 2, 2]);
    assert_eq!(r.metrics.records_out, 4);
    assert_eq!(r.metrics.records_in, 0);
}

#[test]
fn a_tick_is_due_after_its_time() {
    assert!(!tick_due(Duration::from_nanos(9_999_999), 10));
    assert!(tick_due(Duration::from_millis(10), 10));
    assert!(tick_due(Duration::from_millis(0), 0));
}

#[test]
fn an_idle_round_rests_and_a_busy_one_does_not() {
    let idle = RunnerStep::CheckStop.next(false).next(false);
    assert_eq!(idle, RunnerStep::CheckTick { processed_any: false });
    assert_eq!(idle.next(true), RunnerStep::Rest);
    assert_eq!(idle.next(false).next(true), RunnerStep::CheckStop);
    let busy = RunnerStep::CheckStop.next(false).next(true).next(true).next(false);
    assert_eq!(busy, RunnerStep::CheckTick { processed_any: true });
    assert_eq!(busy.next(false), RunnerStep::CheckStop);
    assert_eq!(busy.next(true), RunnerStep::CheckStop);
}

#[test]
fn a_round_step_by_step() {
    let (tx, mut r, rxs) = runner(&[8]);
    r.tick_ms = 0;
    let mut last_tick = Instant::now();
    for n in [2u32, 1] {
        assert_eq!(tx.send(n, POLICY), Ok(()));
    }
    let mut steps = vec![RunnerStep::CheckStop];
    let mut errors = Vec::new();
    for _ in 0..6 {
        let (next, error) = r.perform(*steps.last().unwrap(), &mut last_tick);
        steps.push(next);
        errors.extend(error);
    }
    assert_eq!(
        steps,
        vec![
            RunnerStep::CheckStop,
            RunnerStep::Receive { processed_any: false },
            RunnerStep::Receive { processed_any: true },
            RunnerStep::Receive { processed_any: true },
            RunnerStep::CheckTick { processed_any: true },
            RunnerStep::CheckStop,
            RunnerStep::Receive { processed_any: false },
        ]
    );
    assert_eq!(errors, vec!["one".to_owned()]);
    assert_eq!(drain(&rxs[0]), vec![2, 1, 1]);
    assert_eq!((r.metrics.records_in, r.metrics.records_out, r.metrics.errors), (2, 3, 1));
    assert_eq!(r.perform(RunnerStep::Rest, &mut last_tick), (RunnerStep::Rest, None));
    assert_eq!(r.perform(RunnerStep::Halt, &mut last_tick), (RunnerStep::Halt, None));
    r.tick_ms = 1_000_000;
    let idle = RunnerStep::CheckTick { processed_any: false };
    assert_eq!(r.perform(idle, &mut last_tick), (RunnerStep::Rest, None));
    assert!(drain(&rxs[0]).is_empty());
    let (stop, handle) = StopToken::new();
    r.stop = stop;
    handle.stop();
    assert_eq!(r.perform(RunnerStep::CheckStop, &mut last_tick), (RunnerStep::Drain, None));
    assert_eq!(r.perform(RunnerStep::Drain, &mut last_tick), (RunnerStep::Halt, None));
}

#[test]
fn a_stopped_operator_drains_and_halts() {
    let stopped = RunnerStep::CheckStop.next(true);
    assert_eq!(stopped, RunnerStep::Drain);
    assert_eq!(stopped.next(true).next(true), RunnerStep::Drain);
    let halted = stopped.next(true).next(false);
    assert_eq!(halted, RunnerStep::Halt);
    assert_eq!(halted.next(true).next(false), RunnerStep::Halt);
}

#[test]
fn records_left_at_shutdown_are_processed() {
    let (tx, mut r, rxs) = runner(&[8]);
    let (stop, handle) = StopToken::new();
    r.stop = stop;
    for n in [2u32, 5, 1, 2] {
        assert_eq!(tx.send(n, POLICY), Ok(()));
    }
    handle.stop();
    let mut last_tick = Instant::now();
    let mut step = RunnerStep::CheckStop;
    let mut errors = Vec::new();
    while step != RunnerStep::Halt {
        let (next, error) = r.perform(step, &mut last_tick);
        errors.extend(error);
        step = next;
    }
    assert_eq!(drain(&rxs[0]), vec![2, 5, 5, 2]);
    assert_eq!(errors, vec!["one".to_owned()]);
    assert_eq!((r.metrics.records_in, r.metrics.records_out, r.metrics.errors), (4, 4, 1));
    assert_eq!(r.rx.try_recv(), None);
}

#[test]
fn relays_run_until_the_pipe_is_closed() {
    let (tx, rx) = Pipe::new(8).split();
    let (out, next) = Pipe::new(8).split();
    for n in [2u32, 5, 0, 1, 2] {
        assert_eq!(tx.send(n, POLICY), Ok(()));
    }
    drop(tx);
    relay_until_closed(&mut Doubler { ticks: 0 }, &rx, &out, POLICY);
    assert_eq!(drain(&next), vec![2, 2]);

    let (tx, rx) = Pipe::new(8).split();
    for n in [2u32, 5, 0, 1, 2] {
        assert_eq!(tx.send(n, POLICY), Ok(()));
    }
    drop(tx);
    relay_all_until_closed(&mut Doubler { ticks: 0 }, &rx, &out, POLICY);
    assert_eq!(drain(&next), vec![2, 5, 5, 2]);
}

#[test]
fn a_relay_of_single_items_ends_when_nobody_receives_them() {
    for (all, left) in [(false, vec![2u32, 2]), (true, vec![])] {
        let (tx, rx) = Pipe::new(8).split();
        let (out, next) = Pipe::<u32>::new(8).split();
        drop(next);
        for n in [0u32, 2, 2, 2] {
            assert_eq!(tx.send(n, POLICY), Ok(()));
        }
        drop(tx);
        let mut p = Doubler { ticks: 0 };
        if all {
            relay_all_until_closed(&mut p, &rx, &out, POLICY);
        } else {
            relay_until_closed(&mut p, &rx, &out, POLICY);
        }
        assert_eq!(drain(&rx), left);
    }
}

#[test]
fn the_stop_signal_reaches_the_token() {
    let (token, handle) = make_stop_pair();
    assert!(!token.is_stopped());
    handle.stop();
    assert!(token.is_stopped());
    assert!(token.is_stopped());
    assert!(!StopToken::default().is_stopped());
}

#[test]
fn built_in_processors() {
    let mut map = MapProcessor::new(|n: u32| n + 1);
    assert!(matches!(map.process(4), ProcessResult::EmitOne(5)));
    assert!(map.on_tick().is_empty());
    let mut filter = FilterProcessor::new(|n: &u32| *n > 3);
    assert!(matches!(filter.process(4), ProcessResult::EmitOne(4)));
    assert!(matches!(filter.process(3), ProcessResult::Drop));
    let mut seen = 0u32;
    let mut flat = FlatMapProcessor::new(move |n: u32| {
        seen += 1;
        vec![seen; n as usize]
    });
    assert!(matches!(flat.process(0), ProcessResult::Emit(v) if v.is_empty()));
    assert!(matches!(flat.process(2), ProcessResult::Emit(v) if v == vec![2, 2]));
    assert_eq!("copy".to_owned().clone_for_fanout(), "copy");
}

#[test]
fn results_take_the_form_for_their_number() {
    assert!(matches!(pass_on(Vec::<u32>::new()), ProcessResult::Drop));
    assert!(matches!(pass_on(vec![7u32]), ProcessResult::EmitOne(7)));
    assert!(matches!(pass_on(vec![7u32, 8]), ProcessResult::Emit(v) if v == vec![7, 8]));
}

#[test]
fn relays_send_what_comes_out() {
    let (tx, rx) = Pipe::new(4).split();
    let mut p = Doubler { ticks: 0 };
    let sent = relay_one(&mut p, 2, &tx, POLICY).map(|r| r.result());
    assert_eq!(sent, Some(SendResult::Sent));
    assert!(relay_one(&mut p, 5, &tx, POLICY).is_none());
    assert!(relay_one(&mut p, 0, &tx, POLICY).is_none());
    assert_eq!(relay_all(&mut p, 2, &tx, POLICY).len(), 1);
    assert_eq!(relay_all(&mut p, 6, &tx, POLICY).len(), 2);
    assert_eq!(relay_all(&mut p, 1, &tx, POLICY).len(), 0);
    assert_eq!(drain(&rx), vec![2, 2, 6, 6]);
}

#[test]
fn a_report_adds_up() {
    let mut a = OperatorMetrics::new();
    a.record_out();
    a.record_out();
    a.drop_record();
    let mut b = OperatorMetrics::new();
    b.record_out();
    b.record_error();
    let metrics = vec![("a".to_owned(), a), ("b".to_owned(), b)];
    let threads = vec![("a".to_owned(), true), ("b".to_owned(), true)];
    let report = ShutdownReport::new(Duration::from_millis(5), threads, &metrics);
    assert_eq!(report.elapsed, Duration::from_millis(5));
    assert_eq!((report.metrics[0].0.as_str(), report.metrics[1].0.as_str()), ("a", "b"));
    assert_eq!((report.metrics[0].1.records_out, report.metrics[1].1.errors), (2, 1));
    assert!(report.totals_fit());
    assert_eq!(report.total_records_out(), 3);
    assert_eq!(report.total_dropped(), 1);
    assert!(report.all_threads_ok());
}

#[test]
fn a_report_notices_a_failed_thread_and_an_overflow() {
    let mut m = OperatorMetrics::new();
    m.record_out();
    let mut huge = m.snapshot();
    huge.records_out = u64::MAX;
    let report = ShutdownReport {
        elapsed: Duration::from_millis(5),
        thread_results: vec![("a".to_owned(), true), ("b".to_owned(), false)],
        metrics: vec![("a".to_owned(), m.snapshot()), ("b".to_owned(), huge)],
    };
    assert!(!report.totals_fit());
    assert!(!report.all_threads_ok());
    assert_eq!(report.total_dropped(), 0);
}

#[test]
fn waiting_ends_with_the_condition_or_the_deadline() {
    assert_eq!(wait_step(true, true), WaitStep::Done(true));
    assert_eq!(wait_step(false, true), WaitStep::Done(true));
    assert_eq!(wait_step(true, false), WaitStep::Poll);
    assert_eq!(wait_step(false, false), WaitStep::Done(false));
}
