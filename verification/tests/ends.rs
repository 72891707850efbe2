use streamline::channel::{BackpressurePolicy, Pipe, SendResult};
use streamline::metrics::OperatorMetrics;
use streamline::operator::StopToken;
use streamline::sinks::{look, CollectSink, CountSink, Look, OnStop, PrintSink, SinkStep};
use streamline::sources::{BurstSource, RateLimitedSource, Schedule, SourceEnd, SourceStep};

const POLICY: BackpressurePolicy = BackpressurePolicy::Drop;

#[test]
fn a_burst_sends_all_its_records_in_order() {
    let (tx, rx) = Pipe::new(16).split();
    let (stop, _handle) = StopToken::new();
    let mut m = OperatorMetrics::new();
    let source = BurstSource { generator: |seq: u64| seq * 10, max_records: 5 };
    assert_eq!(source.run(tx, &mut m, stop, POLICY), SourceEnd::Exhausted);
    let got: Vec<u64> = (0..5).map(|_| rx.recv().unwrap()).collect();
    assert_eq!(got, vec![0, 10, 20, 30, 40]);
    assert_eq!(rx.recv(), None);
    assert_eq!((m.records_out, m.records_dropped), (5, 0));
}

#[test]
fn a_burst_counts_what_it_drops() {
    let (tx, rx) = Pipe::new(2).split();
    let (stop, _handle) = StopToken::new();
    let mut m = OperatorMetrics::new();
    let source = BurstSource { generator: |seq: u64| seq, max_records: 5 };
    assert_eq!(source.run(tx, &mut m, stop, POLICY), SourceEnd::Exhausted);
    assert_eq!((m.records_out, m.records_dropped), (2, 3));
    assert_eq!(rx.recv(), Some(0));
}

#[test]
fn a_burst_stops_early() {
    let (tx, rx) = Pipe::new(2).split();
    let (stop, handle) = StopToken::new();
    handle.stop();
    let mut m = OperatorMetrics::new();
    let source = BurstSource { generator: |seq: u64| seq, max_records: 5 };
    assert_eq!(source.run(tx, &mut m, stop, POLICY), SourceEnd::Stopped);
    assert_eq!(m.records_out, 0);
    drop(rx);

    let (tx, rx) = Pipe::new(2).split();
    drop(rx);
    let (stop, _handle) = StopToken::new();
    let source = BurstSource { generator: |seq: u64| seq, max_records: 5 };
    assert_eq!(source.run(tx, &mut m, stop, POLICY), SourceEnd::Disconnected);
    assert_eq!((m.records_out, m.records_dropped), (0, 0));
}

#[test]
fn a_burst_sends_record_by_record() {
    let (tx, rx) = Pipe::new(1).split();
    let mut m = OperatorMetrics::new();
    let mut source = BurstSource { generator: |seq: u64| seq + 7, max_records: 5 };
    let (receipt, end) = source.send_next(3, &tx, &mut m, POLICY);
    assert_eq!((receipt.result(), end), (SendResult::Sent, None));
    let (receipt, end) = source.send_next(4, &tx, &mut m, POLICY);
    assert_eq!((receipt.result(), end), (SendResult::Dropped, None));
    assert_eq!(rx.recv(), Some(10));
    drop(rx);
    let (receipt, end) = source.send_next(4, &tx, &mut m, POLICY);
    assert_eq!(receipt.result(), SendResult::Disconnected);
    assert_eq!(end, Some(SourceEnd::Disconnected));
    assert_eq!((m.records_out, m.records_dropped), (1, 1));
}

#[test]
fn the_interval_follows_the_rate() {
    assert_eq!(Schedule::new(1, None).interval_ns, 1_000_000_000);
    assert_eq!(Schedule::new(0, None).interval_ns, 1_000_000_000);
    assert_eq!(Schedule::new(3, None).interval_ns, 333_333_333);
    assert_eq!(Schedule::new(2_000_000_000, None).interval_ns, 0);
}

#[test]
fn records_are_sent_when_they_are_due() {
    let mut s = Schedule::new(1000, Some(2));
    assert_eq!(s.step(false, 0), SourceStep::Send);
    s.advance();
    assert_eq!(s.step(false, 400_000), SourceStep::Sleep { nanos: 600_000 });
    assert_eq!(s.step(false, 1_000_000), SourceStep::Send);
    s.advance();
    assert_eq!(s.step(false, 5_000_000), SourceStep::Halt(SourceEnd::Exhausted));
    assert_eq!(s.step(true, 0), SourceStep::Halt(SourceEnd::Stopped));
    assert_eq!((s.seq, s.next_ns), (2, 2_000_000));
}

#[test]
fn a_rate_limited_source_moves_on_with_every_record() {
    let (tx, rx) = Pipe::new(1).split();
    let mut m = OperatorMetrics::new();
    let mut source =
        RateLimitedSource { generator: |seq: u64| seq + 100, rate_per_sec: 10, max_records: None };
    let mut s = source.schedule();
    let (receipt, end) = source.send_next(&mut s, &tx, &mut m, POLICY);
    assert_eq!((receipt.result(), end), (SendResult::Sent, None));
    let (receipt, end) = source.send_next(&mut s, &tx, &mut m, POLICY);
    assert_eq!((receipt.result(), end), (SendResult::Dropped, None));
    assert_eq!((s.seq, s.next_ns), (2, 200_000_000));
    assert_eq!(rx.recv(), Some(100));
    drop(rx);
    let (receipt, end) = source.send_next(&mut s, &tx, &mut m, POLICY);
    assert_eq!(receipt.result(), SendResult::Disconnected);
    assert_eq!(end, Some(SourceEnd::Disconnected));
    assert_eq!(s.seq, 2);
    assert_eq!((m.records_out, m.records_dropped), (1, 1));
}

#[test]
fn sinks_keep_count_and_show() {
    let mut m = OperatorMetrics::new();
    let mut collect = CollectSink::new();
    collect.accept("a", &mut m);
    collect.accept("b", &mut m);
    assert_eq!(collect.collected, vec!["a", "b"]);
    let mut count = CountSink::default();
    count.accept(&mut m);
    assert_eq!(count.count, 1);
    let print = PrintSink::<u32>::new("out");
    assert_eq!(print.accept("17", &mut m), "out: 17");
    assert_eq!(m.records_in, 4);
    assert!(CollectSink::<u32>::default().collected.is_empty());
    assert_eq!(CountSink::new().count, 0);
}

#[test]
fn a_stopped_sink_drains_what_is_left() {
    let (tx, rx) = Pipe::new(8).split();
    for i in 0..3u32 {
        assert_eq!(tx.send(i, POLICY), Ok(()));
    }
    let mut m = OperatorMetrics::new();
    let mut sink = CollectSink::new();
    let mut step = SinkStep::CheckStop;
    while step != SinkStep::Halt {
        let yes = match step {
            SinkStep::CheckStop => true,
            SinkStep::Wait => unreachable!(),
            SinkStep::Drain => match rx.try_recv() {
                Some(item) => {
                    sink.accept(item, &mut m);
                    true
                }
                None => false,
            },
            SinkStep::Halt => false,
        };
        step = step.next(yes, OnStop::Drain);
    }
    assert_eq!(sink.collected, vec![0, 1, 2]);
    assert_eq!(m.records_in, 3);
}

#[test]
fn a_sink_runs_until_it_is_stopped() {
    let (tx, rx) = Pipe::new(8).split();
    for i in 0..3u32 {
        assert_eq!(tx.send(i, POLICY), Ok(()));
    }
    let (stop, handle) = StopToken::new();
    handle.stop();
    let mut m = OperatorMetrics::new();
    assert_eq!(CollectSink::new().run(rx, &mut m, stop).collected, vec![0, 1, 2]);
    assert_eq!(m.records_in, 3);

    let (tx, rx) = Pipe::new(8).split();
    for i in 0..2u32 {
        assert_eq!(tx.send(i, POLICY), Ok(()));
    }
    let (stop, handle) = StopToken::new();
    handle.stop();
    assert_eq!(CountSink { count: 5 }.run(rx, &mut m, stop).count, 7);
    assert_eq!(m.records_in, 5);
}

#[test]
fn a_look_finds_records_where_the_step_takes_them() {
    let (tx, rx) = Pipe::new(8).split();
    let (stop, handle) = StopToken::new();
    assert!(matches!(look(SinkStep::CheckStop, &rx, &stop), Look::No));
    assert!(matches!(look(SinkStep::Wait, &rx, &stop), Look::No));
    assert_eq!(tx.send(1u32, POLICY), Ok(()));
    assert_eq!(tx.send(2u32, POLICY), Ok(()));
    assert!(matches!(look(SinkStep::Halt, &rx, &stop), Look::No));
    assert!(matches!(look(SinkStep::Wait, &rx, &stop), Look::Record(1)));
    assert!(look(SinkStep::Drain, &rx, &stop).is_yes());
    assert!(!look(SinkStep::Drain, &rx, &stop).is_yes());
    handle.stop();
    assert!(matches!(look(SinkStep::CheckStop, &rx, &stop), Look::Yes));
}

#[test]
fn a_sink_that_leaves_records_halts_at_once() {
    assert_eq!(SinkStep::CheckStop.next(true, OnStop::Leave), SinkStep::Halt);
    assert_eq!(SinkStep::CheckStop.next(false, OnStop::Leave), SinkStep::Wait);
    assert_eq!(SinkStep::Wait.next(true, OnStop::Leave), SinkStep::CheckStop);
    assert_eq!(SinkStep::Wait.next(false, OnStop::Drain), SinkStep::CheckStop);
    assert_eq!(SinkStep::Halt.next(true, OnStop::Drain), SinkStep::Halt);
}
