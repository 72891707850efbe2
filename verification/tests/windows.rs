use std::time::Duration;

use streamline::window::{
    Aggregator, SessionWindow, SlidingWindow, TimedRecord, TumblingWindow, WindowResult,
};

#[derive(Clone)]
struct SumAggregator {
    sum: f64,
}

impl Aggregator for SumAggregator {
    type Input = f64;
    type Output = f64;

    fn fresh() -> Self {
        Self::new_accumulator()
    }

    fn added(self, item: f64) -> Self {
        SumAggregator { sum: self.sum + item }
    }

    fn merged(self, other: Self) -> Self {
        SumAggregator { sum: self.sum + other.sum }
    }

    fn emitted(self) -> f64 {
        self.sum
    }

    fn new_accumulator() -> Self {
        SumAggregator { sum: 0.0 }
    }

    fn add(&mut self, item: &f64) {
        self.sum += *item;
    }

    fn merge(&mut self, other: &Self) {
        self.sum += other.sum;
    }

    fn emit(&self) -> f64 {
        self.sum
    }
}

fn ms(n: u64) -> Duration {
    Duration::from_millis(n)
}

fn at(ts: u64) -> TimedRecord<f64> {
    TimedRecord { ts, data: 1.0 }
}

fn spans(closed: &Vec<WindowResult<f64>>) -> Vec<(u64, u64, u64)> {
    closed.iter().map(|w| (w.start_ms, w.end_ms, w.count)).collect()
}

#[test]
fn tumbling_window_closes_on_watermark() {
    let mut w: TumblingWindow<SumAggregator> = TumblingWindow::new(Duration::from_millis(1000));

    for ts in [100u64, 200, 300, 500, 900] {
        w.add(&TimedRecord { ts, data: 1.0 });
    }
    // Advance watermark past end of window [0, 1000)
    let closed = w.advance_watermark(1100);
    assert_eq!(closed.len(), 1, "exactly one window should close");
    assert_eq!(closed[0].count, 5);
    assert!((closed[0].aggregate - 5.0).abs() < 1e-9);
}

#[test]
fn sliding_window_overlaps_correctly() {
    let mut w: SlidingWindow<SumAggregator> = SlidingWindow::new(
        Duration::from_millis(200),
        Duration::from_millis(100),
    );

    // Add events at t=150
    w.add(&TimedRecord { ts: 150, data: 1.0 });
    let closed = w.advance_watermark(400);
    // Windows covering ts=150: [0,200) and [100,300)
    // Both should be closed by wm=400
    assert!(closed.len() >= 1, "at least one window should close");
    assert_eq!(spans(&closed), vec![(0, 200, 1), (100, 300, 1)]);
}

#[test]
fn session_window_groups_close_events() {
    let mut w: SessionWindow<SumAggregator> = SessionWindow::new(Duration::from_millis(500));

    // Events within 500ms gap: same session
    for ts in [100u64, 200, 400, 700] {
        w.add(&TimedRecord { ts, data: 1.0 });
    }
    assert_eq!(w.open_sessions(), 1, "all events within gap: one session");

    // Event far in the future: new session
    w.add(&TimedRecord { ts: 2000, data: 1.0 });
    assert_eq!(w.open_sessions(), 2);

    let closed = w.advance_watermark(3000);
    assert_eq!(closed.len(), 2, "both sessions should close at wm=3000");
}

#[test]
fn tumbling_bounds_are_half_open() {
    let mut w: TumblingWindow<SumAggregator> = TumblingWindow::new(ms(1000));
    w.add(&at(999));
    w.add(&at(1000));
    assert_eq!(w.open_windows(), 2);
    assert!(w.advance_watermark(999).is_empty());
    assert_eq!(spans(&w.advance_watermark(1000)), vec![(0, 1000, 1)]);
    assert_eq!(w.open_windows(), 1);
}

#[test]
fn tumbling_watermark_never_goes_back() {
    let mut w: TumblingWindow<SumAggregator> = TumblingWindow::new(ms(10));
    w.advance_watermark(50);
    w.advance_watermark(20);
    assert_eq!(w.watermark(), 50);
    // A late record opens its window again, which closes at once.
    w.add(&at(5));
    assert_eq!(spans(&w.advance_watermark(0)), vec![(0, 10, 1)]);
}

#[test]
fn tumbling_closes_in_ascending_order_and_loses_nothing() {
    let mut w: TumblingWindow<SumAggregator> = TumblingWindow::new(ms(10));
    for ts in [35u64, 1, 22, 2, 39, 15] {
        w.add(&at(ts));
    }
    let closed = w.advance_watermark(30);
    assert_eq!(spans(&closed), vec![(0, 10, 2), (10, 20, 1), (20, 30, 1)]);
    assert_eq!(w.open_windows(), 1);
    assert!(w.advance_watermark(30).is_empty());
    assert_eq!(spans(&w.advance_watermark(100)), vec![(30, 40, 2)]);
}

#[test]
fn tumbling_closing_in_steps_closes_the_same() {
    let mut a: TumblingWindow<SumAggregator> = TumblingWindow::new(ms(7));
    let mut b: TumblingWindow<SumAggregator> = TumblingWindow::new(ms(7));
    for ts in 0..60u64 {
        a.add(&at(ts * 3 % 50));
        b.add(&at(ts * 3 % 50));
    }
    let mut stepwise = spans(&a.advance_watermark(20));
    stepwise.extend(spans(&a.advance_watermark(56)));
    assert_eq!(stepwise, spans(&b.advance_watermark(56)));
    assert_eq!(stepwise.iter().map(|s| s.2).sum::<u64>(), 60);
}

#[test]
fn tumbling_windows_at_the_end_of_time_stay_open() {
    let mut w: TumblingWindow<SumAggregator> = TumblingWindow::new(ms(1000));
    w.add(&at(u64::MAX));
    assert!(w.advance_watermark(u64::MAX).is_empty());
    assert_eq!(w.open_windows(), 1);
}

#[test]
fn sliding_record_before_the_first_full_window() {
    let mut w: SlidingWindow<SumAggregator> = SlidingWindow::new(ms(300), ms(100));
    w.add(&at(250));
    assert_eq!(
        spans(&w.advance_watermark(1000)),
        vec![(0, 300, 1), (100, 400, 1), (200, 500, 1)]
    );
}

#[test]
fn sliding_takes_every_aligned_start_down_to_the_first() {
    let mut w: SlidingWindow<SumAggregator> = SlidingWindow::new(ms(200), ms(100));
    w.add(&at(250));
    assert_eq!(
        spans(&w.advance_watermark(1000)),
        vec![(0, 200, 1), (100, 300, 1), (200, 400, 1)]
    );
}

#[test]
fn sliding_with_step_as_long_as_the_window() {
    let mut w: SlidingWindow<SumAggregator> = SlidingWindow::new(ms(100), ms(100));
    w.add(&at(99));
    w.add(&at(199));
    assert_eq!(spans(&w.advance_watermark(200)), vec![(0, 100, 1), (100, 200, 2 - 1)]);
}

#[test]
fn sliding_refuses_a_step_of_zero_or_above_the_window() {
    assert!(SlidingWindow::<SumAggregator>::try_new(ms(100), ms(0)).is_none());
    assert!(SlidingWindow::<SumAggregator>::try_new(ms(100), ms(101)).is_none());
    assert!(SlidingWindow::<SumAggregator>::try_new(ms(100), ms(100)).is_some());
}

#[test]
fn session_gap_is_inclusive() {
    let mut w: SessionWindow<SumAggregator> = SessionWindow::new(ms(500));
    w.add(&at(1000));
    w.add(&at(1500));
    assert_eq!(w.open_sessions(), 1);
    w.add(&at(2001));
    assert_eq!(w.open_sessions(), 2);
    w.add(&at(499));
    assert_eq!(w.open_sessions(), 3);
}

#[test]
fn session_record_between_two_sessions_joins_them() {
    let mut w: SessionWindow<SumAggregator> = SessionWindow::new(ms(100));
    w.add(&at(0));
    w.add(&at(200));
    assert_eq!(w.open_sessions(), 2);
    w.add(&at(100));
    assert_eq!(w.open_sessions(), 1);
    let closed = w.advance_watermark(300);
    assert_eq!(spans(&closed), vec![(0, 300, 3)]);
    assert!((closed[0].aggregate - 3.0).abs() < 1e-9);
}

#[test]
fn session_stays_open_until_the_gap_has_passed() {
    let mut w: SessionWindow<SumAggregator> = SessionWindow::new(ms(100));
    w.add(&at(50));
    assert!(w.advance_watermark(149).is_empty());
    assert_eq!(spans(&w.advance_watermark(150)), vec![(50, 150, 1)]);
    assert_eq!(w.open_sessions(), 0);
}
