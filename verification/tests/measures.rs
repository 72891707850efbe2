use std::time::Duration;

use streamline::channel::SendResult;
use streamline::metrics::{LatencyHistogram, OperatorMetrics, Ratio, TimedScope};

#[test]
fn counters_count() {
    let mut m = OperatorMetrics::new();
    m.record_in();
    m.record_in();
    m.record_out();
    m.drop_record();
    m.record_error();
    m.add_processing_ns(3000);
    let s = m.snapshot();
    assert_eq!((s.records_in, s.records_out, s.records_dropped), (2, 1, 1));
    assert_eq!((s.errors, s.processing_ns), (1, 3000));
}

#[test]
fn outcomes_are_counted_once_each() {
    let mut m = OperatorMetrics::default();
    for outcome in [SendResult::Sent, SendResult::Dropped, SendResult::Sent, SendResult::Disconnected] {
        m.record_outcome(outcome);
    }
    assert_eq!((m.records_out, m.records_dropped), (2, 1));
    assert_eq!((m.records_in, m.errors, m.processing_ns), (0, 0, 0));
}

#[test]
fn counters_wrap_around() {
    let mut m = OperatorMetrics::new();
    m.add_processing_ns(u64::MAX);
    m.add_processing_ns(2);
    assert_eq!(m.processing_ns, 1);
}

#[test]
fn rates_are_exact() {
    let mut m = OperatorMetrics::new();
    for _ in 0..3 {
        m.record_out();
    }
    m.record_in();
    m.drop_record();
    m.add_processing_ns(6000);
    let s = m.snapshot();
    let r = s.throughput_per_sec(Duration::from_millis(1500));
    assert_eq!(r, Ratio { num: 3_000_000_000, den: 1_500_000_000 });
    let r = s.avg_latency_us();
    assert_eq!(r, Ratio { num: 6000, den: 3000 });
    assert_eq!(s.drop_rate(), Ratio { num: 1, den: 2 });
}

#[test]
fn rates_of_nothing_are_zero() {
    let s = OperatorMetrics::new().snapshot();
    let zero = Ratio { num: 0, den: 1 };
    assert_eq!(s.throughput_per_sec(Duration::from_nanos(0)), zero);
    assert_eq!(s.avg_latency_us(), zero);
    assert_eq!(s.drop_rate(), zero);
}

#[test]
fn latencies_fall_into_buckets_that_double() {
    for (ns, floor) in [(0u64, 0u64), (1, 1), (2, 2), (3, 2), (4, 4), (1023, 512), (1024, 1024)] {
        let mut h = LatencyHistogram::new();
        h.record(Duration::from_nanos(ns));
        assert_eq!(h.percentile(1), Duration::from_nanos(floor), "{} ns", ns);
    }
    let mut h = LatencyHistogram::new();
    h.record(Duration::from_nanos(u64::MAX));
    assert_eq!(h.percentile(1), Duration::from_nanos(1 << 30));
}

#[test]
fn percentiles_are_ordered() {
    let mut h = LatencyHistogram::new();
    for ns in [1u64, 1, 1, 100, 100, 5000, 5000, 5000, 5000, 1 << 40] {
        h.record(Duration::from_nanos(ns));
    }
    assert_eq!(h.count(), 10);
    let ranks: Vec<u64> = (0..=10).map(|t| h.percentile(t).as_nanos() as u64).collect();
    assert_eq!(ranks, vec![0, 1, 1, 1, 64, 64, 4096, 4096, 4096, 4096, 1 << 30]);
    assert_eq!(h.percentile(11), Duration::from_nanos(1 << 30));
}

#[test]
fn the_mean_is_in_whole_nanoseconds() {
    let mut h = LatencyHistogram::default();
    assert_eq!(h.mean(), Duration::from_nanos(0));
    assert_eq!(h.percentile(1), Duration::from_nanos(0));
    h.record(Duration::from_nanos(10));
    h.record(Duration::from_nanos(11));
    assert_eq!(h.mean(), Duration::from_nanos(10));
}

#[test]
fn a_scope_records_its_time_once() {
    let mut h = LatencyHistogram::new();
    TimedScope::new(&mut h).finish();
    assert_eq!(h.count(), 1);
}

#[test]
fn a_percentile_is_the_floor_of_the_bucket_of_its_rank() {
    let mut latencies: Vec<u64> = vec![700, 3, 0, 90, 90, 12, 5000, 1, 64, 33];
    let mut h = LatencyHistogram::new();
    for ns in &latencies {
        h.record(Duration::from_nanos(*ns));
    }
    assert_eq!(h.mean(), Duration::from_nanos(latencies.iter().sum::<u64>() / 10));
    latencies.sort();
    for (i, ns) in latencies.iter().enumerate() {
        let floor = if *ns == 0 { 0 } else { 1u64 << (63 - ns.leading_zeros()) };
        assert_eq!(h.percentile(i as u64 + 1), Duration::from_nanos(floor), "{} ns", ns);
    }
}

#[test]
fn ranks_hold_where_the_sum_wraps_around() {
    let mut h = LatencyHistogram::new();
    for ns in [u64::MAX, 3, u64::MAX] {
        h.record(Duration::from_nanos(ns));
    }
    assert_eq!(h.percentile(1), Duration::from_nanos(2));
    assert_eq!(h.percentile(2), Duration::from_nanos(1 << 30));
    assert_eq!(h.count(), 3);
    assert_eq!(h.mean(), Duration::from_nanos(0));
}
