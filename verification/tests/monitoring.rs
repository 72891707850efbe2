use rand::rngs::StdRng;
use rand::{Rng, SeedableRng};
use streamline::channel::{BackpressurePolicy, Pipe, SendResult, DEFAULT_CAPACITY};
use streamline::ieee::{exceeds_double, exceeds_single};
use streamline::monitor::detector::AlertSink;
use streamline::monitor::generator::{
    base_ms, draft_event, draw_status, endpoint, status_of, EventDraft, ENDPOINT_COUNT,
};
use streamline::monitor::report::{flag, summarize, EventFlag, TrafficProfile};
use streamline::monitor::stats::EndpointWindow;
use streamline::monitor::{
    Alert, AnomalyDetector, EndpointStats, HealthFilter, RequestEvent, ValidEvent, Validator,
    WindowedStats,
};
use streamline::operator::{relay_all, relay_one, Process, ProcessResult};
use streamline::window::Aggregator;

fn show(bits: u32) -> String {
    f32::from_bits(bits).to_string()
}

fn event(ts_ms: u64, endpoint: &'static str, status: u16, latency_ms: f32) -> RequestEvent {
    RequestEvent { ts_ms, endpoint, status, latency_bits: latency_ms.to_bits() }
}

fn detector(lat: f64, err: f64) -> AnomalyDetector {
    AnomalyDetector {
        lat_threshold: lat.to_bits(),
        lat_quarter: (lat * 0.25).to_bits(),
        lat_half: (lat * 0.5).to_bits(),
        lat_five_times: (lat * 5.0).to_bits(),
        err_threshold: err.to_bits(),
    }
}

/// mean, std, min, max
fn window(endpoint: &'static str, ms: [f64; 4], count: u64, error_rate: f64) -> WindowedStats {
    WindowedStats {
        endpoint,
        window_end: 1000,
        mean_ms: ms[0].to_bits(),
        std_ms: ms[1].to_bits(),
        min_ms: ms[2].to_bits(),
        max_ms: ms[3].to_bits(),
        count,
        error_rate: error_rate.to_bits(),
        error_percent: (error_rate * 100.0).to_bits(),
    }
}

#[test]
fn validator_rejects_negative_latency() {
    let ev = event(0, "/api/v1/users", 200, -1.0);
    match (Validator { show }).process(ev) {
        ProcessResult::Error(e) => assert_eq!(e, "invalid latency -1"),
        _ => panic!("should error on negative latency"),
    }
}

#[test]
fn validator_accepts_valid_event() {
    let ev = event(0, "/api/v1/users", 200, 42.0);
    match (Validator { show }).process(ev) {
        ProcessResult::EmitOne(v) => assert_eq!(v.0.latency_bits, 42.0f32.to_bits()),
        _ => panic!("should accept valid event"),
    }
}

#[test]
fn validator_limits() {
    let valid = |ms: f32| {
        matches!((Validator { show }).process(event(0, "/", 200, ms)), ProcessResult::EmitOne(_))
    };
    assert!(valid(0.0));
    assert!(valid(-0.0));
    assert!(valid(60_000.0));
    assert!(valid(f32::NAN));
    assert!(!valid(60_000.004));
    assert!(!valid(f32::INFINITY));
    assert!(!valid(f32::NEG_INFINITY));
    assert!(!valid(-f32::from_bits(1)));
}

#[test]
fn health_filter_drops_health_endpoint() {
    let ev = event(0, "/health", 200, 1.0);
    match (HealthFilter).process(ValidEvent(ev)) {
        ProcessResult::Drop => {}
        _ => panic!("should drop /health"),
    }
    let ev = event(0, "/metrics", 200, 1.0);
    assert!(matches!((HealthFilter).process(ValidEvent(ev)), ProcessResult::Drop));
}

#[test]
fn health_filter_passes_api_endpoint() {
    let ev = event(0, "/api/v1/users", 200, 10.0);
    match (HealthFilter).process(ValidEvent(ev)) {
        ProcessResult::EmitOne(v) => assert_eq!(v.0.endpoint, "/api/v1/users"),
        _ => panic!("should pass /api/v1/users"),
    }
}

#[test]
fn anomaly_detector_fires_on_high_latency() {
    let mut proc = detector(100.0, 0.5);
    let s = window("/api/v1/search", [250.0, 20.0, 200.0, 300.0], 10, 0.05);
    match proc.process(s) {
        ProcessResult::EmitOne(a) => {
            assert_eq!(a.kind, "HIGH_LATENCY");
            assert_eq!(a.sample_n, 10);
            assert_eq!(a.window_end, 1000);
            assert_eq!(f64::from_bits(a.value), 250.0);
        }
        _ => panic!("should emit HIGH_LATENCY alert"),
    }
}

#[test]
fn anomaly_detector_drops_normal_window() {
    let mut proc = detector(500.0, 0.5);
    let s = window("/api/v1/users", [15.0, 3.0, 5.0, 40.0], 100, 0.02);
    match proc.process(s) {
        ProcessResult::Drop => {}
        _ => panic!("should drop normal window"),
    }
}

#[test]
fn anomaly_detector_ignores_small_windows() {
    let mut proc = detector(100.0, 0.5);
    assert!(matches!(proc.process(window("/", [999.0; 4], 2, 1.0)), ProcessResult::Drop));
    assert!(!matches!(proc.process(window("/", [999.0; 4], 3, 1.0)), ProcessResult::Drop));
}

#[test]
fn anomaly_detector_raises_all_alerts_in_order() {
    let mut proc = detector(100.0, 0.5);
    match proc.process(window("/x", [250.0, 60.0, 30.0, 501.0], 4, 0.75)) {
        ProcessResult::Emit(alerts) => {
            let kinds: Vec<&str> = alerts.iter().map(|a| a.kind).collect();
            assert_eq!(kinds, vec!["HIGH_LATENCY", "HIGH_ERROR_RATE", "LATENCY_SPIKE"]);
            let values: Vec<f64> = alerts.iter().map(|a| f64::from_bits(a.value)).collect();
            assert_eq!(values, vec![250.0, 75.0, 501.0]);
            assert!(alerts.iter().all(|a| a.endpoint == "/x" && a.sample_n == 4));
        }
        _ => panic!("should emit three alerts"),
    }
}

#[test]
fn anomaly_detector_needs_more_than_the_limits() {
    let mut proc = detector(100.0, 0.5);
    assert!(matches!(proc.process(window("/", [100.0, 50.0, 25.0, 500.0], 9, 0.5)), ProcessResult::Drop));
    // A single spike explains neither the mean nor the spread.
    assert!(matches!(proc.process(window("/", [250.0, 50.0, 25.0, 900.0], 9, 0.5)), ProcessResult::Drop));
    assert!(matches!(proc.process(window("/", [f64::NAN; 4], 9, f64::NAN)), ProcessResult::Drop));
}

#[test]
fn the_sink_keeps_the_first_alerts() {
    let mut sink = AlertSink::new();
    for n in 0..8u64 {
        sink.take(Alert { kind: "HIGH_LATENCY", endpoint: "/", value: 0, window_end: n, sample_n: 3 });
    }
    assert_eq!(sink.count, 8);
    let kept: Vec<u64> = sink.samples.iter().map(|a| a.window_end).collect();
    assert_eq!(kept, vec![0, 1, 2, 3, 4]);
}

#[test]
fn the_sink_runs_until_the_pipe_is_closed() {
    let (tx, rx) = Pipe::new(8).split();
    for n in 0..7u64 {
        let alert = Alert { kind: "HIGH_LATENCY", endpoint: "/", value: 0, window_end: n, sample_n: 3 };
        assert!(tx.send(alert, BackpressurePolicy::Drop).is_ok());
    }
    drop(tx);
    let mut sink = AlertSink::new();
    sink.run(&rx);
    assert_eq!(sink.count, 7);
    let kept: Vec<u64> = sink.samples.iter().map(|a| a.window_end).collect();
    assert_eq!(kept, vec![0, 1, 2, 3, 4]);
}

#[test]
fn every_request_is_counted_in_one_window() {
    let mut stats: EndpointStats<Latencies> = EndpointStats::new(100);
    let (mut returned, mut latest) = (0u64, 0u64);
    let mut times = Vec::new();
    for i in 0..500u64 {
        let ts = i * 37 % 901 + i;
        let ep = if i % 3 == 0 { "/b" } else { "/a" };
        let r = stats.process(ValidEvent(event(ts, ep, 200, 1.0)));
        if ep == "/a" {
            times.push(ts);
            latest = latest.max(ts);
            let windows = match r {
                ProcessResult::Emit(ws) => ws,
                ProcessResult::EmitOne(w) => vec![w],
                _ => Vec::new(),
            };
            for w in &windows {
                assert!(w.endpoint == "/a" && w.count >= 1 && w.window_end % 100 == 0);
                returned += w.count;
            }
            let ended = times.iter().filter(|t| (**t / 100 + 1) * 100 <= latest.saturating_sub(50));
            assert_eq!(returned, ended.count() as u64);
        }
    }
}

#[test]
fn bits_compare_as_the_numbers_do() {
    let singles = [
        f32::NEG_INFINITY, f32::MIN, -1.5, -1.0, -f32::MIN_POSITIVE, -0.0, 0.0, f32::from_bits(1),
        f32::MIN_POSITIVE, 0.5, 1.0, 1.0000001, 2.0, 60_000.0, f32::MAX, f32::INFINITY, f32::NAN,
        -f32::NAN,
    ];
    for a in singles {
        for b in singles {
            assert_eq!(exceeds_single(a.to_bits(), b.to_bits()), a > b, "{} > {}", a, b);
            let (x, y) = (a as f64, b as f64);
            assert_eq!(exceeds_double(x.to_bits(), y.to_bits()), x > y, "{} > {}", x, y);
        }
    }
}

/// The sum of latencies, and the least and greatest of them.
#[derive(Clone)]
struct Latencies(Vec<f64>);

impl Aggregator for Latencies {
    type Input = u32;
    type Output = Vec<f64>;

    fn fresh() -> Self {
        Latencies(Vec::new())
    }

    fn added(self, item: u32) -> Self {
        let mut all = self;
        all.add(&item);
        all
    }

    fn merged(self, other: Self) -> Self {
        let mut all = self;
        all.merge(&other);
        all
    }

    fn emitted(self) -> Vec<f64> {
        self.0
    }

    fn new_accumulator() -> Self {
        Self::fresh()
    }

    fn add(&mut self, item: &u32) {
        self.0.push(f32::from_bits(*item) as f64);
    }

    fn merge(&mut self, other: &Self) {
        self.0.extend(&other.0);
    }

    fn emit(&self) -> Vec<f64> {
        self.0.clone()
    }
}

#[test]
fn endpoints_have_windows_of_their_own() {
    let mut stats: EndpointStats<Latencies> = EndpointStats::new(100);
    let mut feed = |ts, ep, status, ms| stats.process(ValidEvent(event(ts, ep, status, ms)));
    assert!(matches!(feed(10, "/a", 200, 1.0), ProcessResult::Drop));
    assert!(matches!(feed(20, "/b", 500, 2.0), ProcessResult::Drop));
    assert!(matches!(feed(99, "/a", 404, 3.0), ProcessResult::Drop));
    // The watermark stays fifty milliseconds behind.
    assert!(matches!(feed(149, "/a", 200, 4.0), ProcessResult::Drop));
    match feed(150, "/a", 200, 5.0) {
        ProcessResult::EmitOne(w) => {
            assert_eq!((w.endpoint, w.window_end, w.count), ("/a", 100, 2));
            assert_eq!(w.aggregate, vec![1.0, 3.0]);
            assert_eq!((w.errors, w.total), (1, 4));
        }
        _ => panic!("should close the first window of /a"),
    }
    match feed(1000, "/b", 200, 6.0) {
        ProcessResult::EmitOne(w) => {
            assert_eq!((w.endpoint, w.window_end, w.count), ("/b", 100, 1));
            assert_eq!((w.errors, w.total), (1, 2));
        }
        _ => panic!("should close the first window of /b"),
    }
}

#[test]
fn several_windows_close_in_order() {
    let mut stats: EndpointStats<Latencies> = EndpointStats::new(10);
    for ts in [0u64, 25, 11] {
        let r = stats.process(ValidEvent(event(ts, "/a", 200, 1.0)));
        assert!(matches!(r, ProcessResult::Drop));
    }
    match stats.process(ValidEvent(event(500, "/a", 200, 1.0))) {
        ProcessResult::Emit(ws) => {
            let ends: Vec<u64> = ws.iter().map(|w| w.window_end).collect();
            assert_eq!(ends, vec![10, 20, 30]);
        }
        _ => panic!("should close three windows"),
    }
}

fn float_stats(w: EndpointWindow<Vec<f64>>) -> WindowedStats {
    let n = w.aggregate.len() as f64;
    let mean = w.aggregate.iter().sum::<f64>() / n;
    let var = w.aggregate.iter().map(|x| (x - mean) * (x - mean)).sum::<f64>() / (n - 1.0).max(1.0);
    let min = w.aggregate.iter().copied().fold(f64::INFINITY, f64::min);
    let max = w.aggregate.iter().copied().fold(f64::NEG_INFINITY, f64::max);
    let rate = w.errors as f64 / w.total as f64;
    let mut s = window(w.endpoint, [mean, var.sqrt(), min, max], w.count, rate);
    s.window_end = w.window_end;
    s
}

fn gen_event(seq: u64, rng: &mut StdRng) -> RequestEvent {
    let draft = draft_event(seq, rng);
    let (lo, hi) = draft.factor_halves();
    let factor = rng.gen_range(lo as f32 * 0.5..hi as f32 * 0.5);
    let latency = draft.base_ms as f32 * factor;
    draft.finish(latency.to_bits(), draw_status(rng))
}

fn run_pipeline(n_events: u64, seed: u64, anomaly: AnomalyDetector) -> (u64, Vec<Alert>) {
    let policy = BackpressurePolicy::Drop;
    let (valid_tx, valid_rx) = Pipe::<ValidEvent>::new(DEFAULT_CAPACITY).split();
    let (filter_tx, filter_rx) = Pipe::<ValidEvent>::new(DEFAULT_CAPACITY).split();
    let (window_tx, window_rx) = Pipe::<EndpointWindow<Vec<f64>>>::new(DEFAULT_CAPACITY).split();
    let (alert_tx, alert_rx) = Pipe::<Alert>::new(DEFAULT_CAPACITY).split();
    let mut validator = Validator { show };
    let mut stats: EndpointStats<Latencies> = EndpointStats::new(1000);
    let mut anomaly = anomaly;
    let mut sink = AlertSink::new();
    let mut rng = StdRng::seed_from_u64(seed);
    for i in 0..n_events {
        let ev = gen_event(i, &mut rng);
        if let Some(r) = relay_one(&mut validator, ev, &valid_tx, policy) {
            assert_eq!(r.result(), SendResult::Sent);
        }
        while let Some(ev) = valid_rx.try_recv() {
            relay_one(&mut HealthFilter, ev, &filter_tx, policy);
        }
        while let Some(ev) = filter_rx.try_recv() {
            relay_all(&mut stats, ev, &window_tx, policy);
        }
        while let Some(w) = window_rx.try_recv() {
            relay_all(&mut anomaly, float_stats(w), &alert_tx, policy);
        }
        while let Some(alert) = alert_rx.try_recv() {
            sink.take(alert);
        }
    }
    (sink.count, sink.samples)
}

#[test]
fn pipeline_deterministic() {
    let (a1, s1) = run_pipeline(10_000, 42, detector(200.0, 0.1));
    let (a2, s2) = run_pipeline(10_000, 42, detector(200.0, 0.1));
    assert_eq!(a1, a2, "same seed must produce same alert count");
    assert_eq!(format!("{:?}", s1), format!("{:?}", s2));
}

#[test]
fn lower_limits_give_the_same_alerts_each_time() {
    let (a1, s1) = run_pipeline(10_000, 42, detector(50.0, 0.05));
    let (a2, s2) = run_pipeline(10_000, 42, detector(50.0, 0.05));
    assert!(a1 > 0);
    assert_eq!(a1, a2);
    assert_eq!(format!("{:?}", s1), format!("{:?}", s2));
}

#[test]
fn requests_are_drawn_as_described() {
    let mut rng = StdRng::seed_from_u64(7);
    let (mut slow, mut failed) = (0, 0);
    let mut hits = vec![0u32; ENDPOINT_COUNT];
    for seq in 0..20_000u64 {
        let d = draft_event(seq, &mut rng);
        assert_eq!(d.ts_ms, seq);
        let i = (0..ENDPOINT_COUNT).find(|i| endpoint(*i) == d.endpoint).unwrap();
        assert_eq!(d.base_ms, base_ms(d.endpoint));
        hits[i] += 1;
        slow += d.slow as u32;
        let status = draw_status(&mut rng);
        assert!(status == 200 || status == 404 || status == 500);
        failed += (status != 200) as u32;
        let (low, high) = d.factor_halves();
        assert!(0 < d.base_ms * low && d.base_ms * low < d.base_ms * high);
        assert!(d.base_ms * high <= 120_000);
    }
    assert!(hits.iter().all(|h| *h > 2000));
    assert!(slow > 200 && slow < 700, "{}", slow);
    assert!(failed > 1000 && failed < 2200, "{}", failed);
}

#[test]
fn requests_are_drawn_from_the_same_stream_as_with_probabilities() {
    let mut ours = StdRng::seed_from_u64(42);
    let mut theirs = StdRng::seed_from_u64(42);
    for seq in 0..5_000u64 {
        let e = gen_event(seq, &mut ours);
        let ep = endpoint(theirs.gen_range(0..ENDPOINT_COUNT));
        let base = base_ms(ep) as f32;
        let lat = if theirs.gen_bool(0.02) {
            base * theirs.gen_range(5.0..20.0_f32)
        } else {
            base * theirs.gen_range(0.5..2.0_f32)
        };
        let status = if theirs.gen_bool(0.03) {
            500
        } else if theirs.gen_bool(0.05) {
            404
        } else {
            200
        };
        assert_eq!((e.endpoint, e.latency_bits, e.status), (ep, lat.to_bits(), status));
    }
}

#[test]
fn drafts_and_statuses() {
    let names: Vec<&str> = (0..ENDPOINT_COUNT).map(endpoint).collect();
    assert_eq!(
        names,
        vec![
            "/api/v1/users", "/api/v1/orders", "/api/v1/products", "/api/v1/search",
            "/api/v1/cart", "/health", "/metrics",
        ]
    );
    let bases: Vec<u32> = names.iter().map(|n| base_ms(n)).collect();
    assert_eq!(bases, vec![15, 50, 30, 80, 15, 15, 15]);
    assert_eq!(EventDraft::new(3, 3, true).factor_halves(), (10, 40));
    assert_eq!(EventDraft::new(3, 3, false).factor_halves(), (1, 4));
    assert_eq!((status_of(true, true), status_of(false, true), status_of(false, false)), (500, 404, 200));
}

#[test]
fn flags_name_what_stands_out() {
    assert_eq!(flag(&event(0, "/", 503, 900.0)), EventFlag::ServerError);
    assert_eq!(flag(&event(0, "/", 499, 900.0)), EventFlag::ClientError);
    assert_eq!(flag(&event(0, "/", 200, 500.1)), EventFlag::Spike);
    assert_eq!(flag(&event(0, "/", 200, 500.0)), EventFlag::Plain);
}

#[test]
fn a_profile_counts_and_ranks() {
    let mut p = TrafficProfile::new();
    for (ep, status, ms) in [
        ("/a", 200, 1.0), ("/health", 200, 201.0), ("/b", 404, 200.0), ("/b", 500, 300.0),
        ("/metrics", 200, 1.0), ("/b", 399, 1.0), ("/a", 200, 1.0),
    ] {
        p.add(&event(0, ep, status, ms));
    }
    assert_eq!((p.errors, p.high_latency, p.health), (2, 2, 2));
    assert_eq!(p.ranked(), vec![("/b", 3), ("/a", 2), ("/health", 1), ("/metrics", 1)]);
}

#[test]
fn a_series_is_summed_up() {
    assert!(summarize(&vec![]).is_none());
    let s = summarize(&vec![5, 2, 9, 2]).unwrap();
    assert_eq!((s.min, s.max, s.total), (2, 9, 18));
    let s = summarize(&vec![u64::MAX, u64::MAX]).unwrap();
    assert_eq!(s.total, 2 * u64::MAX as u128);
}
