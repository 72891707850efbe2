//! Alerts on windows of requests that look wrong.
use vstd::prelude::*;

use crate::channel::PipeReceiver;
use crate::ieee;
use crate::operator::relay::MAX_RECORDS;
use crate::operator::{self, Process, ProcessResult};

verus! {

/// The statistics of one endpoint over one window. All but the counts and the end of the window
/// are the bits of double-precision numbers.
#[derive(Clone, Copy, Debug)]
pub struct WindowedStats {
    pub endpoint: &'static str,
    pub window_end: u64,
    pub mean_ms: u64,
    pub std_ms: u64,
    pub min_ms: u64,
    pub max_ms: u64,
    pub count: u64,
    pub error_rate: u64,
    /// The error rate times a hundred.
    pub error_percent: u64,
}

/// Something that looks wrong in a window.
#[derive(Clone, Copy, Debug)]
pub struct Alert {
    pub kind: &'static str,
    pub endpoint: &'static str,
    /// What was measured: milliseconds or, for an error rate, percent. The bits of a
    /// double-precision number.
    pub value: u64,
    pub window_end: u64,
    pub sample_n: u64,
}

/// Raises alerts on high latency, many errors and latency spikes. The limits are the bits of
/// double-precision numbers.
#[derive(Clone, Copy, Debug)]
pub struct AnomalyDetector {
    /// Above this a latency is high.
    pub lat_threshold: u64,
    /// A quarter of it.
    pub lat_quarter: u64,
    /// Half of it.
    pub lat_half: u64,
    /// Five times it.
    pub lat_five_times: u64,
    /// Above this an error rate is high.
    pub err_threshold: u64,
}

/// The fewest requests of which the statistics are reliable.
pub const MIN_SAMPLES: u64 = 3;

impl AnomalyDetector {
    /// The mean is high, and so is the least, so that no single spike explains it.
    pub open spec fn sees_high_latency(&self, s: WindowedStats) -> bool {
        ieee::double_exceeds(s.mean_ms, self.lat_threshold) && ieee::double_exceeds(
            s.min_ms,
            self.lat_quarter,
        )
    }

    pub open spec fn sees_many_errors(&self, s: WindowedStats) -> bool {
        ieee::double_exceeds(s.error_rate, self.err_threshold)
    }

    /// The greatest is far too high, and the spread is high, so that it is no single outlier in a
    /// huge window.
    pub open spec fn sees_spike(&self, s: WindowedStats) -> bool {
        ieee::double_exceeds(s.max_ms, self.lat_five_times) && ieee::double_exceeds(
            s.std_ms,
            self.lat_half,
        )
    }

    /// The alerts that a window gives rise to.
    pub open spec fn alerts(&self, s: WindowedStats) -> Seq<Alert> {
        let none = Seq::<Alert>::empty();
        if s.count < MIN_SAMPLES {
            none
        } else {
            (if self.sees_high_latency(s) {
                seq![alert_on("HIGH_LATENCY", s, s.mean_ms)]
            } else {
                none
            }) + (if self.sees_many_errors(s) {
                seq![alert_on("HIGH_ERROR_RATE", s, s.error_percent)]
            } else {
                none
            }) + (if self.sees_spike(s) {
                seq![alert_on("LATENCY_SPIKE", s, s.max_ms)]
            } else {
                none
            })
        }
    }
}

impl AnomalyDetector {
    /// Whether the limits belong to the latency threshold: they are exactly a quarter of it, half
    /// of it and five times it. They are computed in floating point, where the last one is rounded
    /// if it has too many digits; thresholds in whole milliseconds have far fewer.
    pub open spec fn limits_belong(&self) -> bool {
        let whole = ieee::double_value(self.lat_threshold);
        &&& !ieee::double_is_nan(self.lat_threshold)
        &&& !ieee::double_is_nan(self.lat_quarter)
        &&& !ieee::double_is_nan(self.lat_half)
        &&& !ieee::double_is_nan(self.lat_five_times)
        &&& 4 * ieee::double_value(self.lat_quarter) == whole
        &&& 2 * ieee::double_value(self.lat_half) == whole
        &&& ieee::double_value(self.lat_five_times) == 5 * whole
    }
}

/// With limits that belong to the threshold, and measures that are numbers, what raises an alert
/// can be told from the threshold alone: a mean above it with the least above a quarter of it, an
/// error rate above its own threshold, and the greatest above five times it with a spread above
/// half of it.
pub proof fn law_alerts_follow_the_threshold(d: AnomalyDetector, s: WindowedStats)
    requires
        d.limits_belong(),
        !ieee::double_is_nan(s.mean_ms),
        !ieee::double_is_nan(s.std_ms),
        !ieee::double_is_nan(s.min_ms),
        !ieee::double_is_nan(s.max_ms),
    ensures
        ({
            let whole = ieee::double_value(d.lat_threshold);
            &&& d.sees_high_latency(s) <==> ieee::double_value(s.mean_ms) > whole && 4
                * ieee::double_value(s.min_ms) > whole
            &&& d.sees_spike(s) <==> ieee::double_value(s.max_ms) > 5 * whole && 2
                * ieee::double_value(s.std_ms) > whole
            &&& d.sees_many_errors(s) <==> ieee::double_exceeds(s.error_rate, d.err_threshold)
        }),
{
}

/// An alert of that kind on a window.
pub open spec fn alert_on(kind: &'static str, s: WindowedStats, value: u64) -> Alert {
    Alert { kind, endpoint: s.endpoint, value, window_end: s.window_end, sample_n: s.count }
}

impl Process for AnomalyDetector {
    type Input = WindowedStats;

    type Output = Alert;

    open spec fn accepts(&self, s: WindowedStats) -> bool {
        true
    }

    /// Passes on the alerts on the window.
    open spec fn answers(&self, s: WindowedStats, r: ProcessResult<Alert>, after: &Self) -> bool {
        after == self && operator::passes_on(r, self.alerts(s))
    }

    fn process(&mut self, s: WindowedStats) -> (r: ProcessResult<Alert>) {
        let mut alerts: Vec<Alert> = Vec::new();
        if s.count >= MIN_SAMPLES {
            if ieee::exceeds_double(s.mean_ms, self.lat_threshold) && ieee::exceeds_double(
                s.min_ms,
                self.lat_quarter,
            ) {
                alerts.push(new_alert("HIGH_LATENCY", &s, s.mean_ms));
            }
            if ieee::exceeds_double(s.error_rate, self.err_threshold) {
                alerts.push(new_alert("HIGH_ERROR_RATE", &s, s.error_percent));
            }
            if ieee::exceeds_double(s.max_ms, self.lat_five_times) && ieee::exceeds_double(
                s.std_ms,
                self.lat_half,
            ) {
                alerts.push(new_alert("LATENCY_SPIKE", &s, s.max_ms));
            }
        }
        assert(alerts@ =~= self.alerts(s));
        operator::pass_on(alerts)
    }
}

fn new_alert(kind: &'static str, s: &WindowedStats, value: u64) -> (a: Alert)
    ensures
        a == alert_on(kind, *s, value),
{
    Alert { kind, endpoint: s.endpoint, value, window_end: s.window_end, sample_n: s.count }
}

/// A window gives rise to at most three alerts, all of them on it; one with too few requests to
/// none; and a measure that is no number raises no alert on its own.
pub proof fn law_alerts_are_on_the_window(d: AnomalyDetector, s: WindowedStats)
    ensures
        d.alerts(s).len() <= 3,
        s.count < MIN_SAMPLES ==> d.alerts(s).len() == 0,
        forall|i: int|
            0 <= i < d.alerts(s).len() ==> {
                let a = #[trigger] d.alerts(s)[i];
                &&& a.endpoint == s.endpoint
                &&& a.window_end == s.window_end
                &&& a.sample_n == s.count
            },
        ieee::double_is_nan(s.mean_ms) ==> !d.sees_high_latency(s),
        ieee::double_is_nan(s.error_rate) ==> !d.sees_many_errors(s),
        ieee::double_is_nan(s.max_ms) ==> !d.sees_spike(s),
{
}

/// Of a window of at least three requests, each sort of alert is passed on exactly if what it
/// stands for was measured, whatever else was measured:
/// - high latency with the mean, if the mean is above the threshold and the least latency above a
///   quarter of it;
/// - a high error rate with the percentage, if the rate is above its threshold;
/// - a spike with the greatest latency, if that is above five times the threshold and the spread
///   above half of it.
///
/// Nothing else is passed on, no sort comes twice, and they come in this order. Of a smaller window
/// nothing is passed on. The detector is left as it was.
pub proof fn law_each_alert_has_its_own_cause(
    d: AnomalyDetector,
    s: WindowedStats,
    r: ProcessResult<Alert>,
    after: AnomalyDetector,
)
    requires
        d.answers(s, r, &after),
    ensures
        after == d,
        !(r is Error),
        r is Drop <==> r.emitted().len() == 0,
        r is EmitOne <==> r.emitted().len() == 1,
        s.count < 3 ==> r.emitted().len() == 0,
        s.count >= 3 ==> {
            &&& (exists|i: int|
                0 <= i < r.emitted().len() && (#[trigger] r.emitted()[i]).kind@ == "HIGH_LATENCY"@
                    && r.emitted()[i].value == s.mean_ms) <==> ieee::double_exceeds(
                s.mean_ms,
                d.lat_threshold,
            ) && ieee::double_exceeds(s.min_ms, d.lat_quarter)
            &&& (exists|i: int|
                0 <= i < r.emitted().len() && (#[trigger] r.emitted()[i]).kind@
                    == "HIGH_ERROR_RATE"@ && r.emitted()[i].value == s.error_percent)
                <==> ieee::double_exceeds(s.error_rate, d.err_threshold)
            &&& (exists|i: int|
                0 <= i < r.emitted().len() && (#[trigger] r.emitted()[i]).kind@ == "LATENCY_SPIKE"@
                    && r.emitted()[i].value == s.max_ms) <==> ieee::double_exceeds(
                s.max_ms,
                d.lat_five_times,
            ) && ieee::double_exceeds(s.std_ms, d.lat_half)
        },
        forall|i: int|
            0 <= i < r.emitted().len() ==> {
                let a = #[trigger] r.emitted()[i];
                &&& a.endpoint == s.endpoint
                &&& a.window_end == s.window_end
                &&& a.sample_n == s.count
                &&& a.kind@ == "HIGH_LATENCY"@ || a.kind@ == "HIGH_ERROR_RATE"@ || a.kind@
                    == "LATENCY_SPIKE"@
                &&& a.kind@ == "HIGH_LATENCY"@ ==> a.value == s.mean_ms && i == 0
                &&& a.kind@ == "HIGH_ERROR_RATE"@ ==> a.value == s.error_percent
                &&& a.kind@ == "LATENCY_SPIKE"@ ==> a.value == s.max_ms && i == r.emitted().len()
                    - 1
            },
        forall|i: int, j: int|
            0 <= i < j < r.emitted().len() ==> (#[trigger] r.emitted()[i]).kind@ != (
            #[trigger] r.emitted()[j]).kind@,
{
    reveal_strlit("HIGH_LATENCY");
    reveal_strlit("HIGH_ERROR_RATE");
    reveal_strlit("LATENCY_SPIKE");
    let alerts = d.alerts(s);
    assert(r.emitted() =~= alerts);
    assert("HIGH_LATENCY"@.len() == 12 && "HIGH_ERROR_RATE"@.len() == 15
        && "LATENCY_SPIKE"@.len() == 13);
    if s.count >= 3 {
        if d.sees_high_latency(s) {
            assert(alerts[0].kind@ == "HIGH_LATENCY"@);
        }
        if d.sees_many_errors(s) {
            let i: int = if d.sees_high_latency(s) {
                1
            } else {
                0
            };
            assert(alerts[i].kind@ == "HIGH_ERROR_RATE"@);
        }
        if d.sees_spike(s) {
            assert(alerts[alerts.len() - 1].kind@ == "LATENCY_SPIKE"@);
        }
    }
}

/// The number of alerts whose samples are kept.
pub const MAX_SAMPLES: usize = 5;

/// Counts alerts and keeps the first few.
pub struct AlertSink {
    pub count: u64,
    pub samples: Vec<Alert>,
}

/// Whether a sink has taken exactly these alerts.
pub open spec fn has_taken(sink: AlertSink, alerts: Seq<Alert>) -> bool {
    &&& sink.count == alerts.len()
    &&& sink.samples@ == alerts.take(
        if alerts.len() < MAX_SAMPLES {
            alerts.len() as int
        } else {
            MAX_SAMPLES as int
        },
    )
}

/// The samples kept after more alerts: the first ones of all.
pub open spec fn kept(samples: Seq<Alert>, alerts: Seq<Alert>) -> Seq<Alert> {
    let all = samples + alerts;
    if samples.len() >= MAX_SAMPLES {
        samples
    } else if all.len() < MAX_SAMPLES {
        all
    } else {
        all.take(MAX_SAMPLES as int)
    }
}

impl AlertSink {
    pub fn new() -> (sink: Self)
        ensures
            has_taken(sink, Seq::empty()),
    {
        let sink = AlertSink { count: 0, samples: Vec::new() };
        assert(sink.samples@ =~= Seq::<Alert>::empty().take(0));
        sink
    }

    /// Takes one more alert. The count wraps around at its upper end.
    pub fn take(&mut self, alert: Alert)
        ensures
            final(self).count == old(self).count.wrapping_add(1),
            final(self).samples@ == if old(self).samples@.len() < MAX_SAMPLES {
                old(self).samples@.push(alert)
            } else {
                old(self).samples@
            },
    {
        self.count = self.count.wrapping_add(1);
        if self.samples.len() < MAX_SAMPLES {
            self.samples.push(alert);
        }
    }

    /// Takes the alerts of a pipe until none can come any more.
    pub fn run(&mut self, rx: &PipeReceiver<Alert>)
        ensures
            exists|alerts: Seq<Alert>|
                {
                    &&& forall|i: int|
                        0 <= i < alerts.len() ==> rx.hands_out(Some(#[trigger] alerts[i]))
                    &&& rx.hands_out(None) || alerts.len() == MAX_RECORDS
                    &&& final(self).count == (old(self).count + alerts.len())
                        % 0x1_0000_0000_0000_0000
                    &&& final(self).samples@ == #[trigger] kept(old(self).samples@, alerts)
                },
    {
        let ghost mut alerts: Seq<Alert> = Seq::empty();
        let mut taken: u64 = 0;
        assert(self.samples@ + alerts =~= self.samples@);
        while taken < MAX_RECORDS
            invariant
                taken == alerts.len(),
                forall|i: int| 0 <= i < alerts.len() ==> rx.hands_out(Some(#[trigger] alerts[i])),
                self.count == (old(self).count + alerts.len()) % 0x1_0000_0000_0000_0000,
                self.samples@ == kept(old(self).samples@, alerts),
            decreases MAX_RECORDS - taken,
        {
            match rx.recv() {
                Some(alert) => {
                    proof {
                        alerts = alerts.push(alert);
                    }
                    self.take(alert);
                    assert(self.samples@ =~= kept(old(self).samples@, alerts));
                },
                None => {
                    return;
                },
            }
            taken = taken + 1;
        }
    }
}

/// A sink that takes alerts one by one counts them all and keeps the first of them.
pub proof fn law_keeps_the_first(
    before: AlertSink,
    after: AlertSink,
    alerts: Seq<Alert>,
    alert: Alert,
)
    requires
        has_taken(before, alerts),
        alerts.len() < u64::MAX,
        after.count == before.count.wrapping_add(1),
        after.samples@ == if before.samples@.len() < MAX_SAMPLES {
            before.samples@.push(alert)
        } else {
            before.samples@
        },
    ensures
        has_taken(after, alerts.push(alert)),
{
    let all = alerts.push(alert);
    if all.len() <= MAX_SAMPLES {
        assert(alerts.take(alerts.len() as int) =~= alerts);
        assert(all.take(all.len() as int) =~= all);
    } else {
        assert(all.take(MAX_SAMPLES as int) =~= alerts.take(MAX_SAMPLES as int));
    }
}

/// A sink that had no more than its five samples has five after more alerts, or as many as there
/// were, and they are the first of all in order.
pub proof fn law_samples_are_the_first(samples: Seq<Alert>, alerts: Seq<Alert>, i: int)
    requires
        samples.len() <= 5,
    ensures
        ({
            let (now, all) = (kept(samples, alerts), samples + alerts);
            &&& now.len() == if all.len() < 5 {
                all.len()
            } else {
                5
            }
            &&& 0 <= i < now.len() ==> now[i] == all[i]
        }),
{
}

} // verus!
