//! Windows of one length that start at regular steps and overlap.
use std::time::Duration;
use vstd::prelude::*;

use crate::time;
use crate::window::buckets::{self, Buckets};
use crate::window::contents::{self, Step};
use crate::window::tumbling;
use crate::window::{Aggregator, TimedRecord, Timestamp, WindowResult};

verus! {

/// The first window that takes a record at `ts`.
pub open spec fn first_start(ts: Timestamp, size: u64, step: u64) -> int {
    if ts >= size {
        tumbling::align_down(ts - size + 1, step as int)
    } else {
        0
    }
}

/// The last window that takes a record at `ts`.
pub open spec fn last_start(ts: Timestamp, step: u64) -> int {
    tumbling::align_down(ts as int, step as int)
}

/// Whether the window that starts at `start` takes a record at `ts`.
///
/// Every window that covers the timestamp does. From one window's length on, the first start is
/// aligned down from `ts - size + 1`; unless that is a step itself, the window there ends at or
/// before the timestamp and takes the record as well. For a length of 200 and a step of 100, a
/// record at 250 goes into `[0, 200)`, `[100, 300)` and `[200, 400)`.
pub open spec fn takes(start: Timestamp, ts: Timestamp, size: u64, step: u64) -> bool {
    &&& start % step == 0
    &&& first_start(ts, size, step) <= start <= last_start(ts, step)
}

/// Whether a record at `ts` is put into the window that starts at `start`: the window covers the
/// timestamp, or it is the one that `ts - size + 1` is aligned down to.
pub open spec fn is_put_into(start: Timestamp, ts: Timestamp, size: u64, step: u64) -> bool {
    &&& start % step == 0
    &&& start <= ts < start + size || (ts >= size && start <= ts - size + 1 < start + step)
}

/// Which timestamps a window takes.
pub open spec fn slides_over(size: u64, step: u64) -> spec_fn(Timestamp, Timestamp) -> bool {
    |start: Timestamp, ts: Timestamp| is_put_into(start, ts, size, step)
}

/// The open windows `m` after one more record in every window that takes a record at `ts`.
pub open spec fn absorbed_all<A: Aggregator>(
    m: Map<Timestamp, (A, u64)>,
    ts: Timestamp,
    size: u64,
    step: u64,
    item: A::Input,
) -> Map<Timestamp, (A, u64)> {
    Map::new(
        |k: Timestamp| m.contains_key(k) || takes(k, ts, size, step),
        |k: Timestamp|
            if takes(k, ts, size, step) {
                buckets::absorbed(m, k, item)[k]
            } else {
                m[k]
            },
    )
}

/// Those of the windows in `absorbed_all` that start below `bound` have taken the record.
spec fn absorbed_below<A: Aggregator>(
    m: Map<Timestamp, (A, u64)>,
    bound: int,
    ts: Timestamp,
    size: u64,
    step: u64,
    item: A::Input,
) -> Map<Timestamp, (A, u64)> {
    Map::new(
        |k: Timestamp| m.contains_key(k) || (k < bound && takes(k, ts, size, step)),
        |k: Timestamp|
            if k < bound && takes(k, ts, size, step) {
                buckets::absorbed(m, k, item)[k]
            } else {
                m[k]
            },
    )
}

/// Multiples of `step` are at least `step` apart.
proof fn lemma_next_multiple(a: int, b: int, step: int)
    requires
        step > 0,
        a % step == 0,
        b % step == 0,
        a < b,
    ensures
        a + step <= b,
        (a + step) % step == 0,
{
    vstd::arithmetic::div_mod::lemma_fundamental_div_mod(a, step);
    vstd::arithmetic::div_mod::lemma_fundamental_div_mod(b, step);
    vstd::arithmetic::div_mod::lemma_mod_add_multiples_vanish(a, step);
    assert(a + step <= b) by (nonlinear_arith)
        requires
            a == step * (a / step),
            b == step * (b / step),
            a < b,
            step > 0,
    ;
}

/// The bounds of the windows that take a record at `ts`.
proof fn lemma_start_bounds(ts: Timestamp, size: u64, step: u64)
    requires
        0 < step <= size,
    ensures
        0 <= first_start(ts, size, step) <= last_start(ts, step) <= ts,
        first_start(ts, size, step) % (step as int) == 0,
        last_start(ts, step) % (step as int) == 0,
        ts < last_start(ts, step) + step,
        ts >= size ==> first_start(ts, size, step) <= ts - size + 1 < first_start(ts, size, step)
            + step,
{
    tumbling::law_one_window_covers(ts, step);
    if ts >= size {
        tumbling::law_one_window_covers((ts - size + 1) as u64, step);
        let f = first_start(ts, size, step);
        let l = last_start(ts, step);
        if l < f {
            lemma_next_multiple(l, f, step as int);
        }
    }
}

/// Windows of one length that start at every multiple of a step and overlap.
pub struct SlidingWindow<A: Aggregator> {
    size_ms: u64,
    step_ms: u64,
    watermark: Timestamp,
    windows: Buckets<A>,
}

impl<A: Aggregator> SlidingWindow<A> {
    /// The length of each window.
    pub closed spec fn size_ms(&self) -> u64 {
        self.size_ms
    }

    /// The distance between the starts of neighbouring windows.
    pub closed spec fn step_ms(&self) -> u64 {
        self.step_ms
    }

    /// The watermark reached so far.
    pub closed spec fn spec_watermark(&self) -> Timestamp {
        self.watermark
    }

    /// The open windows by their start: an accumulator and a record count each.
    pub closed spec fn windows(&self) -> Map<Timestamp, (A, u64)> {
        self.windows@
    }

    /// The step is positive and not above the length, and every open window starts at a multiple
    /// of the step.
    pub open spec fn wf(&self) -> bool {
        &&& 0 < self.step_ms() <= self.size_ms()
        &&& forall|k: Timestamp| #[trigger]
            self.windows().contains_key(k) ==> k % self.step_ms() == 0
    }

    /// Whether these steps lead here: every open window holds exactly the records that are put into
    /// it.
    pub open spec fn follows(&self, steps: Seq<Step<A::Input>>) -> bool {
        contents::follows(
            self.windows(),
            self.spec_watermark(),
            slides_over(self.size_ms(), self.step_ms()),
            self.size_ms(),
            steps,
        )
    }

    /// No window is open and the watermark is zero. Length and step are taken in whole
    /// milliseconds.
    pub fn new(size: Duration, step: Duration) -> (w: Self)
        requires
            0 < time::duration_millis(step) as u64 <= time::duration_millis(size) as u64,
        ensures
            w.wf(),
            w.size_ms() == time::duration_millis(size) as u64,
            w.step_ms() == time::duration_millis(step) as u64,
            w.spec_watermark() == 0,
            w.windows() == Map::<Timestamp, (A, u64)>::empty(),
            w.follows(Seq::empty()),
    {
        SlidingWindow {
            size_ms: size.as_millis() as u64,
            step_ms: step.as_millis() as u64,
            watermark: 0,
            windows: Buckets::new(),
        }
    }

    /// As `new`, for a length and a step that are not known to fit: `None` where the step is
    /// zero or above the length.
    pub fn try_new(size: Duration, step: Duration) -> (w: Option<Self>)
        ensures
            w is Some <==> 0 < time::duration_millis(step) as u64 <= time::duration_millis(
                size,
            ) as u64,
            w matches Some(w) ==> {
                &&& w.wf()
                &&& w.size_ms() == time::duration_millis(size) as u64
                &&& w.step_ms() == time::duration_millis(step) as u64
                &&& w.spec_watermark() == 0
                &&& w.windows() == Map::<Timestamp, (A, u64)>::empty()
                &&& w.follows(Seq::empty())
            },
    {
        let step_ms: u64 = step.as_millis() as u64;
        if step_ms > 0 && step_ms <= size.as_millis() as u64 {
            Some(Self::new(size, step))
        } else {
            None
        }
    }

    /// Puts the record into every window from the first to the last that takes its timestamp:
    /// all that cover it, and at most one before them (see `takes`).
    pub fn add(&mut self, record: &TimedRecord<A::Input>)
        requires
            old(self).wf(),
            forall|k: Timestamp|
                takes(k, record.ts, old(self).size_ms(), old(self).step_ms())
                    ==> #[trigger] buckets::has_room(old(self).windows(), k),
        ensures
            final(self).wf(),
            final(self).size_ms() == old(self).size_ms(),
            final(self).step_ms() == old(self).step_ms(),
            final(self).spec_watermark() == old(self).spec_watermark(),
            final(self).windows() == absorbed_all(
                old(self).windows(),
                record.ts,
                old(self).size_ms(),
                old(self).step_ms(),
                record.data,
            ),
            forall|k: Timestamp|
                k % old(self).step_ms() == 0 && k <= record.ts < k + old(self).size_ms()
                    ==> #[trigger] final(self).windows().contains_key(k) && if old(self)
                    .windows().contains_key(k) {
                    &&& final(self).windows()[k].0 == old(self).windows()[k].0.added(record.data)
                    &&& final(self).windows()[k].1 == old(self).windows()[k].1 + 1
                } else {
                    &&& final(self).windows()[k].0 == A::fresh().added(record.data)
                    &&& final(self).windows()[k].1 == 1
                },
            forall|steps: Seq<Step<A::Input>>| #[trigger]
                old(self).follows(steps) ==> final(self).follows(
                    steps.push(Step::Record(*record)),
                ),
    {
        let ts: Timestamp = record.ts;
        let size: u64 = self.size_ms;
        let step: u64 = self.step_ms;
        proof {
            lemma_start_bounds(ts, size, step);
        }
        let first: u64 = if ts >= size {
            ((ts - size + 1) / step) * step
        } else {
            0
        };
        let last: u64 = (ts / step) * step;
        let ghost before = self.windows();
        let mut start: u64 = first;
        assert(self.windows() =~= absorbed_below(
            before,
            first as int,
            ts,
            size,
            step,
            record.data,
        ));
        loop
            invariant
                self.size_ms == size,
                self.step_ms == step,
                self.watermark == old(self).watermark,
                0 < step <= size,
                ts == record.ts,
                first == first_start(ts, size, step),
                last == last_start(ts, step),
                last % step == 0,
                first <= start <= last,
                start % step == 0,
                before == old(self).windows(),
                old(self).wf(),
                size == old(self).size_ms(),
                step == old(self).step_ms(),
                forall|k: Timestamp|
                    takes(k, ts, size, step) ==> #[trigger] buckets::has_room(before, k),
                self.windows() == absorbed_below(
                    before,
                    start as int,
                    ts,
                    size,
                    step,
                    record.data,
                ),
            decreases last - start,
        {
            let ghost now = self.windows();
            assert(takes(start, ts, size, step));
            assert(buckets::has_room(before, start));
            self.windows.absorb(start, &record.data);
            proof {
                let bound = start + step;
                assert forall|k: Timestamp| takes(k, ts, size, step) && k < bound implies k
                    <= start by {
                    if k > start {
                        lemma_next_multiple(start as int, k as int, step as int);
                    }
                }
                assert(self.windows() =~= absorbed_below(
                    before,
                    bound,
                    ts,
                    size,
                    step,
                    record.data,
                ));
            }
            if last - start < step {
                proof {
                    assert(self.windows() =~= absorbed_all(before, ts, size, step, record.data));
                    law_covering_windows_take_the_record(before, ts, size, step, record.data);
                    assert forall|steps: Seq<Step<A::Input>>| #[trigger]
                        old(self).follows(steps) implies self.follows(
                        steps.push(Step::Record(*record)),
                    ) by {
                        let put = slides_over(size, step);
                        assert forall|k: Timestamp| #[trigger] put(k, ts) implies {
                            let now = self.windows();
                            &&& now.contains_key(k)
                            &&& before.contains_key(k) ==> now[k].0 == before[k].0.added(
                                record.data,
                            ) && now[k].1 == before[k].1 + 1
                            &&& !before.contains_key(k) ==> now[k].0 == A::fresh().added(
                                record.data,
                            ) && now[k].1 == 1
                        } by {
                            let now = self.windows();
                            assert(now.contains_key(k) || !now.contains_key(k));
                        }
                        contents::law_record_is_collected(
                            before,
                            self.windows(),
                            self.watermark,
                            slides_over(size, step),
                            size,
                            steps,
                            *record,
                        );
                    }
                }
                return ;
            }
            proof {
                lemma_next_multiple(start as int, last as int, step as int);
            }
            start = start + step;
        }
    }

    /// Advances the watermark, which never goes back, and returns the windows whose end it has
    /// reached, by ascending start.
    pub fn advance_watermark(&mut self, wm: Timestamp) -> (closed: Vec<WindowResult<A::Output>>)
        ensures
            old(self).wf() ==> final(self).wf(),
            final(self).size_ms() == old(self).size_ms(),
            final(self).step_ms() == old(self).step_ms(),
            final(self).spec_watermark() == if wm > old(self).spec_watermark() {
                wm
            } else {
                old(self).spec_watermark()
            },
            buckets::lists_ended(
                closed@,
                old(self).windows(),
                old(self).size_ms(),
                final(self).spec_watermark(),
            ),
            final(self).windows() == buckets::still_open(
                old(self).windows(),
                old(self).size_ms(),
                final(self).spec_watermark(),
            ),
            forall|steps: Seq<Step<A::Input>>| #[trigger]
                old(self).follows(steps) ==> {
                    &&& final(self).follows(steps.push(Step::Watermark(wm)))
                    &&& contents::closes::<A>(
                        closed@,
                        final(self).spec_watermark(),
                        slides_over(old(self).size_ms(), old(self).step_ms()),
                        old(self).size_ms(),
                        steps,
                    )
                },
    {
        if wm > self.watermark {
            self.watermark = wm;
        }
        let closed = self.windows.close_ended(self.size_ms, self.watermark);
        assert(forall|k: Timestamp| #[trigger]
            self.windows().contains_key(k) ==> old(self).windows().contains_key(k));
        proof {
            assert forall|steps: Seq<Step<A::Input>>| #[trigger] old(self).follows(steps) implies {
                &&& self.follows(steps.push(Step::Watermark(wm)))
                &&& contents::closes::<A>(
                    closed@,
                    self.watermark,
                    slides_over(self.size_ms, self.step_ms),
                    self.size_ms,
                    steps,
                )
            } by {
                contents::law_watermark_closes(
                    old(self).windows(),
                    self.windows(),
                    closed@,
                    old(self).watermark,
                    wm,
                    slides_over(self.size_ms, self.step_ms),
                    self.size_ms,
                    steps,
                );
            }
        }
        closed
    }
}

/// Every window that covers the timestamp of a record is open once the record is there, has added
/// it to what it had accumulated before, or to nothing, and counts one more. So does the window
/// that `ts - size + 1` is aligned down to, where there is one. Every other window is as it was.
pub proof fn law_covering_windows_take_the_record<A: Aggregator>(
    m: Map<Timestamp, (A, u64)>,
    ts: Timestamp,
    size: u64,
    step: u64,
    item: A::Input,
)
    requires
        0 < step <= size,
        forall|k: Timestamp| takes(k, ts, size, step) ==> #[trigger] buckets::has_room(m, k),
    ensures
        ({
            let after = absorbed_all(m, ts, size, step, item);
            &&& forall|k: Timestamp|
                k % step == 0 && (k <= ts < k + size || (ts >= size && k <= ts - size + 1 < k
                    + step)) ==> #[trigger] after.contains_key(k) && if m.contains_key(k) {
                    after[k].0 == m[k].0.added(item) && after[k].1 == m[k].1 + 1
                } else {
                    after[k].0 == A::fresh().added(item) && after[k].1 == 1
                }
            &&& forall|k: Timestamp|
                !(k % step == 0 && (k <= ts < k + size || (ts >= size && k <= ts - size + 1 < k
                    + step))) ==> (#[trigger] after.contains_key(k) <==> m.contains_key(k)) && (
                m.contains_key(k) ==> after[k] == m[k])
        }),
{
    let after = absorbed_all(m, ts, size, step, item);
    assert forall|k: Timestamp| is_put_into(k, ts, size, step) implies {
        &&& #[trigger] after.contains_key(k)
        &&& m.contains_key(k) ==> after[k].0 == m[k].0.added(item) && after[k].1 == m[k].1 + 1
        &&& !m.contains_key(k) ==> after[k].0 == A::fresh().added(item) && after[k].1 == 1
    } by {
        lemma_takes(k, ts, size, step);
        assert(buckets::has_room(m, k));
        assert(after[k] == buckets::absorbed(m, k, item)[k]);
    }
    assert forall|k: Timestamp| !is_put_into(k, ts, size, step) implies {
        &&& #[trigger] after.contains_key(k) <==> m.contains_key(k)
        &&& m.contains_key(k) ==> after[k] == m[k]
    } by {
        lemma_takes(k, ts, size, step);
    }
}

proof fn lemma_takes(start: Timestamp, ts: Timestamp, size: u64, step: u64)
    requires
        0 < step <= size,
    ensures
        takes(start, ts, size, step) <==> is_put_into(start, ts, size, step),
{
    lemma_start_bounds(ts, size, step);
    let (f, l) = (first_start(ts, size, step), last_start(ts, step));
    if start % step == 0 {
        if start <= ts < start + size {
            law_every_covering_window_takes(start, ts, size, step);
        }
        if takes(start, ts, size, step) && f < start {
            law_later_windows_cover(start, ts, size, step);
        }
        if ts >= size && start <= ts - size + 1 < start + step {
            if f < start {
                lemma_next_multiple(f, start as int, step as int);
            } else if start < f {
                lemma_next_multiple(start as int, f, step as int);
            }
        }
    }
}

/// A record is put into every window that covers its timestamp: every `[start, start + size)`
/// with `start` a multiple of the step.
pub proof fn law_every_covering_window_takes(
    start: Timestamp,
    ts: Timestamp,
    size: u64,
    step: u64,
)
    requires
        0 < step <= size,
        start % step == 0,
        start <= ts < start + size,
    ensures
        takes(start, ts, size, step),
{
    lemma_start_bounds(ts, size, step);
    let l = last_start(ts, step);
    if start > l {
        lemma_next_multiple(l, start as int, step as int);
    }
}

/// Of the windows that a record is put into, all but the first cover its timestamp, and the
/// first covers it as well where the timestamp is below the length or the earliest covering
/// start is a multiple of the step.
pub proof fn law_later_windows_cover(start: Timestamp, ts: Timestamp, size: u64, step: u64)
    requires
        0 < step <= size,
        takes(start, ts, size, step),
        start > first_start(ts, size, step) || ts < size || (ts - size + 1) % (step as int) == 0,
    ensures
        start <= ts < start + size,
{
    lemma_start_bounds(ts, size, step);
    let f = first_start(ts, size, step);
    if ts >= size {
        if start > f {
            lemma_next_multiple(f, start as int, step as int);
        } else {
            vstd::arithmetic::div_mod::lemma_fundamental_div_mod(ts - size + 1, step as int);
            vstd::arithmetic::mul::lemma_mul_is_commutative(
                step as int,
                (ts - size + 1) / (step as int),
            );
        }
    }
}

} // verus!
