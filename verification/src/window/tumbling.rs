//! Windows of one length, side by side.
use std::time::Duration;
use vstd::prelude::*;

use crate::time;
use crate::window::buckets::{self, Buckets};
use crate::window::contents::{self, Step};
use crate::window::{Aggregator, TimedRecord, Timestamp, WindowResult};

verus! {

/// The largest multiple of `step` that is not above `ts`.
pub open spec fn align_down(ts: int, step: int) -> int {
    (ts / step) * step
}

/// Which timestamps a window takes: those that it covers, if it starts at a multiple of the length.
pub open spec fn covers(size: u64) -> spec_fn(Timestamp, Timestamp) -> bool {
    |start: Timestamp, ts: Timestamp| start % size == 0 && start <= ts < start + size
}

/// Windows of one length, side by side: every timestamp lies in exactly one of them.
pub struct TumblingWindow<A: Aggregator> {
    size_ms: u64,
    watermark: Timestamp,
    buckets: Buckets<A>,
}

impl<A: Aggregator> TumblingWindow<A> {
    /// The length of each window.
    pub closed spec fn size_ms(&self) -> u64 {
        self.size_ms
    }

    /// The watermark reached so far.
    pub closed spec fn spec_watermark(&self) -> Timestamp {
        self.watermark
    }

    /// The open windows by their start: an accumulator and a record count each.
    pub closed spec fn windows(&self) -> Map<Timestamp, (A, u64)> {
        self.buckets@
    }

    /// Every open window starts at a multiple of the length.
    pub open spec fn wf(&self) -> bool {
        forall|k: Timestamp| #[trigger]
            self.windows().contains_key(k) ==> self.size_ms() > 0 && k % self.size_ms() == 0
    }

    /// Whether these steps lead here: every open window holds exactly the records that it covers.
    pub open spec fn follows(&self, steps: Seq<Step<A::Input>>) -> bool {
        contents::follows(
            self.windows(),
            self.spec_watermark(),
            covers(self.size_ms()),
            self.size_ms(),
            steps,
        )
    }

    /// No window is open and the watermark is zero. The length is taken in whole milliseconds.
    pub fn new(size: Duration) -> (w: Self)
        ensures
            w.wf(),
            w.follows(Seq::empty()),
            w.size_ms() == time::duration_millis(size) as u64,
            w.spec_watermark() == 0,
            w.windows() == Map::<Timestamp, (A, u64)>::empty(),
    {
        TumblingWindow {
            size_ms: size.as_millis() as u64,
            watermark: 0,
            buckets: Buckets::new(),
        }
    }

    /// Puts the record into the window that its timestamp lies in.
    pub fn add(&mut self, record: &TimedRecord<A::Input>)
        requires
            old(self).size_ms() > 0,
            buckets::has_room(
                old(self).windows(),
                align_down(record.ts as int, old(self).size_ms() as int) as u64,
            ),
        ensures
            old(self).wf() ==> final(self).wf(),
            final(self).size_ms() == old(self).size_ms(),
            final(self).spec_watermark() == old(self).spec_watermark(),
            final(self).windows() == buckets::absorbed(
                old(self).windows(),
                align_down(record.ts as int, old(self).size_ms() as int) as u64,
                record.data,
            ),
            forall|steps: Seq<Step<A::Input>>| #[trigger]
                old(self).follows(steps) ==> final(self).follows(
                    steps.push(Step::Record(*record)),
                ),
    {
        proof {
            law_one_window_covers(record.ts, self.size_ms);
        }
        let bucket: u64 = (record.ts / self.size_ms) * self.size_ms;
        self.buckets.absorb(bucket, &record.data);
        proof {
            law_covering_window_takes_the_record(
                old(self).windows(),
                record.ts,
                self.size_ms,
                record.data,
            );
            assert forall|steps: Seq<Step<A::Input>>| #[trigger]
                old(self).follows(steps) implies self.follows(
                steps.push(Step::Record(*record)),
            ) by {
                contents::law_record_is_collected(
                    old(self).windows(),
                    self.windows(),
                    self.watermark,
                    covers(self.size_ms),
                    self.size_ms,
                    steps,
                    *record,
                );
            }
        }
    }

    /// Advances the watermark, which never goes back, and returns the windows whose end it has
    /// reached, by ascending start.
    pub fn advance_watermark(&mut self, wm: Timestamp) -> (closed: Vec<WindowResult<A::Output>>)
        ensures
            old(self).wf() ==> final(self).wf(),
            final(self).size_ms() == old(self).size_ms(),
            final(self).spec_watermark() == if wm > old(self).spec_watermark() {
                wm
            } else {
                old(self).spec_watermark()
            },
            buckets::lists_ended(
                closed@,
                old(self).windows(),
                old(self).size_ms(),
                final(self).spec_watermark(),
            ),
            final(self).windows() == buckets::still_open(
                old(self).windows(),
                old(self).size_ms(),
                final(self).spec_watermark(),
            ),
            forall|steps: Seq<Step<A::Input>>| #[trigger]
                old(self).follows(steps) ==> {
                    &&& final(self).follows(steps.push(Step::Watermark(wm)))
                    &&& contents::closes::<A>(
                        closed@,
                        final(self).spec_watermark(),
                        covers(old(self).size_ms()),
                        old(self).size_ms(),
                        steps,
                    )
                },
    {
        if wm > self.watermark {
            self.watermark = wm;
        }
        let closed = self.buckets.close_ended(self.size_ms, self.watermark);
        assert(forall|k: Timestamp| #[trigger]
            self.windows().contains_key(k) ==> old(self).windows().contains_key(k));
        proof {
            assert forall|steps: Seq<Step<A::Input>>| #[trigger] old(self).follows(steps) implies {
                &&& self.follows(steps.push(Step::Watermark(wm)))
                &&& contents::closes::<A>(
                    closed@,
                    self.watermark,
                    covers(self.size_ms),
                    self.size_ms,
                    steps,
                )
            } by {
                contents::law_watermark_closes(
                    old(self).windows(),
                    self.windows(),
                    closed@,
                    old(self).watermark,
                    wm,
                    covers(self.size_ms),
                    self.size_ms,
                    steps,
                );
            }
        }
        closed
    }

    pub fn watermark(&self) -> (wm: Timestamp)
        ensures
            wm == self.spec_watermark(),
    {
        self.watermark
    }

    pub fn open_windows(&self) -> (n: usize)
        ensures
            n == self.windows().dom().len(),
    {
        self.buckets.len()
    }
}

/// The window that covers the timestamp of a record is open once the record is there, has added it
/// to what it had accumulated before, or to nothing, and counts one more; every other window is as
/// it was.
pub proof fn law_covering_window_takes_the_record<A: Aggregator>(
    m: Map<Timestamp, (A, u64)>,
    ts: Timestamp,
    size: u64,
    item: A::Input,
)
    requires
        size > 0,
        buckets::has_room(m, align_down(ts as int, size as int) as u64),
    ensures
        ({
            let after = buckets::absorbed(m, align_down(ts as int, size as int) as u64, item);
            &&& forall|k: Timestamp|
                k % size == 0 && k <= ts < k + size ==> #[trigger] after.contains_key(k)
                    && if m.contains_key(k) {
                    after[k].0 == m[k].0.added(item) && after[k].1 == m[k].1 + 1
                } else {
                    after[k].0 == A::fresh().added(item) && after[k].1 == 1
                }
            &&& forall|k: Timestamp|
                !(k % size == 0 && k <= ts < k + size) ==> (#[trigger] after.contains_key(k)
                    <==> m.contains_key(k)) && (m.contains_key(k) ==> after[k] == m[k])
        }),
{
    law_one_window_covers(ts, size);
    let start = align_down(ts as int, size as int);
    let after = buckets::absorbed(m, start as u64, item);
    assert forall|k: Timestamp| (k % size == 0 && k <= ts < k + size) == (k == start) && (
    #[trigger] after.contains_key(k) <==> k == start || m.contains_key(k)) by {
        assert(k as int % (size as int) == (k % size) as int);
    }
}

/// Of the windows that start at a multiple of the length, a timestamp lies in exactly one: the
/// one that `add` puts it into.
pub proof fn law_one_window_covers(ts: Timestamp, size: u64)
    requires
        size > 0,
    ensures
        ({
            let start = align_down(ts as int, size as int);
            &&& 0 <= start <= ts < start + size
            &&& start % (size as int) == 0
            &&& forall|k: int| #![trigger k % (size as int)]
                k % (size as int) == 0 && k <= ts < k + size ==> k == start
        }),
{
    let t = ts as int;
    let d = size as int;
    let start = align_down(t, d);
    vstd::arithmetic::div_mod::lemma_fundamental_div_mod(t, d);
    vstd::arithmetic::mul::lemma_mul_is_commutative(d, t / d);
    vstd::arithmetic::div_mod::lemma_mod_multiples_basic(t / d, d);
    vstd::arithmetic::div_mod::lemma_div_pos_is_pos(t, d);
    assert(start >= 0) by (nonlinear_arith)
        requires
            start == (t / d) * d,
            t / d >= 0,
            d > 0,
    ;
    assert forall|k: int| #![trigger k % d] k % d == 0 && k <= t < k + d implies k == start by {
        vstd::arithmetic::div_mod::lemma_fundamental_div_mod(k, d);
        vstd::arithmetic::mul::lemma_mul_is_commutative(d, k / d);
        vstd::arithmetic::div_mod::lemma_fundamental_div_mod_converse(t, d, k / d, t - k);
    }
}

} // verus!
