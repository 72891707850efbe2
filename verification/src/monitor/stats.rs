//! Latency per endpoint and window.
use std::time::Duration;
use vstd::prelude::*;

use crate::monitor::{self, ValidEvent};
use crate::operator::{self, Process, ProcessResult};
use crate::window::buckets;
use crate::window::tumbling;
use crate::window::{Aggregator, TimedRecord, Timestamp, TumblingWindow, WindowResult};

verus! {

/// How far the watermark stays behind the latest request, in milliseconds.
pub const ALLOWED_LATENESS_MS: u64 = 50;

/// The least status that stands for an error.
pub const ERROR_STATUS: u16 = 400;

/// What is known of one endpoint.
pub struct EndpointEntry<A: Aggregator<Input = u32>> {
    pub endpoint: &'static str,
    pub window: TumblingWindow<A>,
    /// Requests that failed, and all requests.
    pub errors: u64,
    pub total: u64,
}

/// What is known of one endpoint, in itself.
pub struct EndpointState<A> {
    pub watermark: Timestamp,
    pub windows: Map<Timestamp, (A, u64)>,
    pub errors: u64,
    pub total: u64,
}

impl<A: Aggregator<Input = u32>> EndpointState<A> {
    /// Nothing is known yet.
    pub open spec fn fresh() -> Self {
        EndpointState { watermark: 0, windows: Map::empty(), errors: 0, total: 0 }
    }

    /// Whether one more such request can be counted.
    pub open spec fn has_room(self, window_ms: u64, ts: u64) -> bool {
        &&& self.errors < u64::MAX
        &&& self.total < u64::MAX
        &&& buckets::has_room(
            self.windows,
            tumbling::align_down(ts as int, window_ms as int) as u64,
        )
    }

    /// The watermark after a request of that time: it follows the latest request at a distance.
    pub open spec fn next_watermark(self, ts: u64) -> Timestamp {
        let follows = if ts > ALLOWED_LATENESS_MS {
            (ts - ALLOWED_LATENESS_MS) as u64
        } else {
            0
        };
        if follows > self.watermark {
            follows
        } else {
            self.watermark
        }
    }

    /// The open windows with a request in the one that its time lies in, before any is closed.
    pub open spec fn windows_with(self, window_ms: u64, e: ValidEvent) -> Map<
        Timestamp,
        (A, u64),
    > {
        buckets::absorbed(
            self.windows,
            tumbling::align_down(e.0.ts_ms as int, window_ms as int) as u64,
            e.0.latency_bits,
        )
    }

    /// This state after one more request.
    pub open spec fn after(self, window_ms: u64, e: ValidEvent) -> Self {
        EndpointState {
            watermark: self.next_watermark(e.0.ts_ms),
            windows: buckets::still_open(
                self.windows_with(window_ms, e),
                window_ms,
                self.next_watermark(e.0.ts_ms),
            ),
            errors: if e.0.status >= ERROR_STATUS {
                (self.errors + 1) as u64
            } else {
                self.errors
            },
            total: (self.total + 1) as u64,
        }
    }
}

impl<A: Aggregator<Input = u32>> EndpointEntry<A> {
    pub open spec fn state(&self) -> EndpointState<A> {
        EndpointState {
            watermark: self.window.spec_watermark(),
            windows: self.window.windows(),
            errors: self.errors,
            total: self.total,
        }
    }
}

/// A window of one endpoint that was closed, with the share of errors among all requests to the
/// endpoint so far.
pub struct EndpointWindow<O> {
    pub endpoint: &'static str,
    pub window_end: Timestamp,
    pub aggregate: O,
    pub count: u64,
    pub errors: u64,
    pub total: u64,
}

/// The closed window of an endpoint with these error counts.
pub open spec fn window_of<O>(
    endpoint: &'static str,
    w: WindowResult<O>,
    errors: u64,
    total: u64,
) -> EndpointWindow<O> {
    EndpointWindow {
        endpoint,
        window_end: w.end_ms,
        aggregate: w.aggregate,
        count: w.count,
        errors,
        total,
    }
}

/// The closed windows of an endpoint with these error counts.
pub open spec fn windows_of<O>(
    endpoint: &'static str,
    closed: Seq<WindowResult<O>>,
    errors: u64,
    total: u64,
) -> Seq<EndpointWindow<O>> {
    closed.map_values(|w: WindowResult<O>| window_of(endpoint, w, errors, total))
}

/// Collects the latencies of every endpoint in windows of its own.
pub struct EndpointStats<A: Aggregator<Input = u32>> {
    pub entries: Vec<EndpointEntry<A>>,
    pub window_ms: u64,
}

impl<A: Aggregator<Input = u32>> EndpointStats<A> {
    /// No endpoint is listed twice, and all have windows of the same length.
    pub open spec fn wf(&self) -> bool {
        &&& forall|i: int, j: int|
            #![trigger self.entries@[i], self.entries@[j]]
            0 <= i < j < self.entries@.len() ==> self.entries@[i].endpoint@
                != self.entries@[j].endpoint@
        &&& forall|i: int|
            0 <= i < self.entries@.len() ==> {
                let window = (#[trigger] self.entries@[i]).window;
                window.size_ms() == self.window_ms && window.wf()
            }
    }

    /// Whether entry `i` is that of the endpoint.
    pub open spec fn is_at(&self, endpoint: Seq<char>, i: int) -> bool {
        0 <= i < self.entries@.len() && self.entries@[i].endpoint@ == endpoint
    }

    /// Whether anything is known of the endpoint.
    pub open spec fn knows(&self, endpoint: Seq<char>) -> bool {
        exists|i: int| self.is_at(endpoint, i)
    }

    /// What is known of the endpoint.
    pub open spec fn state_of(&self, endpoint: Seq<char>) -> EndpointState<A> {
        if self.knows(endpoint) {
            self.entries@[choose|i: int| self.is_at(endpoint, i)].state()
        } else {
            EndpointState::fresh()
        }
    }

    /// Nothing is known of any endpoint.
    pub fn new(window_ms: u64) -> (s: Self)
        ensures
            s.wf(),
            s.window_ms == window_ms,
            forall|endpoint: Seq<char>| !(#[trigger] s.knows(endpoint)),
    {
        EndpointStats { entries: Vec::new(), window_ms }
    }

    /// The place of the endpoint among the entries, which is added if it is not there.
    fn place(&mut self, endpoint: &'static str) -> (at: usize)
        requires
            old(self).wf(),
        ensures
            final(self).wf(),
            final(self).window_ms == old(self).window_ms,
            final(self).is_at(endpoint@, at as int),
            final(self).entries@[at as int].state() == old(self).state_of(endpoint@),
            final(self).entries@ == old(self).entries@ || (final(self).entries@.drop_last()
                == old(self).entries@ && at == old(self).entries@.len() && !old(self).knows(
                endpoint@,
            )),
            final(self).entries@.len() >= old(self).entries@.len(),
    {
        for i in 0..self.entries.len()
            invariant
                *self == *old(self),
                self.wf(),
                forall|k: int| 0 <= k < i ==> !(#[trigger] self.is_at(endpoint@, k)),
        {
            if monitor::same_text(self.entries[i].endpoint, endpoint) {
                proof {
                    assert(self.is_at(endpoint@, i as int));
                    let c = choose|k: int| self.is_at(endpoint@, k);
                    assert(self.is_at(endpoint@, c));
                    assert(c == i);
                }
                return i;
            }
        }
        proof {
            if self.knows(endpoint@) {
                let c = choose|k: int| self.is_at(endpoint@, k);
                assert(self.is_at(endpoint@, c));
            }
        }
        let at: usize = self.entries.len();
        let window = TumblingWindow::new(Duration::from_millis(self.window_ms));
        let ghost before = self.entries@;
        assert forall|k: int| 0 <= k < before.len() implies (#[trigger] before[k]).endpoint@
            != endpoint@ by {
            assert(!self.is_at(endpoint@, k));
        }
        self.entries.push(EndpointEntry { endpoint, window, errors: 0, total: 0 });
        assert(self.entries@.drop_last() =~= before);
        assert(self.is_at(endpoint@, at as int));
        at
    }
}

impl<A: Aggregator<Input = u32>> Process for EndpointStats<A> {
    type Input = ValidEvent;

    type Output = EndpointWindow<A::Output>;

    /// Windows have a length, and the counters of the endpoint have room.
    open spec fn accepts(&self, e: ValidEvent) -> bool {
        &&& self.wf()
        &&& self.window_ms > 0
        &&& self.state_of(e.0.endpoint@).has_room(self.window_ms, e.0.ts_ms)
    }

    /// Takes the request into account for its endpoint, leaves every other endpoint alone, and
    /// passes on the windows of the endpoint that have ended by then, by ascending start.
    open spec fn answers(
        &self,
        e: ValidEvent,
        r: ProcessResult<EndpointWindow<A::Output>>,
        after: &Self,
    ) -> bool {
        let endpoint = e.0.endpoint@;
        let state = self.state_of(endpoint).after(self.window_ms, e);
        &&& after.wf()
        &&& after.window_ms == self.window_ms
        &&& after.knows(endpoint)
        &&& after.state_of(endpoint) == state
        &&& forall|other: Seq<char>| #[trigger]
            after.knows(other) && other != endpoint ==> self.knows(other)
        &&& forall|other: Seq<char>|
            other != endpoint ==> #[trigger] after.state_of(other) == self.state_of(other)
        &&& exists|closed: Seq<WindowResult<A::Output>>|
            {
                &&& #[trigger] buckets::lists_ended(
                    closed,
                    self.state_of(endpoint).windows_with(self.window_ms, e),
                    self.window_ms,
                    state.watermark,
                )
                &&& operator::passes_on(
                    r,
                    windows_of(e.0.endpoint, closed, state.errors, state.total),
                )
            }
    }

    fn process(&mut self, e: ValidEvent) -> (r: ProcessResult<EndpointWindow<A::Output>>) {
        let endpoint = e.0.endpoint;
        let ts: u64 = e.0.ts_ms;
        let ghost known = self.state_of(endpoint@);
        let at: usize = self.place(endpoint);
        let ghost placed = *self;
        let mut entry = self.entries.remove(at);
        entry.window.add(&TimedRecord { ts, data: e.0.latency_bits });
        if e.0.status >= ERROR_STATUS {
            entry.errors = entry.errors + 1;
        }
        entry.total = entry.total + 1;
        let closed = entry.window.advance_watermark(ts.saturating_sub(ALLOWED_LATENESS_MS));
        let (errors, total): (u64, u64) = (entry.errors, entry.total);
        self.entries.insert(at, entry);
        let ghost done = closed@;
        let mut out: Vec<EndpointWindow<A::Output>> = Vec::new();
        for w in it: closed
            invariant
                it.seq() == done,
                out@.len() == it.index(),
                forall|i: int|
                    0 <= i < out@.len() ==> #[trigger] out@[i] == window_of(
                        endpoint,
                        done[i],
                        errors,
                        total,
                    ),
        {
            out.push(
                EndpointWindow {
                    endpoint,
                    window_end: w.end_ms,
                    aggregate: w.aggregate,
                    count: w.count,
                    errors,
                    total,
                },
            );
        }
        proof {
            let now = *self;
            assert(now.entries@ =~= placed.entries@.update(at as int, entry));
            assert(entry.state() == known.after(now.window_ms, e));
            assert(now.is_at(endpoint@, at as int));
            assert forall|i: int, j: int|
                #![trigger now.entries@[i], now.entries@[j]]
                0 <= i < j < now.entries@.len() implies now.entries@[i].endpoint@
                != now.entries@[j].endpoint@ by {
                assert(placed.entries@[i].endpoint@ != placed.entries@[j].endpoint@);
            }
            assert(now.wf());
            let c = choose|k: int| now.is_at(endpoint@, k);
            assert(now.is_at(endpoint@, c) && c == at);
            assert forall|other: Seq<char>| other != endpoint@ implies now.knows(other)
                == old(self).knows(other) && #[trigger] now.state_of(other) == old(self).state_of(
                other,
            ) by {
                lemma_same_state(*old(self), now, other, at as int);
            }
            assert forall|other: Seq<char>| #[trigger]
                now.knows(other) && other != endpoint@ implies old(self).knows(other) by {
                assert(now.state_of(other) == old(self).state_of(other));
            }
            let state = known.after(now.window_ms, e);
            assert(buckets::lists_ended(
                done,
                known.windows_with(now.window_ms, e),
                now.window_ms,
                state.watermark,
            ));
            assert(out@ =~= windows_of(endpoint, done, errors, total));
        }
        let r = operator::pass_on(out);
        assert(old(self).answers(e, r, self));
        r
    }
}

/// An endpoint whose entry is untouched is known as before.
proof fn lemma_same_state<A: Aggregator<Input = u32>>(
    before: EndpointStats<A>,
    after: EndpointStats<A>,
    endpoint: Seq<char>,
    at: int,
)
    requires
        before.wf(),
        after.wf(),
        before.entries@.len() <= after.entries@.len() <= before.entries@.len() + 1,
        after.entries@.len() > before.entries@.len() ==> at == before.entries@.len(),
        0 <= at < after.entries@.len(),
        after.entries@[at].endpoint@ != endpoint,
        at < before.entries@.len() ==> before.entries@[at].endpoint@ != endpoint,
        forall|i: int|
            0 <= i < before.entries@.len() && i != at ==> #[trigger] after.entries@[i]
                == before.entries@[i],
    ensures
        after.knows(endpoint) == before.knows(endpoint),
        after.state_of(endpoint) == before.state_of(endpoint),
{
    if before.knows(endpoint) {
        let i = choose|i: int| before.is_at(endpoint, i);
        assert(after.entries@[i] == before.entries@[i]);
        assert(after.is_at(endpoint, i));
        let j = choose|j: int| after.is_at(endpoint, j);
        assert(after.is_at(endpoint, j));
        assert(i == j);
    } else if after.knows(endpoint) {
        let j = choose|j: int| after.is_at(endpoint, j);
        assert(after.is_at(endpoint, j));
        assert(after.entries@[j] == before.entries@[j]);
        assert(before.is_at(endpoint, j));
    }
}

/// Requests to different endpoints are told apart: which of two comes first makes no difference
/// to what is known of either.
pub proof fn law_endpoints_are_independent<A: Aggregator<Input = u32>>(
    start: EndpointStats<A>,
    mid: EndpointStats<A>,
    end: EndpointStats<A>,
    first: ValidEvent,
    second: ValidEvent,
    r1: ProcessResult<EndpointWindow<A::Output>>,
    r2: ProcessResult<EndpointWindow<A::Output>>,
)
    requires
        start.answers(first, r1, &mid),
        mid.answers(second, r2, &end),
        first.0.endpoint@ != second.0.endpoint@,
    ensures
        end.state_of(first.0.endpoint@) == start.state_of(first.0.endpoint@).after(
            start.window_ms,
            first,
        ),
        end.state_of(second.0.endpoint@) == start.state_of(second.0.endpoint@).after(
            start.window_ms,
            second,
        ),
{
}

/// The errors of an endpoint never outnumber its requests, and it has at least one once it is
/// known.
pub proof fn law_error_share_is_a_share<A: Aggregator<Input = u32>>(
    state: EndpointState<A>,
    window_ms: u64,
    e: ValidEvent,
)
    requires
        state.errors <= state.total,
        state.has_room(window_ms, e.0.ts_ms),
    ensures
        state.after(window_ms, e).errors <= state.after(window_ms, e).total,
        state.after(window_ms, e).total > 0,
{
}

} // verus!
