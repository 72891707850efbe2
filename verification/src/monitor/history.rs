//! What holds of the statistics of endpoints over any history of requests.
use vstd::prelude::*;

use crate::monitor::stats::{self, EndpointState, EndpointStats, EndpointWindow};
use crate::monitor::ValidEvent;
use crate::operator::relay;
use crate::operator::{Process, ProcessResult};
use crate::window::buckets;
use crate::window::contents;
use crate::window::tumbling;
use crate::window::{self, Aggregator, Timestamp, WindowResult};

verus! {

/// The start of the window that a request belongs to.
pub open spec fn start_of(window_ms: u64, e: ValidEvent) -> Timestamp {
    tumbling::align_down(e.0.ts_ms as int, window_ms as int) as u64
}

/// The number of requests to an endpoint.
pub open spec fn requests(events: Seq<ValidEvent>, endpoint: Seq<char>) -> nat
    decreases events.len(),
{
    if events.len() == 0 {
        0
    } else {
        requests(events.drop_last(), endpoint) + if events.last().0.endpoint@ == endpoint {
            1nat
        } else {
            0
        }
    }
}

/// The number of requests to an endpoint that failed: those with a status of 400 or above.
pub open spec fn failures(events: Seq<ValidEvent>, endpoint: Seq<char>) -> nat
    decreases events.len(),
{
    if events.len() == 0 {
        0
    } else {
        failures(events.drop_last(), endpoint) + if events.last().0.endpoint@ == endpoint
            && events.last().0.status >= 400 {
            1nat
        } else {
            0
        }
    }
}

/// The latest time of a request to an endpoint; zero where there is none.
pub open spec fn latest(events: Seq<ValidEvent>, endpoint: Seq<char>) -> u64
    decreases events.len(),
{
    if events.len() == 0 {
        0
    } else {
        let before = latest(events.drop_last(), endpoint);
        let e = events.last();
        if e.0.endpoint@ == endpoint && e.0.ts_ms > before {
            e.0.ts_ms
        } else {
            before
        }
    }
}

/// The watermark of an endpoint: it follows the latest request fifty milliseconds behind.
pub open spec fn watermark(events: Seq<ValidEvent>, endpoint: Seq<char>) -> Timestamp {
    let last = latest(events, endpoint);
    if last > 50 {
        (last - 50) as u64
    } else {
        0
    }
}

/// The number of requests to an endpoint whose window has ended at `wm`.
pub open spec fn ended(
    events: Seq<ValidEvent>,
    endpoint: Seq<char>,
    window_ms: u64,
    wm: Timestamp,
) -> nat
    decreases events.len(),
{
    if events.len() == 0 {
        0
    } else {
        let e = events.last();
        ended(events.drop_last(), endpoint, window_ms, wm) + if e.0.endpoint@ == endpoint
            && buckets::has_ended(start_of(window_ms, e), window_ms, wm) {
            1nat
        } else {
            0
        }
    }
}

/// The latencies of the requests to an endpoint that lie in the window of that start, in the order
/// in which they came.
pub open spec fn latencies(
    events: Seq<ValidEvent>,
    endpoint: Seq<char>,
    start: int,
    window_ms: u64,
) -> Seq<u32>
    decreases events.len(),
{
    if events.len() == 0 {
        Seq::empty()
    } else {
        let before = latencies(events.drop_last(), endpoint, start, window_ms);
        let e = events.last();
        if e.0.endpoint@ == endpoint && start <= e.0.ts_ms < start + window_ms {
            before.push(e.0.latency_bits)
        } else {
            before
        }
    }
}

/// What is known of an endpoint after these requests.
pub open spec fn state_after<A: Aggregator<Input = u32>>(
    window_ms: u64,
    events: Seq<ValidEvent>,
    endpoint: Seq<char>,
) -> EndpointState<A>
    decreases events.len(),
{
    if events.len() == 0 {
        EndpointState::fresh()
    } else {
        let before = state_after::<A>(window_ms, events.drop_last(), endpoint);
        if events.last().0.endpoint@ == endpoint {
            before.after(window_ms, events.last())
        } else {
            before
        }
    }
}

/// The windows of an endpoint with all requests in them, if none was ever closed.
pub open spec fn all_windows<A: Aggregator<Input = u32>>(
    window_ms: u64,
    events: Seq<ValidEvent>,
    endpoint: Seq<char>,
) -> Map<Timestamp, (A, u64)>
    decreases events.len(),
{
    if events.len() == 0 {
        Map::empty()
    } else {
        let before = all_windows::<A>(window_ms, events.drop_last(), endpoint);
        let e = events.last();
        if e.0.endpoint@ == endpoint {
            buckets::absorbed(before, start_of(window_ms, e), e.0.latency_bits)
        } else {
            before
        }
    }
}

/// Whether these are the statistics after these requests, and of no others.
pub open spec fn reached<A: Aggregator<Input = u32>>(
    s: EndpointStats<A>,
    events: Seq<ValidEvent>,
) -> bool {
    &&& s.wf()
    &&& forall|endpoint: Seq<char>| #[trigger]
        s.state_of(endpoint) == state_after::<A>(s.window_ms, events, endpoint)
}

/// New statistics are those after no requests.
pub proof fn law_new_is_reached<A: Aggregator<Input = u32>>(s: EndpointStats<A>)
    requires
        s.wf(),
        forall|endpoint: Seq<char>| !(#[trigger] s.knows(endpoint)),
    ensures
        reached(s, Seq::empty()),
{
}

/// Processing one more request leads to the statistics after one more request.
pub proof fn law_process_reaches<A: Aggregator<Input = u32>>(
    s: EndpointStats<A>,
    events: Seq<ValidEvent>,
    e: ValidEvent,
    r: ProcessResult<EndpointWindow<A::Output>>,
    after: EndpointStats<A>,
)
    requires
        reached(s, events),
        s.answers(e, r, &after),
    ensures
        reached(after, events.push(e)),
{
    let all = events.push(e);
    assert(all.drop_last() =~= events);
    assert forall|endpoint: Seq<char>| #[trigger]
        after.state_of(endpoint) == state_after::<A>(after.window_ms, all, endpoint) by {
        assert(s.state_of(endpoint) == state_after::<A>(s.window_ms, events, endpoint));
    }
}

proof fn lemma_still_open_after<A: Aggregator>(
    m: Map<Timestamp, (A, u64)>,
    start: Timestamp,
    item: A::Input,
    size: u64,
    wm: Timestamp,
    later: Timestamp,
)
    requires
        wm <= later,
    ensures
        buckets::still_open(
            buckets::absorbed(buckets::still_open(m, size, wm), start, item),
            size,
            later,
        ) == buckets::still_open(buckets::absorbed(m, start, item), size, later),
{
    assert(buckets::still_open(
        buckets::absorbed(buckets::still_open(m, size, wm), start, item),
        size,
        later,
    ) =~= buckets::still_open(buckets::absorbed(m, start, item), size, later));
}

/// In every state that requests can lead to:
/// - the watermark is the latest time less the allowed lateness;
/// - all requests and all failures are counted, so that there are never more failures than
///   requests;
/// - the open windows are exactly those that have not ended, with every request in them that
///   belongs to them;
/// - every one starts at a multiple of the length and holds at least one request.
pub proof fn law_reached_states<A: Aggregator<Input = u32>>(
    window_ms: u64,
    events: Seq<ValidEvent>,
    endpoint: Seq<char>,
)
    requires
        window_ms > 0,
        events.len() <= u64::MAX,
    ensures
        ({
            let state = state_after::<A>(window_ms, events, endpoint);
            &&& state.watermark == watermark(events, endpoint)
            &&& state.total == requests(events, endpoint) <= events.len()
            &&& state.errors == failures(events, endpoint) <= state.total
            &&& state.windows == buckets::still_open(
                all_windows::<A>(window_ms, events, endpoint),
                window_ms,
                state.watermark,
            )
            &&& state.windows.dom().finite()
            &&& forall|k: Timestamp| #[trigger]
                state.windows.contains_key(k) ==> k % window_ms == 0 && 1 <= state.windows[k].1
                    <= state.total
        }),
    decreases events.len(),
{
    lemma_all_windows::<A>(window_ms, events, endpoint);
    if events.len() == 0 {
        let state = state_after::<A>(window_ms, events, endpoint);
        assert(state.windows =~= buckets::still_open(state.windows, window_ms, 0));
    } else {
        let rest = events.drop_last();
        let e = events.last();
        law_reached_states::<A>(window_ms, rest, endpoint);
        if e.0.endpoint@ == endpoint {
            let before = state_after::<A>(window_ms, rest, endpoint);
            lemma_still_open_after(
                all_windows::<A>(window_ms, rest, endpoint),
                start_of(window_ms, e),
                e.0.latency_bits,
                window_ms,
                before.watermark,
                before.next_watermark(e.0.ts_ms),
            );
        }
    }
    let (open, all) = (
        state_after::<A>(window_ms, events, endpoint).windows,
        all_windows::<A>(window_ms, events, endpoint),
    );
    assert(open.dom().subset_of(all.dom()));
    vstd::set_lib::lemma_len_subset(open.dom(), all.dom());
}

proof fn lemma_all_windows<A: Aggregator<Input = u32>>(
    window_ms: u64,
    events: Seq<ValidEvent>,
    endpoint: Seq<char>,
)
    requires
        window_ms > 0,
        events.len() <= u64::MAX,
    ensures
        ({
            let m = all_windows::<A>(window_ms, events, endpoint);
            &&& m.dom().finite()
            &&& requests(events, endpoint) <= events.len()
            &&& forall|k: Timestamp| #[trigger]
                m.contains_key(k) ==> k % window_ms == 0 && 1 <= m[k].1 <= requests(
                    events,
                    endpoint,
                )
        }),
    decreases events.len(),
{
    if events.len() > 0 {
        let e = events.last();
        lemma_all_windows::<A>(window_ms, events.drop_last(), endpoint);
        tumbling::law_one_window_covers(e.0.ts_ms, window_ms);
    }
}

/// The requests in the windows that have not ended are those whose window has not.
proof fn lemma_open_count<A: Aggregator<Input = u32>>(
    window_ms: u64,
    events: Seq<ValidEvent>,
    endpoint: Seq<char>,
    wm: Timestamp,
)
    requires
        window_ms > 0,
        events.len() <= u64::MAX,
    ensures
        buckets::total_count(
            buckets::still_open(all_windows::<A>(window_ms, events, endpoint), window_ms, wm),
        ) + ended(events, endpoint, window_ms, wm) == requests(events, endpoint),
    decreases events.len(),
{
    let all = all_windows::<A>(window_ms, events, endpoint);
    lemma_all_windows::<A>(window_ms, events, endpoint);
    let open = buckets::still_open(all, window_ms, wm);
    if events.len() == 0 {
        assert(open.dom() =~= Set::empty());
        assert(open.dom().len() == 0);
    } else {
        let rest = events.drop_last();
        let e = events.last();
        let m = all_windows::<A>(window_ms, rest, endpoint);
        lemma_all_windows::<A>(window_ms, rest, endpoint);
        lemma_open_count::<A>(window_ms, rest, endpoint, wm);
        if e.0.endpoint@ == endpoint {
            let k = start_of(window_ms, e);
            let before = buckets::still_open(m, window_ms, wm);
            if buckets::has_ended(k, window_ms, wm) {
                assert(open =~= before);
            } else {
                assert(open =~= buckets::absorbed(before, k, e.0.latency_bits));
                assert(before.dom().subset_of(m.dom()));
                vstd::set_lib::lemma_len_subset(before.dom(), m.dom());
                buckets::law_absorb_counts_one(before, k, e.0.latency_bits);
            }
        }
    }
}

/// The requests counted by windows of an endpoint that were passed on.
pub open spec fn counted<O>(windows: Seq<EndpointWindow<O>>, endpoint: Seq<char>) -> nat
    decreases windows.len(),
{
    if windows.len() == 0 {
        0
    } else {
        counted(windows.drop_last(), endpoint) + if windows.last().endpoint@ == endpoint {
            windows.last().count as nat
        } else {
            0
        }
    }
}

/// The requests counted by all windows of an endpoint that were passed on with these results.
pub open spec fn returned<O>(
    results: Seq<ProcessResult<EndpointWindow<O>>>,
    endpoint: Seq<char>,
) -> nat
    decreases results.len(),
{
    if results.len() == 0 {
        0
    } else {
        returned(results.drop_last(), endpoint) + counted(results.last().emitted(), endpoint)
    }
}

/// Whether these requests lead through these states with these results.
pub open spec fn is_history<A: Aggregator<Input = u32>>(
    states: Seq<EndpointStats<A>>,
    events: Seq<ValidEvent>,
    results: Seq<ProcessResult<EndpointWindow<A::Output>>>,
) -> bool {
    &&& states.len() == events.len() + 1
    &&& results.len() == events.len()
    &&& reached(states[0], Seq::empty())
    &&& forall|i: int|
        0 <= i < events.len() ==> states[i].answers(
            #[trigger] events[i],
            results[i],
            &states[i + 1],
        )
}

proof fn lemma_counted<O>(
    endpoint: &'static str,
    closed: Seq<WindowResult<O>>,
    errors: u64,
    total: u64,
    other: Seq<char>,
)
    ensures
        counted(stats::windows_of(endpoint, closed, errors, total), other) == if endpoint@
            == other {
            window::sum_counts(closed)
        } else {
            0
        },
    decreases closed.len(),
{
    let all = stats::windows_of(endpoint, closed, errors, total);
    if closed.len() > 0 {
        lemma_counted(endpoint, closed.drop_last(), errors, total, other);
        assert(all.drop_last() =~= stats::windows_of(endpoint, closed.drop_last(), errors, total));
        assert(all.last() == stats::window_of(endpoint, closed.last(), errors, total));
    }
}

proof fn lemma_passes_on<T>(r: ProcessResult<T>, items: Seq<T>)
    requires
        crate::operator::passes_on(r, items),
    ensures
        r.emitted() == items,
        !(r is Error),
{
    assert(r.emitted() =~= items);
}

/// Over any history of requests to any endpoints in any order, every request is counted in exactly
/// one window: the windows of an endpoint that were passed on so far count, taken together, exactly
/// the requests to it whose window ends at or before its watermark.
pub proof fn law_every_request_is_counted_once<A: Aggregator<Input = u32>>(
    states: Seq<EndpointStats<A>>,
    events: Seq<ValidEvent>,
    results: Seq<ProcessResult<EndpointWindow<A::Output>>>,
    endpoint: Seq<char>,
)
    requires
        is_history(states, events, results),
        states[0].window_ms > 0,
        events.len() <= u64::MAX,
    ensures
        returned(results, endpoint) == ended(
            events,
            endpoint,
            states[0].window_ms,
            watermark(events, endpoint),
        ),
        reached(states.last(), events),
{
    let w = states[0].window_ms;
    lemma_history(states, events, results, endpoint);
    law_reached_states::<A>(w, events, endpoint);
    lemma_open_count::<A>(w, events, endpoint, watermark(events, endpoint));
}

proof fn lemma_history<A: Aggregator<Input = u32>>(
    states: Seq<EndpointStats<A>>,
    events: Seq<ValidEvent>,
    results: Seq<ProcessResult<EndpointWindow<A::Output>>>,
    endpoint: Seq<char>,
)
    requires
        is_history(states, events, results),
        states[0].window_ms > 0,
        events.len() <= u64::MAX,
    ensures
        states.last().window_ms == states[0].window_ms,
        reached(states.last(), events),
        returned(results, endpoint) + buckets::total_count(
            state_after::<A>(states[0].window_ms, events, endpoint).windows,
        ) == requests(events, endpoint),
    decreases events.len(),
{
    let w = states[0].window_ms;
    if events.len() == 0 {
        assert(events =~= Seq::empty());
        let none = state_after::<A>(w, events, endpoint).windows;
        assert(none.dom() =~= Set::empty());
        assert(none.dom().len() == 0);
    } else {
        let last = events.len() - 1;
        let (rest, e) = (events.drop_last(), events.last());
        let (s, after, r) = (states[last], states[last + 1], results.last());
        assert forall|i: int| 0 <= i < rest.len() implies states.drop_last()[i].answers(
            #[trigger] rest[i],
            results.drop_last()[i],
            &states.drop_last()[i + 1],
        ) by {
            assert(rest[i] == events[i]);
        }
        lemma_history(states.drop_last(), rest, results.drop_last(), endpoint);
        assert(s.answers(events[last], r, &after));
        law_process_reaches(s, rest, e, r, after);
        assert(rest.push(e) =~= events);
        let name = e.0.endpoint@;
        assert(s.state_of(name) == state_after::<A>(w, rest, name));
        law_reached_states::<A>(w, rest, name);
        let before = state_after::<A>(w, rest, name);
        let state = before.after(w, e);
        let grown = before.windows_with(w, e);
        let closed = choose|closed: Seq<WindowResult<A::Output>>|
            {
                &&& #[trigger] buckets::lists_ended(closed, grown, w, state.watermark)
                &&& crate::operator::passes_on(
                    r,
                    stats::windows_of(e.0.endpoint, closed, state.errors, state.total),
                )
            };
        let passed = stats::windows_of(e.0.endpoint, closed, state.errors, state.total);
        lemma_passes_on(r, passed);
        lemma_counted(e.0.endpoint, closed, state.errors, state.total, endpoint);
        if name == endpoint {
            buckets::law_absorb_counts_one(before.windows, start_of(w, e), e.0.latency_bits);
            buckets::law_close_conserves_records(closed, grown, w, state.watermark);
        }
    }
}

/// Whatever requests came before, a window that is passed on is one of the request's endpoint. It
/// ends at a multiple of the length, at or before the watermark, and holds at least one request;
/// and of the requests to its endpoint there is at least one, and no more failed than there are.
/// Windows that are passed on together are in strictly ascending order. No request is an error.
pub proof fn law_windows_passed_on<A: Aggregator<Input = u32>>(
    s: EndpointStats<A>,
    events: Seq<ValidEvent>,
    e: ValidEvent,
    r: ProcessResult<EndpointWindow<A::Output>>,
    after: EndpointStats<A>,
)
    requires
        reached(s, events),
        s.window_ms > 0,
        events.len() < u64::MAX,
        s.answers(e, r, &after),
    ensures
        !(r is Error),
        r is Drop <==> r.emitted().len() == 0,
        r is EmitOne <==> r.emitted().len() == 1,
        forall|i: int|
            0 <= i < r.emitted().len() ==> {
                let x = #[trigger] r.emitted()[i];
                &&& x.endpoint@ == e.0.endpoint@
                &&& x.window_end % s.window_ms == 0
                &&& x.window_end <= watermark(events.push(e), e.0.endpoint@)
                &&& x.count >= 1
                &&& x.errors <= x.total
                &&& x.total == requests(events.push(e), e.0.endpoint@) >= 1
            },
        forall|i: int, j: int|
            0 <= i < j < r.emitted().len() ==> (#[trigger] r.emitted()[i]).window_end < (
            #[trigger] r.emitted()[j]).window_end,
{
    let w = s.window_ms;
    let name = e.0.endpoint@;
    let all = events.push(e);
    assert(all.drop_last() =~= events);
    assert(s.state_of(name) == state_after::<A>(w, events, name));
    law_reached_states::<A>(w, events, name);
    law_reached_states::<A>(w, all, name);
    tumbling::law_one_window_covers(e.0.ts_ms, w);
    let before = state_after::<A>(w, events, name);
    let state = before.after(w, e);
    let grown = before.windows_with(w, e);
    assert(state == state_after::<A>(w, all, name));
    let closed = choose|closed: Seq<WindowResult<A::Output>>|
        {
            &&& #[trigger] buckets::lists_ended(closed, grown, w, state.watermark)
            &&& crate::operator::passes_on(
                r,
                stats::windows_of(e.0.endpoint, closed, state.errors, state.total),
            )
        };
    lemma_passes_on(r, stats::windows_of(e.0.endpoint, closed, state.errors, state.total));
    assert forall|i: int| 0 <= i < r.emitted().len() implies {
        let x = #[trigger] r.emitted()[i];
        &&& x.endpoint@ == e.0.endpoint@
        &&& x.window_end == closed[i].start_ms + w
        &&& x.window_end % w == 0
        &&& x.window_end <= watermark(all, name)
        &&& x.count >= 1
        &&& x.errors <= x.total
        &&& x.total == requests(all, name) >= 1
    } by {
        let start = closed[i].start_ms;
        assert(grown.contains_key(start));
        assert((start + w) % (w as int) == 0) by (nonlinear_arith)
            requires
                start % w == 0,
                w > 0,
        ;
    }
}

/// A window of an endpoint, if none was ever closed, has accumulated the latencies of exactly the
/// requests that lie in it.
proof fn lemma_window_of_all<A: Aggregator<Input = u32>>(
    window_ms: u64,
    events: Seq<ValidEvent>,
    endpoint: Seq<char>,
    start: Timestamp,
)
    requires
        window_ms > 0,
        events.len() <= u64::MAX,
        start % window_ms == 0,
    ensures
        ({
            let m = all_windows::<A>(window_ms, events, endpoint);
            let own = latencies(events, endpoint, start as int, window_ms);
            &&& own.len() <= events.len()
            &&& m.contains_key(start) <==> own.len() > 0
            &&& m.contains_key(start) ==> m[start].0 == contents::accumulated::<A>(own)
                && m[start].1 == own.len()
        }),
    decreases events.len(),
{
    if events.len() > 0 {
        let rest = events.drop_last();
        let e = events.last();
        lemma_window_of_all::<A>(window_ms, rest, endpoint, start);
        tumbling::law_one_window_covers(e.0.ts_ms, window_ms);
        assert(start as int % (window_ms as int) == 0);
        let own = latencies(rest, endpoint, start as int, window_ms);
        assert(own.push(e.0.latency_bits).drop_last() =~= own);
        reveal_with_fuel(contents::accumulated, 2);
    }
}

/// Whatever requests came before, every window that is passed on carries
/// - as its errors and its total, how many of the requests to its endpoint so far failed and how
///   many there were;
/// - as its count and its aggregate, the number and the aggregate of the latencies of all requests
///   to its endpoint so far that lie in it, in the order in which they came; or, where it had been
///   passed on before, of the request alone, which came too late.
///
/// A window is passed on exactly if it holds a request and the watermark reaches its end with this
/// request, or the request lies in it and came too late.
pub proof fn law_windows_carry_their_requests<A: Aggregator<Input = u32>>(
    s: EndpointStats<A>,
    events: Seq<ValidEvent>,
    e: ValidEvent,
    r: ProcessResult<EndpointWindow<A::Output>>,
    after: EndpointStats<A>,
)
    requires
        reached(s, events),
        s.window_ms > 0,
        events.len() < u64::MAX,
        s.answers(e, r, &after),
    ensures
        ({
            let (w, endpoint, all) = (s.window_ms, e.0.endpoint@, events.push(e));
            let (was, now) = (watermark(events, endpoint), watermark(all, endpoint));
            &&& forall|i: int|
                0 <= i < r.emitted().len() ==> {
                    let x = #[trigger] r.emitted()[i];
                    let own = latencies(all, endpoint, x.window_end - w, w);
                    &&& x.errors == failures(all, endpoint)
                    &&& x.total == requests(all, endpoint)
                    &&& x.window_end <= now
                    &&& if x.window_end > was {
                        &&& x.count == own.len()
                        &&& x.aggregate == contents::accumulated::<A>(own).emitted()
                    } else {
                        &&& x.window_end - w <= e.0.ts_ms < x.window_end
                        &&& x.count == 1
                        &&& x.aggregate == A::fresh().added(e.0.latency_bits).emitted()
                    }
                }
            &&& forall|start: Timestamp|
                start % w == 0 && start + w <= now && (#[trigger] latencies(
                    all,
                    endpoint,
                    start as int,
                    w,
                )).len() > 0 && (start + w > was || start <= e.0.ts_ms < start + w)
                    ==> exists|i: int|
                    0 <= i < r.emitted().len() && (#[trigger] r.emitted()[i]).window_end == start
                        + w
        }),
{
    let w = s.window_ms;
    let name = e.0.endpoint@;
    let all = events.push(e);
    assert(all.drop_last() =~= events);
    assert(s.state_of(name) == state_after::<A>(w, events, name));
    law_reached_states::<A>(w, events, name);
    law_reached_states::<A>(w, all, name);
    tumbling::law_one_window_covers(e.0.ts_ms, w);
    let before = state_after::<A>(w, events, name);
    let state = before.after(w, e);
    let grown = before.windows_with(w, e);
    let (m, n) = (all_windows::<A>(w, events, name), all_windows::<A>(w, all, name));
    assert(state == state_after::<A>(w, all, name));
    let closed = choose|closed: Seq<WindowResult<A::Output>>|
        {
            &&& #[trigger] buckets::lists_ended(closed, grown, w, state.watermark)
            &&& crate::operator::passes_on(
                r,
                stats::windows_of(e.0.endpoint, closed, state.errors, state.total),
            )
        };
    lemma_passes_on(r, stats::windows_of(e.0.endpoint, closed, state.errors, state.total));
    assert(n == buckets::absorbed(m, start_of(w, e), e.0.latency_bits));
    assert forall|i: int| 0 <= i < r.emitted().len() implies {
        let x = #[trigger] r.emitted()[i];
        let own = latencies(all, name, x.window_end - w, w);
        &&& x.errors == failures(all, name)
        &&& x.total == requests(all, name)
        &&& x.window_end <= state.watermark
        &&& x.window_end == closed[i].start_ms + w
        &&& if x.window_end > before.watermark {
            &&& x.count == own.len()
            &&& x.aggregate == contents::accumulated::<A>(own).emitted()
        } else {
            &&& x.window_end - w <= e.0.ts_ms < x.window_end
            &&& x.count == 1
            &&& x.aggregate == A::fresh().added(e.0.latency_bits).emitted()
        }
    } by {
        let start = closed[i].start_ms;
        assert(grown.contains_key(start));
        lemma_window_of_all::<A>(w, all, name, start);
    }
    assert forall|start: Timestamp|
        start % w == 0 && start + w <= state.watermark && (#[trigger] latencies(
            all,
            name,
            start as int,
            w,
        )).len() > 0 && (start + w > before.watermark || start <= e.0.ts_ms < start
            + w) implies exists|i: int|
        0 <= i < r.emitted().len() && (#[trigger] r.emitted()[i]).window_end == start + w by {
        lemma_window_of_all::<A>(w, all, name, start);
        assert(start as int % (w as int) == 0);
        assert(n.contains_key(start));
        assert(grown.contains_key(start) && buckets::has_ended(start, w, state.watermark));
        let i = choose|i: int| 0 <= i < closed.len() && (#[trigger] closed[i]).start_ms == start;
        assert(r.emitted()[i].window_end == start + w);
    }
}

/// New statistics can be given any requests, as many as can be counted.
pub proof fn law_stats_accept_next<A: Aggregator<Input = u32>>(
    s: EndpointStats<A>,
    events: Seq<ValidEvent>,
    n: nat,
)
    requires
        reached(s, events),
        s.window_ms > 0,
        events.len() + n <= u64::MAX,
    ensures
        relay::accepts_next(s, n),
    decreases n,
{
    if n > 0 {
        assert forall|e: ValidEvent| #[trigger] s.accepts(e) by {
            let name = e.0.endpoint@;
            assert(s.state_of(name) == state_after::<A>(s.window_ms, events, name));
            law_reached_states::<A>(s.window_ms, events, name);
        }
        assert forall|
            e: ValidEvent,
            r: ProcessResult<EndpointWindow<A::Output>>,
            after: EndpointStats<A>,
        | #[trigger] s.answers(e, r, &after) implies relay::accepts_next(after, (n - 1) as nat) by {
            law_process_reaches(s, events, e, r, after);
            law_stats_accept_next(after, events.push(e), (n - 1) as nat);
        }
    }
}

} // verus!
