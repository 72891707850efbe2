//! What a stream of requests, and a series of runs, look like as a whole.
use vstd::prelude::*;

use crate::ieee;
use crate::monitor::{self, stats, RequestEvent};

verus! {

/// What stands out in a request.
#[derive(Clone, Copy, Debug, PartialEq, Eq, Structural)]
pub enum EventFlag {
    /// The service failed.
    ServerError,
    /// The request was wrong.
    ClientError,
    /// The answer took more than half a second.
    Spike,
    /// Nothing.
    Plain,
}

/// What stands out in a request; an error before a spike.
pub open spec fn spec_flag(event: RequestEvent) -> EventFlag {
    if event.status >= 500 {
        EventFlag::ServerError
    } else if event.status >= 400 {
        EventFlag::ClientError
    } else if ieee::single_exceeds(event.latency_bits, monitor::SPIKE_MS) {
        EventFlag::Spike
    } else {
        EventFlag::Plain
    }
}

/// What stands out in a request; an error before a spike.
pub fn flag(event: &RequestEvent) -> (f: EventFlag)
    ensures
        f == spec_flag(*event),
{
    if event.status >= 500 {
        EventFlag::ServerError
    } else if event.status >= 400 {
        EventFlag::ClientError
    } else if ieee::exceeds_single(event.latency_bits, monitor::SPIKE_MS) {
        EventFlag::Spike
    } else {
        EventFlag::Plain
    }
}

/// The number of requests with a property.
pub open spec fn count(events: Seq<RequestEvent>, has: spec_fn(RequestEvent) -> bool) -> nat {
    events.filter(has).len()
}

/// The request failed.
pub open spec fn is_error() -> spec_fn(RequestEvent) -> bool {
    |e: RequestEvent| e.status >= stats::ERROR_STATUS
}

/// The answer took more than a fifth of a second.
pub open spec fn is_high() -> spec_fn(RequestEvent) -> bool {
    |e: RequestEvent| ieee::single_exceeds(e.latency_bits, monitor::HIGH_MS)
}

/// The request monitors the service itself.
pub open spec fn is_health() -> spec_fn(RequestEvent) -> bool {
    |e: RequestEvent| monitor::is_health(e.endpoint@)
}

/// The request went to the endpoint.
pub open spec fn goes_to(endpoint: Seq<char>) -> spec_fn(RequestEvent) -> bool {
    |e: RequestEvent| e.endpoint@ == endpoint
}

proof fn lemma_count_push(
    events: Seq<RequestEvent>,
    e: RequestEvent,
    has: spec_fn(RequestEvent) -> bool,
)
    ensures
        count(events.push(e), has) == count(events, has) + if has(e) {
            1nat
        } else {
            0
        },
{
    reveal(Seq::filter);
    assert(events.push(e).drop_last() =~= events);
}

/// How requests are distributed.
pub struct TrafficProfile {
    /// The endpoints and the number of requests to each.
    pub endpoints: Vec<(&'static str, u64)>,
    pub errors: u64,
    pub high_latency: u64,
    pub health: u64,
}

impl TrafficProfile {
    /// Whether this is the profile of exactly these requests: every endpoint that one went to is
    /// listed once, and no other.
    pub open spec fn describes(&self, events: Seq<RequestEvent>) -> bool {
        &&& self.errors == count(events, is_error())
        &&& self.high_latency == count(events, is_high())
        &&& self.health == count(events, is_health())
        &&& forall|i: int|
            0 <= i < self.endpoints@.len() ==> (#[trigger] self.endpoints@[i]).1 == count(
                events,
                goes_to(self.endpoints@[i].0@),
            )
        &&& forall|i: int| 0 <= i < self.endpoints@.len() ==> (#[trigger] self.endpoints@[i]).1 > 0
        &&& forall|i: int, j: int|
            #![trigger self.endpoints@[i], self.endpoints@[j]]
            0 <= i < j < self.endpoints@.len() ==> self.endpoints@[i].0@ != self.endpoints@[j].0@
        &&& forall|i: int|
            0 <= i < events.len() ==> self.lists((#[trigger] events[i]).endpoint@)
    }

    pub open spec fn lists(&self, endpoint: Seq<char>) -> bool {
        exists|k: int|
            0 <= k < self.endpoints@.len() && (#[trigger] self.endpoints@[k]).0@ == endpoint
    }

    /// Whether one more request can be counted.
    pub open spec fn has_room(&self) -> bool {
        &&& self.errors < u64::MAX
        &&& self.high_latency < u64::MAX
        &&& self.health < u64::MAX
        &&& forall|i: int|
            0 <= i < self.endpoints@.len() ==> (#[trigger] self.endpoints@[i]).1 < u64::MAX
    }

    pub fn new() -> (p: Self)
        ensures
            p.describes(Seq::empty()),
    {
        proof {
            reveal(Seq::filter);
        }
        TrafficProfile { endpoints: Vec::new(), errors: 0, high_latency: 0, health: 0 }
    }

    /// Counts one more request.
    pub fn add(&mut self, event: &RequestEvent)
        requires
            old(self).has_room(),
        ensures
            forall|events: Seq<RequestEvent>| #[trigger]
                old(self).describes(events) ==> final(self).describes(events.push(*event)),
    {
        let ghost before = *self;
        if event.status >= stats::ERROR_STATUS {
            self.errors = self.errors + 1;
        }
        if ieee::exceeds_single(event.latency_bits, monitor::HIGH_MS) {
            self.high_latency = self.high_latency + 1;
        }
        if monitor::is_health_endpoint(event.endpoint) {
            self.health = self.health + 1;
        }
        let n: usize = self.endpoints.len();
        let mut at: usize = 0;
        while at < n && !monitor::same_text(self.endpoints[at].0, event.endpoint)
            invariant
                at <= n,
                n == self.endpoints@.len(),
                self.endpoints@ == before.endpoints@,
                forall|k: int|
                    0 <= k < at ==> (#[trigger] before.endpoints@[k]).0@ != event.endpoint@,
            decreases n - at,
        {
            at = at + 1;
        }
        if at < n {
            let (name, seen): (&'static str, u64) = self.endpoints[at];
            self.endpoints.set(at, (name, seen + 1));
        } else {
            self.endpoints.push((event.endpoint, 1));
        }
        proof {
            let after = *self;
            assert forall|events: Seq<RequestEvent>| #[trigger]
                before.describes(events) implies after.describes(events.push(*event)) by {
                lemma_described(before, after, events, *event, at as int);
            }
        }
    }

    /// The endpoints by descending number of requests.
    pub fn ranked(&self) -> (ranked: Vec<(&'static str, u64)>)
        ensures
            ranked@.to_multiset() == self.endpoints@.to_multiset(),
            forall|i: int, j: int|
                #![trigger ranked@[i], ranked@[j]]
                0 <= i < j < ranked@.len() ==> ranked@[i].1 >= ranked@[j].1,
    {
        let mut ranked: Vec<(&'static str, u64)> = Vec::new();
        assert(self.endpoints@.take(0) =~= ranked@);
        for i in 0..self.endpoints.len()
            invariant
                ranked@.to_multiset() == self.endpoints@.take(i as int).to_multiset(),
                forall|i: int, j: int|
                    #![trigger ranked@[i], ranked@[j]]
                    0 <= i < j < ranked@.len() ==> ranked@[i].1 >= ranked@[j].1,
        {
            let entry: (&'static str, u64) = self.endpoints[i];
            let mut at: usize = ranked.len();
            while at > 0 && ranked[at - 1].1 < entry.1
                invariant
                    at <= ranked@.len(),
                    forall|k: int| at <= k < ranked@.len() ==> (#[trigger] ranked@[k]).1 < entry.1,
                decreases at,
            {
                at = at - 1;
            }
            let ghost before = ranked@;
            ranked.insert(at, entry);
            proof {
                broadcast use vstd::seq_lib::group_to_multiset_ensures;

                assert(ranked@ =~= before.insert(at as int, entry));
                assert(self.endpoints@.take(i + 1) =~= self.endpoints@.take(i as int).push(entry));
            }
        }
        assert(self.endpoints@.take(self.endpoints@.len() as int) =~= self.endpoints@);
        ranked
    }
}

proof fn lemma_described(
    before: TrafficProfile,
    after: TrafficProfile,
    events: Seq<RequestEvent>,
    e: RequestEvent,
    at: int,
)
    requires
        before.describes(events),
        before.has_room(),
        after.errors == before.errors + if is_error()(e) {
            1int
        } else {
            0
        },
        after.high_latency == before.high_latency + if is_high()(e) {
            1int
        } else {
            0
        },
        after.health == before.health + if is_health()(e) {
            1int
        } else {
            0
        },
        0 <= at <= before.endpoints@.len(),
        forall|k: int| 0 <= k < at ==> (#[trigger] before.endpoints@[k]).0@ != e.endpoint@,
        at < before.endpoints@.len() ==> {
            let (name, seen) = before.endpoints@[at];
            &&& name@ == e.endpoint@
            &&& after.endpoints@ == before.endpoints@.update(at, (name, (seen + 1) as u64))
        },
        at == before.endpoints@.len() ==> after.endpoints@ == before.endpoints@.push(
            (e.endpoint, 1),
        ),
    ensures
        after.describes(events.push(e)),
{
    let all = events.push(e);
    let n = before.endpoints@.len() as int;
    lemma_count_push(events, e, is_error());
    lemma_count_push(events, e, is_high());
    lemma_count_push(events, e, is_health());
    assert forall|i: int| 0 <= i < after.endpoints@.len() implies (#[trigger] after.endpoints@[i]).1
        == count(all, goes_to(after.endpoints@[i].0@)) by {
        lemma_count_push(events, e, goes_to(after.endpoints@[i].0@));
        if i == n {
            lemma_never_seen(before, events, e.endpoint@);
        } else {
            assert(before.endpoints@[i].1 == count(events, goes_to(before.endpoints@[i].0@)));
            if at < n && i != at {
                assert(before.endpoints@[at].0@ != before.endpoints@[i].0@);
            }
        }
    }
    assert forall|i: int, j: int|
        #![trigger after.endpoints@[i], after.endpoints@[j]]
        0 <= i < j < after.endpoints@.len() implies after.endpoints@[i].0@
        != after.endpoints@[j].0@ by {
        if j < n {
            assert(before.endpoints@[i].0@ != before.endpoints@[j].0@);
        } else {
            assert(before.endpoints@[i].0@ != e.endpoint@);
        }
    }
    assert forall|i: int| 0 <= i < all.len() implies after.lists((#[trigger] all[i]).endpoint@) by {
        if i < events.len() {
            assert(before.lists(events[i].endpoint@));
            let k = choose|k: int|
                0 <= k < n && (#[trigger] before.endpoints@[k]).0@ == events[i].endpoint@;
            assert(after.endpoints@[k].0@ == all[i].endpoint@);
        } else {
            assert(after.endpoints@[at].0@ == e.endpoint@);
        }
    }
}

/// No request went to an endpoint that is not listed.
proof fn lemma_never_seen(p: TrafficProfile, events: Seq<RequestEvent>, endpoint: Seq<char>)
    requires
        forall|k: int| 0 <= k < p.endpoints@.len() ==> (#[trigger] p.endpoints@[k]).0@ != endpoint,
        forall|i: int| 0 <= i < events.len() ==> p.lists((#[trigger] events[i]).endpoint@),
    ensures
        count(events, goes_to(endpoint)) == 0,
    decreases events.len(),
{
    reveal(Seq::filter);
    if events.len() > 0 {
        let rest = events.drop_last();
        assert forall|i: int| 0 <= i < rest.len() implies p.lists(
            (#[trigger] rest[i]).endpoint@,
        ) by {
            assert(rest[i] == events[i]);
        }
        lemma_never_seen(p, rest, endpoint);
        assert(p.lists(events[events.len() - 1].endpoint@));
    }
}

/// The numbers that sum up a series of counts.
#[derive(Clone, Copy, Debug)]
pub struct CountSummary {
    pub min: u64,
    pub max: u64,
    pub total: u128,
}

/// The sum of a series.
pub open spec fn sum(counts: Seq<u64>) -> nat
    decreases counts.len(),
{
    if counts.len() == 0 {
        0
    } else {
        sum(counts.drop_last()) + counts.last() as nat
    }
}

/// The least, the greatest and the sum of a series; nothing for an empty one.
pub fn summarize(counts: &Vec<u64>) -> (summary: Option<CountSummary>)
    ensures
        summary is None <==> counts@.len() == 0,
        summary matches Some(s) ==> {
            &&& counts@.contains(s.min)
            &&& counts@.contains(s.max)
            &&& forall|i: int| 0 <= i < counts@.len() ==> s.min <= #[trigger] counts@[i] <= s.max
            &&& s.total == sum(counts@)
        },
{
    if counts.len() == 0 {
        return None;
    }
    let (mut min, mut max): (u64, u64) = (counts[0], counts[0]);
    let mut total: u128 = 0;
    for i in 0..counts.len()
        invariant
            counts@.len() > 0,
            counts@.contains(min),
            counts@.contains(max),
            min <= counts@[0] <= max,
            forall|k: int| 0 <= k < i ==> min <= #[trigger] counts@[k] <= max,
            total == sum(counts@.take(i as int)),
            total <= i * u64::MAX,
    {
        let c: u64 = counts[i];
        assert(counts@.take(i + 1).drop_last() =~= counts@.take(i as int));
        assert((i + 1) * u64::MAX == i * u64::MAX + u64::MAX) by (nonlinear_arith);
        assert(i * u64::MAX + u64::MAX <= u128::MAX) by (nonlinear_arith)
            requires
                i < 0x1_0000_0000_0000_0000,
        ;
        if c < min {
            min = c;
        }
        if c > max {
            max = c;
        }
        total = total + c as u128;
    }
    assert(counts@.take(counts@.len() as int) =~= counts@);
    Some(CountSummary { min, max, total })
}

/// A request is flagged by its status, and where that is none of an error by its latency: a spike
/// is one of more than five hundred milliseconds.
pub proof fn law_flags(event: RequestEvent)
    ensures
        ({
            let f = spec_flag(event);
            let ms = ieee::single_value(event.latency_bits);
            let spike = !ieee::single_is_nan(event.latency_bits) && ms > 500
                * vstd::arithmetic::power2::pow2(149);
            &&& f == EventFlag::ServerError <==> event.status >= 500
            &&& f == EventFlag::ClientError <==> 400 <= event.status < 500
            &&& f == EventFlag::Spike <==> event.status < 400 && spike
            &&& f == EventFlag::Plain <==> event.status < 400 && !spike
        }),
{
    monitor::law_limits();
}

/// The profile of requests counts, one by one, those with a status of 400 or above, those that took
/// more than two hundred milliseconds, and those that went to one of the two endpoints that monitor
/// the service; and for every endpoint those that went to it.
pub proof fn law_profile_counts_requests(p: TrafficProfile, events: Seq<RequestEvent>, i: int)
    requires
        p.describes(events),
        0 <= i < p.endpoints@.len(),
    ensures
        p.errors == events.filter(|e: RequestEvent| e.status >= 400).len(),
        p.high_latency == events.filter(
            |e: RequestEvent|
                !ieee::single_is_nan(e.latency_bits) && ieee::single_value(e.latency_bits) > 200
                    * vstd::arithmetic::power2::pow2(149),
        ).len(),
        p.health == events.filter(
            |e: RequestEvent| e.endpoint@ == "/health"@ || e.endpoint@ == "/metrics"@,
        ).len(),
        p.endpoints@[i].1 == events.filter(
            |e: RequestEvent| e.endpoint@ == p.endpoints@[i].0@,
        ).len(),
{
    monitor::law_limits();
    assert(is_error() =~= (|e: RequestEvent| e.status >= 400));
    assert(is_high() =~= (|e: RequestEvent|
        !ieee::single_is_nan(e.latency_bits) && ieee::single_value(e.latency_bits) > 200
            * vstd::arithmetic::power2::pow2(149)));
    assert(is_health() =~= (|e: RequestEvent|
        e.endpoint@ == "/health"@ || e.endpoint@ == "/metrics"@));
    assert(goes_to(p.endpoints@[i].0@) =~= (|e: RequestEvent|
        e.endpoint@ == p.endpoints@[i].0@));
}

/// The sum of a series is that of its parts, and that of one number is the number.
pub proof fn law_sum_in_parts(a: Seq<u64>, b: Seq<u64>, n: u64)
    ensures
        sum(Seq::empty()) == 0,
        sum(seq![n]) == n,
        sum(a + b) == sum(a) + sum(b),
    decreases b.len(),
{
    reveal_with_fuel(sum, 2);
    assert(seq![n].drop_last() =~= Seq::empty());
    if b.len() == 0 {
        assert(a + b =~= a);
    } else {
        law_sum_in_parts(a, b.drop_last(), n);
        assert((a + b).drop_last() =~= a + b.drop_last());
    }
}

/// A profile can count as many requests as there are numbers.
pub proof fn law_profile_has_room(p: TrafficProfile, events: Seq<RequestEvent>)
    requires
        p.describes(events),
        events.len() < u64::MAX,
    ensures
        p.has_room(),
{
    broadcast use vstd::seq_lib::group_filter_ensures;

    assert(count(events, is_error()) <= events.len());
    assert(count(events, is_high()) <= events.len());
    assert(count(events, is_health()) <= events.len());
    assert forall|i: int| 0 <= i < p.endpoints@.len() implies (#[trigger] p.endpoints@[i]).1
        < u64::MAX by {
        assert(count(events, goes_to(p.endpoints@[i].0@)) <= events.len());
    }
}

} // verus!
