//! Synthetic requests.
//!
//! A request is drawn in four steps: an endpoint, whether it is slow, by what factor, and a
//! status. The factor is a floating-point number and is drawn by the caller, between `draft_event`
//! and `draw_status`.
use rand::rngs::StdRng;
use rand::Rng;
use vstd::prelude::*;

use crate::ieee;
use crate::monitor::{self, RequestEvent};

verus! {

/// The number of endpoints.
pub const ENDPOINT_COUNT: usize = 7;

/// `rand::rngs::StdRng`: a generator of pseudo-random numbers, carried through unread.
#[verifier::external_type_specification]
#[verifier::external_body]
pub struct ExStdRng(StdRng);

/// `Rng::gen_range` with a range from zero: a number below `n`. Which one rests with the
/// generator.
#[verifier::external_body]
fn draw_below(rng: &mut StdRng, n: usize) -> (i: usize)
    requires
        n > 0,
    ensures
        i < n,
{
    rng.gen_range(0..n)
}

/// `Rng::gen_ratio`: true with a chance of the first number in the second, so never where that is
/// none in any, and always where it is all. Otherwise it rests with the generator.
#[verifier::external_body]
fn chance(rng: &mut StdRng, odds: (u32, u32)) -> (hit: bool)
    requires
        odds.0 <= odds.1,
        odds.1 > 0,
    ensures
        odds.0 == 0 ==> !hit,
        odds.0 == odds.1 ==> hit,
{
    rng.gen_ratio(odds.0, odds.1)
}

/// Whether this use of a generator can have drawn `i` when asked for a number below `n`.
pub closed spec fn draws_below_by(r: &mut StdRng, n: usize, i: usize) -> bool {
    call_ensures(draw_below, (r, n), i)
}

/// Whether this use of a generator can have answered so when asked for a chance of `numerator` in
/// `denominator`.
pub closed spec fn draws_chance_by(
    r: &mut StdRng,
    numerator: u32,
    denominator: u32,
    hit: bool,
) -> bool {
    call_ensures(chance, (r, (numerator, denominator)), hit)
}

/// The endpoints that requests go to.
pub open spec fn spec_endpoint(i: int) -> &'static str {
    if i == 0 {
        "/api/v1/users"
    } else if i == 1 {
        "/api/v1/orders"
    } else if i == 2 {
        "/api/v1/products"
    } else if i == 3 {
        "/api/v1/search"
    } else if i == 4 {
        "/api/v1/cart"
    } else if i == 5 {
        "/health"
    } else {
        "/metrics"
    }
}

/// The endpoints that requests go to.
pub fn endpoint(i: usize) -> (name: &'static str)
    ensures
        name == spec_endpoint(i as int),
{
    match i {
        0 => "/api/v1/users",
        1 => "/api/v1/orders",
        2 => "/api/v1/products",
        3 => "/api/v1/search",
        4 => "/api/v1/cart",
        5 => "/health",
        _ => "/metrics",
    }
}

/// The usual latency of an endpoint in milliseconds.
pub open spec fn spec_base_ms(endpoint: Seq<char>) -> u32 {
    if endpoint == "/api/v1/search"@ {
        80
    } else if endpoint == "/api/v1/orders"@ {
        50
    } else if endpoint == "/api/v1/products"@ {
        30
    } else {
        15
    }
}

/// The usual latency of an endpoint in milliseconds.
pub fn base_ms(endpoint: &str) -> (ms: u32)
    ensures
        ms == spec_base_ms(endpoint@),
{
    if monitor::same_text(endpoint, "/api/v1/search") {
        80
    } else if monitor::same_text(endpoint, "/api/v1/orders") {
        50
    } else if monitor::same_text(endpoint, "/api/v1/products") {
        30
    } else {
        15
    }
}

/// A request whose latency and status are still to be drawn.
#[derive(Clone, Copy, Debug)]
pub struct EventDraft {
    pub ts_ms: u64,
    pub endpoint: &'static str,
    pub base_ms: u32,
    /// Whether it takes far longer than usual.
    pub slow: bool,
}

impl EventDraft {
    /// The draft of request number `seq` to endpoint number `i`. Its time is its number, so that
    /// runs do not depend on the clock.
    pub open spec fn of(seq: u64, i: int, slow: bool) -> Self {
        EventDraft {
            ts_ms: seq,
            endpoint: spec_endpoint(i),
            base_ms: spec_base_ms(spec_endpoint(i)@),
            slow,
        }
    }

    pub fn new(seq: u64, i: usize, slow: bool) -> (d: Self)
        ensures
            d == Self::of(seq, i as int, slow),
    {
        let endpoint = endpoint(i);
        EventDraft { ts_ms: seq, endpoint, base_ms: base_ms(endpoint), slow }
    }

    /// The bounds of the factor by which the latency differs from the usual one, in halves: it is
    /// at least the first and below the second.
    pub open spec fn spec_factor_halves(&self) -> (u32, u32) {
        if self.slow {
            (10u32, 40u32)
        } else {
            (1u32, 4u32)
        }
    }

    /// The bounds of the factor by which the latency differs from the usual one, in halves: it is
    /// at least the first and below the second.
    pub fn factor_halves(&self) -> (bounds: (u32, u32))
        ensures
            bounds == self.spec_factor_halves(),
    {
        if self.slow {
            (10, 40)
        } else {
            (1, 4)
        }
    }

    /// The request with the latency and the status that were drawn.
    pub fn finish(self, latency_bits: u32, status: u16) -> (e: RequestEvent)
        ensures
            e == (RequestEvent {
                ts_ms: self.ts_ms,
                endpoint: self.endpoint,
                status,
                latency_bits,
            }),
    {
        RequestEvent { ts_ms: self.ts_ms, endpoint: self.endpoint, status, latency_bits }
    }
}

/// Draws with the function given, and says with which use of the generator.
fn draw<A, B, F: FnOnce(&mut StdRng, A) -> B>(f: F, rng: &mut StdRng, a: A) -> (b: B)
    requires
        forall|r: &mut StdRng| #[trigger] call_requires(f, (r, a)),
    ensures
        exists|r: &mut StdRng|
            *r == *old(rng) && *final(r) == *final(rng) && #[trigger] call_ensures(f, (r, a), b),
{
    f(rng, a)
}

/// Draws the endpoint of request number `seq`, one as likely as the other, and then whether it is
/// slow, with a chance of two in a hundred. Nothing else is drawn. Which come out rests with the
/// generator.
pub fn draft_event(seq: u64, rng: &mut StdRng) -> (d: EventDraft)
    ensures
        exists|i: usize, first: &mut StdRng, second: &mut StdRng, slow: bool|
            {
                &&& *first == *old(rng)
                &&& #[trigger] draws_below_by(first, ENDPOINT_COUNT, i)
                &&& i < ENDPOINT_COUNT
                &&& *second == *final(first)
                &&& #[trigger] draws_chance_by(second, 2, 100, slow)
                &&& *final(second) == *final(rng)
                &&& d == EventDraft::of(seq, i as int, slow)
            },
{
    assert(forall|r: &mut StdRng, i: usize| #[trigger]
        call_ensures(draw_below, (r, ENDPOINT_COUNT), i) ==> draws_below_by(r, ENDPOINT_COUNT, i));
    assert(forall|r: &mut StdRng, hit: bool| #[trigger]
        call_ensures(chance, (r, (2u32, 100u32)), hit) ==> draws_chance_by(r, 2, 100, hit));
    let i: usize = draw(draw_below, rng, ENDPOINT_COUNT);
    let slow: bool = draw(chance, rng, (2, 100));
    EventDraft::new(seq, i, slow)
}

/// The status of a request that failed on one side or the other, or did not.
pub fn status_of(server_error: bool, client_error: bool) -> (status: u16)
    ensures
        status == if server_error {
            500u16
        } else if client_error {
            404
        } else {
            200
        },
{
    if server_error {
        500
    } else if client_error {
        404
    } else {
        200
    }
}

/// Draws the status of a request: a failure of the service with a chance of three in a hundred,
/// and otherwise a wrong request with a chance of five in a hundred. Which comes out rests with
/// the generator.
pub fn draw_status(rng: &mut StdRng) -> (status: u16)
    ensures
        status == 500 || status == 404 || status == 200,
        exists|first: &mut StdRng, failed: bool|
            {
                &&& *first == *old(rng)
                &&& #[trigger] draws_chance_by(first, 3, 100, failed)
                &&& failed == (status == 500)
                &&& if failed {
                    *final(first) == *final(rng)
                } else {
                    exists|second: &mut StdRng, wrong: bool|
                        {
                            &&& *second == *final(first)
                            &&& #[trigger] draws_chance_by(second, 5, 100, wrong)
                            &&& wrong == (status == 404)
                            &&& *final(second) == *final(rng)
                        }
                }
            },
{
    assert(forall|r: &mut StdRng, hit: bool| #[trigger]
        call_ensures(chance, (r, (3u32, 100u32)), hit) ==> draws_chance_by(r, 3, 100, hit));
    assert(forall|r: &mut StdRng, hit: bool| #[trigger]
        call_ensures(chance, (r, (5u32, 100u32)), hit) ==> draws_chance_by(r, 5, 100, hit));
    let server_error: bool = draw(chance, rng, (3, 100));
    let mut client_error: bool = false;
    if !server_error {
        client_error = draw(chance, rng, (5, 100));
    }
    status_of(server_error, client_error)
}

/// Whatever is drawn, the validator lets the request through: a latency within the bounds that
/// its draft gives is above zero and no more than a minute.
pub proof fn law_drawn_latencies_are_valid(seq: u64, i: int, slow: bool, latency_bits: u32)
    requires
        0 <= i < ENDPOINT_COUNT,
        !ieee::single_is_nan(latency_bits),
        ({
            let d = EventDraft::of(seq, i, slow);
            let (low, high) = d.spec_factor_halves();
            let unit = vstd::arithmetic::power2::pow2(149);
            d.base_ms * low * unit <= 2 * ieee::single_value(latency_bits) <= d.base_ms * high
                * unit
        }),
    ensures
        ieee::single_value(latency_bits) > 0,
        !monitor::is_invalid(latency_bits),
{
    let d = EventDraft::of(seq, i, slow);
    let (low, high) = d.spec_factor_halves();
    let base = d.base_ms;
    let unit = vstd::arithmetic::power2::pow2(149) as int;
    vstd::arithmetic::power2::lemma_pow2_pos(149);
    assert(0 < base * low <= base * high <= 2 * 60_000) by (nonlinear_arith)
        requires
            15 <= base <= 80,
            (low == 10 && high == 40) || (low == 1 && high == 4),
    ;
    assert(0 < base * low * unit && base * high * unit <= 2 * (60_000 * unit))
        by (nonlinear_arith)
        requires
            unit > 0,
            0 < base * low,
            base * high <= 2 * 60_000,
    ;
    monitor::law_valid_latencies(latency_bits);
}

/// The number of a request decides on its time and on nothing else.
pub proof fn law_the_number_is_the_time(a: u64, b: u64, i: int, slow: bool)
    ensures
        EventDraft::of(a, i, slow).ts_ms == a,
        (EventDraft { ts_ms: b, ..EventDraft::of(a, i, slow) }) == EventDraft::of(b, i, slow),
{
}

/// A draft goes to one of the seven endpoints. Searching usually takes eighty milliseconds, orders
/// fifty, products thirty and all else fifteen; a slow request takes five to twenty times as long,
/// any other one half to twice as long.
pub proof fn law_drafts(seq: u64, i: int, slow: bool)
    requires
        0 <= i < 7,
    ensures
        ({
            let d = EventDraft::of(seq, i, slow);
            let names = seq![
                "/api/v1/users"@,
                "/api/v1/orders"@,
                "/api/v1/products"@,
                "/api/v1/search"@,
                "/api/v1/cart"@,
                "/health"@,
                "/metrics"@,
            ];
            let (low, high) = d.spec_factor_halves();
            &&& d.endpoint@ == names[i]
            &&& d.slow == slow
            &&& d.base_ms == if i == 3 {
                80
            } else if i == 1 {
                50
            } else if i == 2 {
                30
            } else {
                15int
            }
            &&& slow ==> low == 2 * 5 && high == 2 * 20
            &&& !slow ==> 2 * low == 2 && high == 2 * 2
        }),
{
    if i < 1 {
        law_endpoints_differ(i, 1);
    } else if i > 1 {
        law_endpoints_differ(1, i);
    }
    if i < 2 {
        law_endpoints_differ(i, 2);
    } else if i > 2 {
        law_endpoints_differ(2, i);
    }
    if i < 3 {
        law_endpoints_differ(i, 3);
    } else if i > 3 {
        law_endpoints_differ(3, i);
    }
}

/// No two endpoints have the same name.
pub proof fn law_endpoints_differ(i: int, j: int)
    requires
        0 <= i < j < ENDPOINT_COUNT,
    ensures
        spec_endpoint(i)@ != spec_endpoint(j)@,
{
    reveal_strlit("/api/v1/users");
    reveal_strlit("/api/v1/orders");
    reveal_strlit("/api/v1/products");
    reveal_strlit("/api/v1/search");
    reveal_strlit("/api/v1/cart");
    reveal_strlit("/health");
    reveal_strlit("/metrics");
    let (a, b) = (spec_endpoint(i)@, spec_endpoint(j)@);
    assert(a.len() != b.len() || a[8] != b[8] || a[1] != b[1]);
}

/// Of the endpoints that requests go to, exactly the last two serve the monitoring of the service
/// itself.
pub proof fn law_health_endpoints(i: int)
    requires
        0 <= i < ENDPOINT_COUNT,
    ensures
        monitor::is_health(spec_endpoint(i)@) <==> i >= 5,
{
    if i < 5 {
        law_endpoints_differ(i, 5);
        law_endpoints_differ(i, 6);
    }
}

} // verus!
