//! A monitor of web requests: it checks request events, takes their latency per endpoint and
//! window, and raises alerts.
//!
//! Latencies and what is computed from them are floating-point numbers. They are carried here as
//! their bits, and compared by what these stand for (see `ieee`).
pub mod detector;
pub mod generator;
pub mod history;
pub mod report;
pub mod stats;

use vstd::prelude::*;
use vstd::string::StringExecFns;

use crate::ieee;
use crate::operator::relay;
use crate::operator::{Process, ProcessResult};

pub use self::detector::{Alert, AnomalyDetector, WindowedStats};
pub use self::stats::EndpointStats;

verus! {

/// A request that was answered.
#[derive(Clone, Copy, Debug)]
pub struct RequestEvent {
    pub ts_ms: u64,
    pub endpoint: &'static str,
    pub status: u16,
    /// The latency in milliseconds: the bits of a single-precision number.
    pub latency_bits: u32,
}

/// A request whose latency is plausible.
#[derive(Clone, Copy, Debug)]
pub struct ValidEvent(pub RequestEvent);

/// The bits of single-precision zero, and of 60000, 500 and 200.
pub const ZERO_MS: u32 = 0;

pub const MAX_VALID_MS: u32 = 0x476a_6000;

pub const SPIKE_MS: u32 = 0x43fa_0000;

pub const HIGH_MS: u32 = 0x4348_0000;

/// `<str as PartialEq>::eq`: whether two texts are the same, character by character.
#[verifier::external_body]
pub(crate) fn same_text(a: &str, b: &str) -> (same: bool)
    ensures
        same == (a@ == b@),
{
    a == b
}

/// Whether an endpoint serves the monitoring of the service itself.
pub open spec fn is_health(endpoint: Seq<char>) -> bool {
    endpoint == "/health"@ || endpoint == "/metrics"@
}

/// Whether an endpoint serves the monitoring of the service itself.
pub fn is_health_endpoint(endpoint: &str) -> (yes: bool)
    ensures
        yes == is_health(endpoint@),
{
    same_text(endpoint, "/health") || same_text(endpoint, "/metrics")
}

/// Whether a latency is implausible: below zero or above a minute.
pub open spec fn is_invalid(latency_bits: u32) -> bool {
    ieee::single_exceeds(ZERO_MS, latency_bits) || ieee::single_exceeds(latency_bits, MAX_VALID_MS)
}

/// Lets requests with a plausible latency through.
pub struct Validator<F: Fn(u32) -> String + Send + 'static> {
    /// How a latency is written out, given its bits.
    pub show: F,
}

impl<F: Fn(u32) -> String + Send + 'static> Process for Validator<F> {
    type Input = RequestEvent;

    type Output = ValidEvent;

    /// Any request whose latency can be written out.
    open spec fn accepts(&self, e: RequestEvent) -> bool {
        call_requires(self.show, (e.latency_bits,))
    }

    /// An implausible latency is an error that says which it is, and all else passes unchanged.
    open spec fn answers(
        &self,
        e: RequestEvent,
        r: ProcessResult<ValidEvent>,
        after: &Self,
    ) -> bool {
        &&& after == self
        &&& if is_invalid(e.latency_bits) {
            r matches ProcessResult::Error(reason) && exists|shown: String| #[trigger]
                call_ensures(self.show, (e.latency_bits,), shown) && reason@ == "invalid latency "@
                    + shown@
        } else {
            r == ProcessResult::EmitOne(ValidEvent(e))
        }
    }

    fn process(&mut self, e: RequestEvent) -> (r: ProcessResult<ValidEvent>) {
        if ieee::exceeds_single(ZERO_MS, e.latency_bits) || ieee::exceeds_single(
            e.latency_bits,
            MAX_VALID_MS,
        ) {
            let shown: String = (self.show)(e.latency_bits);
            let mut reason: String = "invalid latency ".to_owned();
            reason.append(shown.as_str());
            ProcessResult::Error(reason)
        } else {
            ProcessResult::EmitOne(ValidEvent(e))
        }
    }
}

/// The validator lets a request through unchanged exactly where its latency is plausible, and
/// otherwise reports the latency. It is left as it was.
pub proof fn law_validator_judges_the_latency<F: Fn(u32) -> String + Send + 'static>(
    v: Validator<F>,
    e: RequestEvent,
    r: ProcessResult<ValidEvent>,
    after: Validator<F>,
)
    ensures
        v.accepts(e) == call_requires(v.show, (e.latency_bits,)),
        v.answers(e, r, &after) ==> {
            &&& after == v
            &&& r == ProcessResult::EmitOne(ValidEvent(e)) <==> !is_invalid(e.latency_bits)
            &&& r is Error <==> is_invalid(e.latency_bits)
            &&& r matches ProcessResult::Error(reason) ==> exists|shown: String| #[trigger]
                call_ensures(v.show, (e.latency_bits,), shown) && reason@ == "invalid latency "@
                    + shown@
        },
{
}

/// A validator that can write out every latency can be given any number of requests.
pub proof fn law_validator_accepts_next<F: Fn(u32) -> String + Send + 'static>(
    v: Validator<F>,
    n: nat,
)
    requires
        forall|bits: u32| #[trigger] call_requires(v.show, (bits,)),
    ensures
        relay::accepts_next(v, n),
    decreases n,
{
    if n > 0 {
        assert forall|e: RequestEvent, r: ProcessResult<ValidEvent>, after: Validator<F>| #[trigger]
            v.answers(e, r, &after) implies relay::accepts_next(after, (n - 1) as nat) by {
            law_validator_accepts_next(after, (n - 1) as nat);
        }
    }
}

/// Drops the requests that monitor the service itself.
pub struct HealthFilter;

impl Process for HealthFilter {
    type Input = ValidEvent;

    type Output = ValidEvent;

    open spec fn accepts(&self, e: ValidEvent) -> bool {
        true
    }

    /// What is not dropped passes unchanged.
    open spec fn answers(
        &self,
        e: ValidEvent,
        r: ProcessResult<ValidEvent>,
        after: &Self,
    ) -> bool {
        if is_health(e.0.endpoint@) {
            r is Drop
        } else {
            r == ProcessResult::EmitOne(e)
        }
    }

    fn process(&mut self, e: ValidEvent) -> (r: ProcessResult<ValidEvent>) {
        if is_health_endpoint(e.0.endpoint) {
            ProcessResult::Drop
        } else {
            ProcessResult::EmitOne(e)
        }
    }
}

/// The filter drops a request exactly if it went to `/health` or `/metrics`, and lets every other
/// one through unchanged.
pub proof fn law_filter_drops_monitoring(
    f: HealthFilter,
    e: ValidEvent,
    r: ProcessResult<ValidEvent>,
    after: HealthFilter,
)
    requires
        f.answers(e, r, &after),
    ensures
        f.accepts(e),
        r is Drop <==> e.0.endpoint@ == "/health"@ || e.0.endpoint@ == "/metrics"@,
        !(r is Drop) ==> r == ProcessResult::EmitOne(e),
{
}

/// What gets through the validator has a latency of zero to sixty thousand milliseconds, or none
/// at all; and all such latencies get through.
pub proof fn law_valid_latencies(latency_bits: u32)
    ensures
        !is_invalid(latency_bits) <==> ieee::single_is_nan(latency_bits) || 0
            <= ieee::single_value(latency_bits) <= 60_000
            * vstd::arithmetic::power2::pow2(149),
{
    law_limits();
}

/// The limits stand for zero, sixty thousand, five hundred and two hundred milliseconds.
pub proof fn law_limits()
    ensures
        !ieee::single_is_nan(ZERO_MS),
        ieee::single_value(ZERO_MS) == 0,
        !ieee::single_is_nan(MAX_VALID_MS),
        ieee::single_value(MAX_VALID_MS) == 60_000 * vstd::arithmetic::power2::pow2(149),
        !ieee::single_is_nan(SPIKE_MS),
        ieee::single_value(SPIKE_MS) == 500 * vstd::arithmetic::power2::pow2(149),
        !ieee::single_is_nan(HIGH_MS),
        ieee::single_value(HIGH_MS) == 200 * vstd::arithmetic::power2::pow2(149),
{
    vstd::arithmetic::power2::lemma2_to64();
    let p = |n: nat| vstd::arithmetic::power2::pow2(n);
    vstd::arithmetic::power2::lemma_pow2_adds(132, 9);
    vstd::arithmetic::power2::lemma_pow2_adds(132, 2);
    vstd::arithmetic::power2::lemma_pow2_adds(132, 1);
    vstd::arithmetic::power2::lemma_pow2_adds(132, 17);
    assert(0x476a_6000int / 0x80_0000 == 142 && 0x476a_6000int % 0x80_0000 == 0x6a_6000);
    assert(0x43fa_0000int / 0x80_0000 == 135 && 0x43fa_0000int % 0x80_0000 == 0x7a_0000);
    assert(0x4348_0000int / 0x80_0000 == 134 && 0x4348_0000int % 0x80_0000 == 0x48_0000);
    let (a, b) = (p(132), p(149));
    assert(p(141) == 512 * a && p(134) == 4 * a && p(133) == 2 * a && b == 131072 * a);
    assert((0x80_0000 + 0x6a_6000) * (512 * a) == 60_000 * (131072 * a)) by (nonlinear_arith);
    assert((0x80_0000 + 0x7a_0000) * (4 * a) == 500 * (131072 * a)) by (nonlinear_arith);
    assert((0x80_0000 + 0x48_0000) * (2 * a) == 200 * (131072 * a)) by (nonlinear_arith);
}

} // verus!
