//! Latencies counted in buckets that double in width.
use std::time::{Duration, Instant};
use vstd::prelude::*;

use crate::time;

verus! {

/// The number of buckets.
pub const BUCKETS: usize = 32;

/// The least latency in nanoseconds that bucket `i` counts.
pub open spec fn bucket_floor(i: int) -> nat {
    if i == 0 {
        0
    } else {
        vstd::arithmetic::power2::pow2((i - 1) as nat)
    }
}

/// Whether bucket `i` counts a latency of `ns` nanoseconds: the first bucket counts nothing but
/// zero, every other one what lies from its floor up to the next one's, and the last one all
/// that is longer as well.
pub open spec fn in_bucket(ns: u64, i: int) -> bool {
    &&& 0 <= i < BUCKETS
    &&& bucket_floor(i) <= ns
    &&& i < BUCKETS - 1 ==> ns < bucket_floor(i + 1)
}

/// The sum of the first `n` counts.
pub open spec fn cumulative(counts: Seq<u64>, n: int) -> nat
    decreases n,
{
    if n <= 0 {
        0
    } else {
        cumulative(counts, n - 1) + counts[n - 1] as nat
    }
}

/// Whether bucket `i` is the first by which the counts have reached `target`.
pub open spec fn reaches(counts: Seq<u64>, target: u64, i: int) -> bool {
    &&& 0 <= i < counts.len()
    &&& cumulative(counts, i + 1) >= target
    &&& forall|j: int| 0 <= j < i ==> #[trigger] cumulative(counts, j + 1) < target
}

proof fn lemma_bit_length(ns: u64)
    requires
        ns > 0,
    ensures
        ({
            let bits = 64 - vstd::std_specs::bits::u64_leading_zeros(ns);
            &&& 1 <= bits <= 64
            &&& vstd::arithmetic::power2::pow2((bits - 1) as nat) <= ns
            &&& ns < vstd::arithmetic::power2::pow2(bits as nat)
        }),
    decreases ns,
{
    reveal(vstd::std_specs::bits::u64_leading_zeros);
    vstd::std_specs::bits::axiom_u64_leading_zeros(ns);
    let bits = 64 - vstd::std_specs::bits::u64_leading_zeros(ns);
    vstd::arithmetic::power2::lemma2_to64();
    if ns > 1 {
        lemma_bit_length(ns / 2);
        vstd::arithmetic::power2::lemma_pow2_unfold((bits - 1) as nat);
        vstd::arithmetic::power2::lemma_pow2_unfold(bits as nat);
    } else {
        reveal_with_fuel(vstd::std_specs::bits::u64_leading_zeros, 2);
    }
}

/// A latency is counted in one bucket only.
pub proof fn law_one_bucket_counts(ns: u64, i: int, j: int)
    requires
        in_bucket(ns, i),
        in_bucket(ns, j),
    ensures
        i == j,
{
    if i < j {
        lemma_floors_increase(i + 1, j);
    }
    if j < i {
        lemma_floors_increase(j + 1, i);
    }
}

proof fn lemma_floors_increase(i: int, j: int)
    requires
        0 <= i <= j,
    ensures
        bucket_floor(i) <= bucket_floor(j),
{
    if 0 < i < j {
        vstd::arithmetic::power2::lemma_pow2_strictly_increases((i - 1) as nat, (j - 1) as nat);
    }
}

proof fn lemma_cumulative_update(counts: Seq<u64>, i: int, v: u64, n: int)
    requires
        0 <= i < counts.len(),
        0 <= n <= counts.len(),
    ensures
        cumulative(counts.update(i, v), n) == cumulative(counts, n) + if i < n {
            v - counts[i]
        } else {
            0
        },
    decreases n,
{
    if n > 0 {
        lemma_cumulative_update(counts, i, v, n - 1);
    }
}

proof fn lemma_cumulative_grows(counts: Seq<u64>, m: int, n: int)
    requires
        0 <= m <= n <= counts.len(),
    ensures
        cumulative(counts, m) <= cumulative(counts, n),
    decreases n,
{
    if m < n {
        lemma_cumulative_grows(counts, m, n - 1);
    }
}

/// A higher rank never gives a shorter latency.
pub proof fn law_percentiles_are_ordered(counts: Seq<u64>, low: u64, high: u64, i: int, j: int)
    requires
        low <= high,
        reaches(counts, low, i),
        reaches(counts, high, j),
    ensures
        i <= j,
        bucket_floor(i) <= bucket_floor(j),
{
    if j < i {
        assert(cumulative(counts, j + 1) < low);
    }
    lemma_floors_increase(i, j);
}

/// The number of latencies that bucket `i` counts.
pub open spec fn tally(latencies: Seq<u64>, i: int) -> nat
    decreases latencies.len(),
{
    if latencies.len() == 0 {
        0
    } else {
        tally(latencies.drop_last(), i) + if in_bucket(latencies.last(), i) {
            1nat
        } else {
            0
        }
    }
}

/// The sum of latencies.
pub open spec fn sum(latencies: Seq<u64>) -> nat
    decreases latencies.len(),
{
    if latencies.len() == 0 {
        0
    } else {
        sum(latencies.drop_last()) + latencies.last() as nat
    }
}

/// Whether a bucket before bucket `n` counts a latency.
spec fn is_below(ns: u64, n: int) -> bool {
    n >= BUCKETS || ns < bucket_floor(n)
}

/// The number of latencies that the buckets before bucket `n` count.
spec fn below(latencies: Seq<u64>, n: int) -> nat
    decreases latencies.len(),
{
    if latencies.len() == 0 {
        0
    } else {
        below(latencies.drop_last(), n) + if is_below(latencies.last(), n) {
            1nat
        } else {
            0
        }
    }
}

proof fn lemma_below_next(latencies: Seq<u64>, n: int)
    requires
        0 <= n < BUCKETS,
    ensures
        below(latencies, n + 1) == below(latencies, n) + tally(latencies, n),
        below(latencies, 0) == 0,
    decreases latencies.len(),
{
    if latencies.len() > 0 {
        lemma_below_next(latencies.drop_last(), n);
        lemma_floors_increase(n, n + 1);
    }
}

proof fn lemma_cumulative_is_below(counts: Seq<u64>, latencies: Seq<u64>, n: int)
    requires
        0 <= n <= BUCKETS,
        forall|i: int| 0 <= i < BUCKETS ==> #[trigger] counts[i] == tally(latencies, i),
    ensures
        cumulative(counts, n) == below(latencies, n),
    decreases n,
{
    if n > 0 {
        lemma_cumulative_is_below(counts, latencies, n - 1);
        lemma_below_next(latencies, n - 1);
        assert(counts[n - 1] == tally(latencies, n - 1));
    } else {
        lemma_below_next(latencies, 0);
    }
}

proof fn lemma_below_bounds(latencies: Seq<u64>, n: int, r: int)
    requires
        0 <= r <= latencies.len(),
    ensures
        (forall|j: int| 0 <= j < r ==> is_below(#[trigger] latencies[j], n)) ==> below(latencies, n)
            >= r,
        (forall|j: int| r <= j < latencies.len() ==> !is_below(#[trigger] latencies[j], n))
            ==> below(latencies, n) <= r,
        below(latencies, n) <= latencies.len(),
    decreases latencies.len(),
{
    if latencies.len() > 0 {
        let rest = latencies.drop_last();
        let last = latencies.len() - 1;
        let q = if r > last {
            last
        } else {
            r
        };
        lemma_below_bounds(rest, n, q);
        assert(latencies[last] == latencies.last());
        assert(forall|j: int| 0 <= j < rest.len() ==> #[trigger] rest[j] == latencies[j]);
    }
}

/// How many latencies a bucket counts does not depend on their order.
proof fn lemma_tally_ignores_order(a: Seq<u64>, b: Seq<u64>, i: int)
    requires
        a.to_multiset() == b.to_multiset(),
    ensures
        tally(a, i) == tally(b, i),
    decreases a.len(),
{
    broadcast use vstd::seq_lib::group_to_multiset_ensures;

    assert(a.len() == a.to_multiset().len() && b.len() == b.to_multiset().len());
    if a.len() > 0 {
        let last = a.last();
        assert(a.to_multiset().contains(last));
        assert(b.contains(last));
        let k = b.index_of(last);
        assert(a.drop_last() =~= a.remove(a.len() - 1));
        assert(a.drop_last().to_multiset() =~= b.remove(k).to_multiset());
        lemma_tally_ignores_order(a.drop_last(), b.remove(k), i);
        lemma_tally_without(b, i, k);
    }
}

proof fn lemma_tally_without(latencies: Seq<u64>, i: int, k: int)
    requires
        0 <= k < latencies.len(),
    ensures
        tally(latencies, i) == tally(latencies.remove(k), i) + if in_bucket(latencies[k], i) {
            1nat
        } else {
            0
        },
    decreases latencies.len(),
{
    if k < latencies.len() - 1 {
        lemma_tally_without(latencies.drop_last(), i, k);
        assert(latencies.remove(k).drop_last() =~= latencies.drop_last().remove(k));
        assert(latencies.remove(k).last() == latencies.last());
    } else {
        assert(latencies.remove(k) =~= latencies.drop_last());
    }
}

/// Every latency is counted in some bucket.
proof fn lemma_some_bucket_counts(ns: u64) -> (i: int)
    ensures
        in_bucket(ns, i),
{
    vstd::arithmetic::power2::lemma2_to64();
    if ns == 0 {
        0
    } else {
        lemma_bit_length(ns);
        let bits = 64 - vstd::std_specs::bits::u64_leading_zeros(ns);
        if bits > 31 {
            vstd::arithmetic::power2::lemma_pow2_strictly_increases(30, (bits - 1) as nat);
            31
        } else {
            bits
        }
    }
}

/// A bucket stands for a latency by the largest power of two that is not above it, up to 2^30; the
/// first bucket stands for none.
pub proof fn law_bucket_stands_for_a_power_of_two(ns: u64, i: int)
    requires
        in_bucket(ns, i),
    ensures
        ns == 0 ==> bucket_floor(i) == 0,
        0 < ns < 0x4000_0000 ==> bucket_floor(i) <= ns < 2 * bucket_floor(i),
        ns >= 0x4000_0000 ==> bucket_floor(i) == 0x4000_0000,
        ns > 0 ==> exists|k: nat| bucket_floor(i) == #[trigger] vstd::arithmetic::power2::pow2(k),
{
    vstd::arithmetic::power2::lemma2_to64();
    if i > 0 {
        vstd::arithmetic::power2::lemma_pow2_pos((i - 1) as nat);
        lemma_floor_doubles(i);
        if i < 31 && ns >= 0x4000_0000 {
            lemma_floors_increase(i + 1, 31);
        }
        if i == 31 {
            assert(bucket_floor(31) == vstd::arithmetic::power2::pow2(30));
        }
        assert(bucket_floor(i) == vstd::arithmetic::power2::pow2((i - 1) as nat));
    } else {
        assert(bucket_floor(1) == vstd::arithmetic::power2::pow2(0));
    }
}

/// The histogram of recorded latencies reaches a rank at the bucket that counts the latency of
/// that rank: where `ascending` lists the same latencies in ascending order, it is the bucket of
/// the one at place `rank`, counted from one.
pub proof fn law_percentile_is_a_rank(
    h: LatencyHistogram,
    latencies: Seq<u64>,
    ascending: Seq<u64>,
    rank: u64,
    i: int,
)
    requires
        h.describes(latencies),
        ascending.to_multiset() == latencies.to_multiset(),
        forall|j: int, k: int| 0 <= j <= k < ascending.len() ==> ascending[j] <= ascending[k],
        1 <= rank <= ascending.len(),
        reaches(h.counts(), rank, i),
    ensures
        in_bucket(ascending[rank - 1], i),
{
    let counts = h.counts();
    let e = ascending[rank - 1];
    let b = lemma_some_bucket_counts(e);
    assert forall|k: int| 0 <= k < BUCKETS implies #[trigger] counts[k] == tally(ascending, k) by {
        lemma_tally_ignores_order(latencies, ascending, k);
    }
    if i < b {
        lemma_cumulative_is_below(counts, ascending, i + 1);
        lemma_floors_increase(i + 1, b);
        assert forall|j: int| rank - 1 <= j < ascending.len() implies !is_below(
            #[trigger] ascending[j],
            i + 1,
        ) by {
            assert(ascending[rank - 1] <= ascending[j]);
        }
        lemma_below_bounds(ascending, i + 1, rank - 1);
    }
    if b < i {
        lemma_cumulative_is_below(counts, ascending, b + 1);
        assert forall|j: int| 0 <= j < rank implies is_below(#[trigger] ascending[j], b + 1) by {
            assert(ascending[j] <= ascending[rank - 1]);
        }
        lemma_below_bounds(ascending, b + 1, rank as int);
        assert(cumulative(counts, b + 1) < rank);
    }
}

/// The mean is the sum of what was recorded by its number, in whole nanoseconds, as long as the
/// sum does not wrap around.
pub proof fn law_mean_is_of_what_was_recorded(h: LatencyHistogram, latencies: Seq<u64>)
    requires
        h.describes(latencies),
        latencies.len() > 0,
        sum(latencies) <= u64::MAX,
    ensures
        h.spec_mean_ns() == sum(latencies) as int / latencies.len() as int,
{
}

/// One more latency is one more of what is recorded, as long as their number can be represented.
pub proof fn law_records_join(
    before: LatencyHistogram,
    latencies: Seq<u64>,
    latency: Duration,
    after: LatencyHistogram,
)
    requires
        before.describes(latencies),
        before.gains(latency, &after),
        latencies.len() < u64::MAX,
    ensures
        after.describes(latencies.push(time::duration_nanos(latency) as u64)),
{
    let ns = time::duration_nanos(latency) as u64;
    let all = latencies.push(ns);
    assert(all.drop_last() =~= latencies);
    vstd::arithmetic::div_mod::lemma_add_mod_noop(
        sum(latencies) as int,
        ns as int,
        0x1_0000_0000_0000_0000,
    );
    let b = choose|i: int| #[trigger]
        in_bucket(ns, i) && after.counts() == before.counts().update(
            i,
            before.counts()[i].wrapping_add(1),
        );
    assert forall|i: int| 0 <= i < BUCKETS implies #[trigger] after.counts()[i] == tally(
        all,
        i,
    ) by {
        assert(before.counts()[i] == tally(latencies, i));
        lemma_tally_len(latencies, i);
        if in_bucket(ns, i) {
            law_one_bucket_counts(ns, i, b);
        }
    }
}

proof fn lemma_tally_len(latencies: Seq<u64>, i: int)
    ensures
        tally(latencies, i) <= latencies.len(),
    decreases latencies.len(),
{
    if latencies.len() > 0 {
        lemma_tally_len(latencies.drop_last(), i);
    }
}

/// Latencies counted in buckets that double in width: `[0, 1)`, `[1, 2)`, `[2, 4)` and so on, in
/// nanoseconds. Every counter wraps around at its upper end.
pub struct LatencyHistogram {
    buckets: [u64; 32],
    count: u64,
    sum_ns: u64,
}

impl LatencyHistogram {
    /// The count of each bucket.
    pub closed spec fn counts(&self) -> Seq<u64> {
        self.buckets@
    }

    /// The number of latencies recorded.
    pub closed spec fn spec_count(&self) -> u64 {
        self.count
    }

    /// The sum of the latencies recorded.
    pub closed spec fn spec_sum_ns(&self) -> u64 {
        self.sum_ns
    }

    /// The buckets count every latency once.
    pub open spec fn wf(&self) -> bool {
        &&& self.counts().len() == BUCKETS
        &&& cumulative(self.counts(), BUCKETS as int) == self.spec_count()
    }

    /// Whether exactly these latencies were recorded. Their sum may have wrapped around.
    pub open spec fn describes(&self, latencies: Seq<u64>) -> bool {
        &&& self.spec_count() == latencies.len()
        &&& self.spec_sum_ns() == sum(latencies) % 0x1_0000_0000_0000_0000
        &&& self.counts().len() == BUCKETS
        &&& forall|i: int| 0 <= i < BUCKETS ==> #[trigger] self.counts()[i] == tally(latencies, i)
    }

    /// The mean latency in whole nanoseconds. Zero where nothing is recorded.
    pub open spec fn spec_mean_ns(&self) -> int {
        if self.spec_count() == 0 {
            0
        } else {
            self.spec_sum_ns() as int / self.spec_count() as int
        }
    }

    /// Whether `after` is the histogram with one more latency: counted once, added to the sum,
    /// and one more in its bucket.
    pub open spec fn gains(&self, latency: Duration, after: &Self) -> bool {
        let ns = time::duration_nanos(latency) as u64;
        &&& after.spec_count() == self.spec_count().wrapping_add(1)
        &&& after.spec_sum_ns() == self.spec_sum_ns().wrapping_add(ns)
        &&& exists|i: int| #[trigger]
            in_bucket(ns, i) && after.counts() == self.counts().update(
                i,
                self.counts()[i].wrapping_add(1),
            )
    }

    /// Nothing is recorded.
    pub fn new() -> (h: Self)
        ensures
            h.wf(),
            h.counts() == Seq::new(BUCKETS as nat, |i: int| 0u64),
            h.spec_count() == 0,
            h.spec_sum_ns() == 0,
            h.describes(Seq::empty()),
    {
        let h = LatencyHistogram { buckets: [0u64; 32], count: 0, sum_ns: 0 };
        assert(h.counts() =~= Seq::new(BUCKETS as nat, |i: int| 0u64));
        proof {
            lemma_no_counts(h.counts(), BUCKETS as int);
        }
        h
    }

    /// Counts a latency in its bucket.
    pub fn record(&mut self, latency: Duration)
        ensures
            old(self).gains(latency, final(self)),
            old(self).wf() && old(self).spec_count() < u64::MAX ==> final(self).wf(),
    {
        let ns: u64 = latency.as_nanos() as u64;
        self.sum_ns = self.sum_ns.wrapping_add(ns);
        self.count = self.count.wrapping_add(1);
        let length: u32 = if ns == 0 {
            0
        } else {
            64 - ns.leading_zeros()
        };
        let bucket: usize = if length < 31 {
            length as usize
        } else {
            31
        };
        proof {
            vstd::arithmetic::power2::lemma2_to64();
            if ns > 0 {
                lemma_bit_length(ns);
                if length > 31 {
                    vstd::arithmetic::power2::lemma_pow2_strictly_increases(
                        30,
                        (length - 1) as nat,
                    );
                }
            }
            assert(in_bucket(ns, bucket as int));
            assert(self.counts().len() == BUCKETS);
            lemma_cumulative_update(
                self.counts(),
                bucket as int,
                self.buckets[bucket as int].wrapping_add(1),
                BUCKETS as int,
            );
            lemma_cumulative_grows(self.counts(), bucket as int + 1, BUCKETS as int);
        }
        self.buckets[bucket] = self.buckets[bucket].wrapping_add(1);
    }

    /// The floor of the first bucket by which `target` latencies are counted: a lower bound of
    /// the latency of that rank. Zero where nothing is recorded, and the floor of the last bucket
    /// where fewer are counted.
    pub fn percentile(&self, target: u64) -> (d: Duration)
        ensures
            self.spec_count() == 0 ==> time::duration_nanos(d) == 0,
            self.spec_count() != 0 && cumulative(self.counts(), BUCKETS as int) < target
                ==> time::duration_nanos(d) == bucket_floor(BUCKETS - 1),
            self.spec_count() != 0 && cumulative(self.counts(), BUCKETS as int) >= target
                ==> exists|i: int| #[trigger]
                reaches(self.counts(), target, i) && time::duration_nanos(d) == bucket_floor(i),
    {
        proof {
            vstd::arithmetic::power2::lemma2_to64();
        }
        if self.count == 0 {
            return Duration::from_nanos(0);
        }
        let mut seen: u128 = 0;
        let mut floor: u64 = 0;
        let mut i: usize = 0;
        while i < 32
            invariant
                0 <= i <= 32,
                self.counts().len() == 32,
                seen == cumulative(self.counts(), i as int),
                seen <= i * u64::MAX,
                self.count != 0,
                i < 32 ==> floor == bucket_floor(i as int),
                forall|j: int| 0 <= j < i ==> #[trigger] cumulative(self.counts(), j + 1) < target,
            decreases 32 - i,
        {
            seen = seen + self.buckets[i] as u128;
            if seen >= target as u128 {
                proof {
                    assert(reaches(self.counts(), target, i as int));
                    lemma_cumulative_grows(self.counts(), i + 1, 32);
                }
                return Duration::from_nanos(floor);
            }
            proof {
                lemma_floor_doubles(i as int);
            }
            if i < 31 {
                floor = if i == 0 {
                    1
                } else {
                    floor * 2
                };
            }
            i = i + 1;
        }
        assert(cumulative(self.counts(), 31int + 1) < target);
        Duration::from_nanos(0x4000_0000)
    }

    /// The number of latencies recorded.
    pub fn count(&self) -> (n: u64)
        ensures
            n == self.spec_count(),
    {
        self.count
    }

    /// The mean latency in whole nanoseconds. Zero where nothing is recorded.
    pub fn mean(&self) -> (d: Duration)
        ensures
            time::duration_nanos(d) == self.spec_mean_ns(),
    {
        if self.count == 0 {
            Duration::from_nanos(0)
        } else {
            Duration::from_nanos(self.sum_ns / self.count)
        }
    }
}

impl Default for LatencyHistogram {
    fn default() -> (h: Self)
        ensures
            h.wf(),
            h.counts() == Seq::new(BUCKETS as nat, |i: int| 0u64),
            h.spec_count() == 0,
            h.spec_sum_ns() == 0,
            h.describes(Seq::empty()),
    {
        Self::new()
    }
}

/// Takes the time from its making to its end and records it.
pub struct TimedScope<'a> {
    pub histogram: &'a mut LatencyHistogram,
    pub start: Instant,
}

impl<'a> TimedScope<'a> {
    pub fn new(h: &'a mut LatencyHistogram) -> (s: Self)
        ensures
            *s.histogram == *old(h),
            *final(s.histogram) == *final(h),
            time::is_reading(s.start),
    {
        TimedScope { histogram: h, start: time::now() }
    }

    /// Records the time since the scope was made, and nothing else.
    pub fn finish(self)
        ensures
            exists|latency: Duration| #[trigger]
                time::elapsed_since(self.start, latency) && old(self.histogram).gains(
                    latency,
                    final(self.histogram),
                ),
            old(self.histogram).wf() && old(self.histogram).spec_count() < u64::MAX
                ==> final(self.histogram).wf(),
    {
        let latency = time::elapsed(&self.start);
        self.histogram.record(latency);
    }
}

proof fn lemma_no_counts(counts: Seq<u64>, n: int)
    requires
        0 <= n <= counts.len(),
        forall|i: int| 0 <= i < counts.len() ==> counts[i] == 0,
    ensures
        cumulative(counts, n) == 0,
    decreases n,
{
    if n > 0 {
        lemma_no_counts(counts, n - 1);
    }
}

proof fn lemma_floor_doubles(i: int)
    requires
        0 <= i < BUCKETS,
    ensures
        i == 0 ==> bucket_floor(i + 1) == 1,
        i > 0 ==> bucket_floor(i + 1) == 2 * bucket_floor(i),
        i < 31 ==> bucket_floor(i + 1) <= 0x4000_0000,
{
    vstd::arithmetic::power2::lemma2_to64();
    if i > 0 {
        vstd::arithmetic::power2::lemma_pow2_unfold(i as nat);
    }
    if 0 < i < 30 {
        vstd::arithmetic::power2::lemma_pow2_strictly_increases(i as nat, 30);
    }
}

} // verus!
