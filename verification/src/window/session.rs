//! Windows that follow the activity: a session lasts as long as records keep coming.
use std::time::Duration;
use vstd::prelude::*;

use crate::time;
use crate::window::contents;
use crate::window::{self, Aggregator, TimedRecord, Timestamp, WindowResult};

verus! {

/// A run of records in which no two neighbours are further apart than the gap.
pub struct Session<A: Aggregator> {
    /// The earliest timestamp.
    pub start: Timestamp,
    /// The latest timestamp.
    pub last: Timestamp,
    /// What the records have accumulated to.
    pub acc: A,
    /// The number of records.
    pub count: u64,
}

/// Whether the whole session lies more than `gap` before `ts`.
pub open spec fn is_before<A: Aggregator>(s: Session<A>, ts: Timestamp, gap: u64) -> bool {
    s.last + gap < ts
}

/// Whether the whole session lies more than `gap` after `ts`.
pub open spec fn is_after<A: Aggregator>(s: Session<A>, ts: Timestamp, gap: u64) -> bool {
    ts + gap < s.start
}

/// Whether `ts` is within `gap` of the session.
pub open spec fn is_near<A: Aggregator>(s: Session<A>, ts: Timestamp, gap: u64) -> bool {
    !is_before(s, ts, gap) && !is_after(s, ts, gap)
}

/// Whether the sessions below `lo` lie before `ts`, those from `lo` up to `hi` are near it, and
/// those from `hi` on lie after it.
pub open spec fn splits_at<A: Aggregator>(
    s: Seq<Session<A>>,
    ts: Timestamp,
    gap: u64,
    lo: int,
    hi: int,
) -> bool {
    &&& 0 <= lo <= hi <= s.len()
    &&& forall|i: int| 0 <= i < lo ==> is_before(#[trigger] s[i], ts, gap)
    &&& forall|i: int| lo <= i < hi ==> is_near(#[trigger] s[i], ts, gap)
    &&& forall|i: int| hi <= i < s.len() ==> is_after(#[trigger] s[i], ts, gap)
}

/// Two sessions as one, the earlier one first.
pub open spec fn combined<A: Aggregator>(a: Session<A>, b: Session<A>) -> Session<A> {
    Session {
        start: a.start,
        last: b.last,
        acc: a.acc.merged(b.acc),
        count: (a.count + b.count) as u64,
    }
}

/// A run of sessions as one, merged from the first on.
pub open spec fn combined_all<A: Aggregator>(s: Seq<Session<A>>) -> Session<A>
    decreases s.len(),
{
    if s.len() <= 1 {
        s[0]
    } else {
        combined(combined_all(s.drop_last()), s.last())
    }
}

/// The session that a record at `ts` and the sessions near it become.
pub open spec fn joined<A: Aggregator>(
    near: Seq<Session<A>>,
    ts: Timestamp,
    item: A::Input,
) -> Session<A> {
    if near.len() == 0 {
        Session { start: ts, last: ts, acc: A::fresh().added(item), count: 1 }
    } else {
        let s = combined_all(near);
        Session {
            start: if ts < s.start {
                ts
            } else {
                s.start
            },
            last: if ts > s.last {
                ts
            } else {
                s.last
            },
            acc: s.acc.added(item),
            count: (s.count + 1) as u64,
        }
    }
}

/// The sessions `s` after a record at `ts`, where `lo` and `hi` split them at it.
pub open spec fn with_record<A: Aggregator>(
    s: Seq<Session<A>>,
    ts: Timestamp,
    item: A::Input,
    lo: int,
    hi: int,
) -> Seq<Session<A>> {
    s.take(lo).push(joined(s.subrange(lo, hi), ts, item)) + s.skip(hi)
}

/// Whether the sessions are in order, and neighbours are further apart than the gap.
pub open spec fn separated<A: Aggregator>(s: Seq<Session<A>>, gap: u64) -> bool {
    &&& forall|i: int| 0 <= i < s.len() ==> (#[trigger] s[i]).start <= s[i].last
    &&& forall|i: int, j: int|
        0 <= i < j < s.len() ==> (#[trigger] s[i]).last + gap < (#[trigger] s[j]).start
}

/// The number of records in a run of sessions.
pub open spec fn total_count<A: Aggregator>(s: Seq<Session<A>>) -> nat
    decreases s.len(),
{
    if s.len() == 0 {
        0
    } else {
        total_count(s.drop_last()) + s.last().count as nat
    }
}

/// Whether the session can get no more records once the watermark is at `watermark`.
pub open spec fn has_ended<A: Aggregator>(
    s: Session<A>,
    gap: u64,
    watermark: Timestamp,
) -> bool {
    s.last + gap <= watermark
}

/// The result of closing a session: it ends when the gap after its last record is over.
pub open spec fn result_of<A: Aggregator>(s: Session<A>, gap: u64) -> WindowResult<A::Output> {
    WindowResult {
        start_ms: s.start,
        end_ms: (s.last + gap) as u64,
        aggregate: s.acc.emitted(),
        count: s.count,
    }
}

/// Whether `closed` lists the results of the sessions of `s` that have ended at `watermark`, in
/// order, and `open` holds the others.
pub open spec fn closes_ended<A: Aggregator>(
    closed: Seq<WindowResult<A::Output>>,
    open: Seq<Session<A>>,
    s: Seq<Session<A>>,
    gap: u64,
    watermark: Timestamp,
) -> bool {
    &&& closed.len() <= s.len()
    &&& open == s.skip(closed.len() as int)
    &&& forall|i: int|
        0 <= i < closed.len() ==> has_ended(#[trigger] s[i], gap, watermark) && closed[i]
            == result_of(s[i], gap)
    &&& forall|i: int|
        closed.len() <= i < s.len() ==> !has_ended(#[trigger] s[i], gap, watermark)
}

/// Counting a run of sessions in two parts.
proof fn lemma_total_count_add<A: Aggregator>(a: Seq<Session<A>>, b: Seq<Session<A>>)
    ensures
        total_count(a + b) == total_count(a) + total_count(b),
    decreases b.len(),
{
    if b.len() == 0 {
        assert(a + b =~= a);
    } else {
        lemma_total_count_add(a, b.drop_last());
        assert((a + b).drop_last() =~= a + b.drop_last());
    }
}

/// The sessions from `lo` up to `hi` hold at most the records of all.
proof fn lemma_total_count_part<A: Aggregator>(s: Seq<Session<A>>, lo: int, hi: int)
    requires
        0 <= lo <= hi <= s.len(),
    ensures
        total_count(s) == total_count(s.take(lo)) + total_count(s.subrange(lo, hi)) + total_count(
            s.skip(hi),
        ),
{
    lemma_total_count_add(s.take(lo), s.subrange(lo, hi));
    lemma_total_count_add(s.take(lo) + s.subrange(lo, hi), s.skip(hi));
    assert(s =~= s.take(lo) + s.subrange(lo, hi) + s.skip(hi));
}

/// A run of sessions as one reaches from the first start to the last end and holds all records.
proof fn lemma_combined_all<A: Aggregator>(s: Seq<Session<A>>)
    requires
        s.len() > 0,
        total_count(s) <= u64::MAX,
    ensures
        combined_all(s).start == s[0].start,
        combined_all(s).last == s.last().last,
        combined_all(s).count == total_count(s),
    decreases s.len(),
{
    if s.len() > 1 {
        lemma_combined_all(s.drop_last());
    } else {
        reveal_with_fuel(total_count, 2);
        assert(s.drop_last().len() == 0);
    }
}

/// A record keeps the sessions in order and apart.
proof fn lemma_with_record_separated<A: Aggregator>(
    s: Seq<Session<A>>,
    ts: Timestamp,
    item: A::Input,
    gap: u64,
    lo: int,
    hi: int,
)
    requires
        separated(s, gap),
        splits_at(s, ts, gap, lo, hi),
        total_count(s) < u64::MAX,
    ensures
        separated(with_record(s, ts, item, lo, hi), gap),
{
    let near = s.subrange(lo, hi);
    let j = joined(near, ts, item);
    let after = with_record(s, ts, item, lo, hi);
    lemma_total_count_part(s, lo, hi);
    if near.len() > 0 {
        lemma_combined_all(near);
        assert(near[0] == s[lo]);
        assert(near.last() == s[hi - 1]);
        assert(s[lo].start <= s[lo].last);
        if lo < hi - 1 {
            assert(s[lo].last + gap < s[hi - 1].start);
        }
        assert(s[hi - 1].start <= s[hi - 1].last);
    }
    assert(j.start <= ts <= j.last);
    assert forall|i: int| 0 <= i < after.len() implies {
        &&& (#[trigger] after[i]).start <= after[i].last
        &&& i < lo ==> after[i] == s[i]
        &&& i == lo ==> after[i] == j
        &&& i > lo ==> after[i] == s[hi + (i - lo - 1)]
    } by {}
    assert forall|i: int, k: int| 0 <= i < k < after.len() implies (#[trigger] after[i]).last + gap
        < (#[trigger] after[k]).start by {
        if i < lo {
            assert(after[i] == s[i]);
            if k == lo {
                assert(is_before(s[i], ts, gap));
                if near.len() > 0 {
                    assert(s[i].last + gap < s[lo].start);
                }
            } else if k > lo {
                assert(after[k] == s[hi + (k - lo - 1)]);
            }
        } else if i == lo {
            let q = hi + (k - lo - 1);
            assert(after[k] == s[q]);
            assert(is_after(s[q], ts, gap));
            if near.len() > 0 {
                assert(s[hi - 1].last + gap < s[q].start);
            }
        } else {
            assert(after[i] == s[hi + (i - lo - 1)]);
            assert(after[k] == s[hi + (k - lo - 1)]);
        }
    }
}

/// A record is counted once, whatever sessions it joins together.
pub proof fn law_record_counts_one<A: Aggregator>(
    s: Seq<Session<A>>,
    ts: Timestamp,
    item: A::Input,
    gap: u64,
    lo: int,
    hi: int,
)
    requires
        splits_at(s, ts, gap, lo, hi),
        total_count(s) < u64::MAX,
    ensures
        total_count(with_record(s, ts, item, lo, hi)) == total_count(s) + 1,
{
    let near = s.subrange(lo, hi);
    let j = joined(near, ts, item);
    lemma_total_count_part(s, lo, hi);
    lemma_total_count_add(s.take(lo).push(j), s.skip(hi));
    assert(s.take(lo).push(j).drop_last() =~= s.take(lo));
    if near.len() > 0 {
        lemma_combined_all(near);
    }
}

/// There is one way to split sessions at a timestamp, so a record's effect is determined.
pub proof fn law_split_is_unique<A: Aggregator>(
    s: Seq<Session<A>>,
    ts: Timestamp,
    gap: u64,
    lo: int,
    hi: int,
    other_lo: int,
    other_hi: int,
)
    requires
        separated(s, gap),
        splits_at(s, ts, gap, lo, hi),
        splits_at(s, ts, gap, other_lo, other_hi),
    ensures
        lo == other_lo,
        hi == other_hi,
{
    if lo < other_lo {
        assert(is_before(s[lo], ts, gap));
        assert(s[lo].start <= s[lo].last);
    }
    if other_lo < lo {
        assert(is_before(s[other_lo], ts, gap));
        assert(s[other_lo].start <= s[other_lo].last);
    }
    if hi < other_hi {
        assert(is_after(s[hi], ts, gap));
        assert(s[hi].start <= s[hi].last);
    }
    if other_hi < hi {
        assert(is_after(s[other_hi], ts, gap));
        assert(s[other_hi].start <= s[other_hi].last);
    }
}

/// Records within the gap of each other share a session: the session that a record ends up in
/// reaches over the record and over every session that was within the gap of it.
pub proof fn law_near_records_share_a_session<A: Aggregator>(
    s: Seq<Session<A>>,
    ts: Timestamp,
    item: A::Input,
    gap: u64,
    lo: int,
    hi: int,
)
    requires
        separated(s, gap),
        splits_at(s, ts, gap, lo, hi),
        total_count(s) < u64::MAX,
    ensures
        ({
            let session = with_record(s, ts, item, lo, hi)[lo];
            &&& session.start <= ts <= session.last
            &&& forall|i: int|
                0 <= i < s.len() && is_near(#[trigger] s[i], ts, gap) ==> session.start
                    <= s[i].start && s[i].last <= session.last
        }),
{
    let near = s.subrange(lo, hi);
    let session = with_record(s, ts, item, lo, hi)[lo];
    assert(session == joined(near, ts, item));
    lemma_total_count_part(s, lo, hi);
    if near.len() > 0 {
        lemma_combined_all(near);
        assert(near[0] == s[lo]);
        assert(near.last() == s[hi - 1]);
        assert(s[lo].start <= s[lo].last);
        assert(s[hi - 1].start <= s[hi - 1].last);
        if lo < hi - 1 {
            assert(s[lo].last + gap < s[hi - 1].start);
        }
    }
    assert forall|i: int| 0 <= i < s.len() && is_near(#[trigger] s[i], ts, gap) implies session.start
        <= s[i].start && s[i].last <= session.last by {
        assert(lo <= i < hi);
        assert(s[i].start <= s[i].last);
        if lo < i {
            assert(s[lo].last + gap < s[i].start);
        }
        if i < hi - 1 {
            assert(s[i].last + gap < s[hi - 1].start);
        }
    }
}

/// Closing sessions loses no record and invents none.
pub proof fn law_close_conserves_records<A: Aggregator>(
    closed: Seq<WindowResult<A::Output>>,
    open: Seq<Session<A>>,
    s: Seq<Session<A>>,
    gap: u64,
    watermark: Timestamp,
)
    requires
        closes_ended(closed, open, s, gap, watermark),
    ensures
        total_count(s) == window::sum_counts(closed) + total_count(open),
{
    let n = closed.len() as int;
    lemma_total_count_add(s.take(n), s.skip(n));
    assert(s =~= s.take(n) + s.skip(n));
    lemma_prefix_counts(closed, s, gap, n);
    assert(closed.take(n) =~= closed);
}

proof fn lemma_prefix_counts<A: Aggregator>(
    closed: Seq<WindowResult<A::Output>>,
    s: Seq<Session<A>>,
    gap: u64,
    n: int,
)
    requires
        0 <= n <= closed.len() <= s.len(),
        forall|i: int| 0 <= i < closed.len() ==> closed[i] == result_of(#[trigger] s[i], gap),
    ensures
        total_count(s.take(n)) == window::sum_counts(closed.take(n)),
    decreases n,
{
    if n > 0 {
        lemma_prefix_counts(closed, s, gap, n - 1);
        assert(s.take(n).drop_last() =~= s.take(n - 1));
        assert(closed.take(n).drop_last() =~= closed.take(n - 1));
        assert(closed[n - 1] == result_of(s[n - 1], gap));
    }
}

/// A watermark may advance in steps: the sessions closed at `first` followed by those closed
/// later at `second` are the sessions closed by going to `second` at once.
pub proof fn law_close_in_steps<A: Aggregator>(
    closed_first: Seq<WindowResult<A::Output>>,
    closed_second: Seq<WindowResult<A::Output>>,
    between: Seq<Session<A>>,
    open: Seq<Session<A>>,
    s: Seq<Session<A>>,
    gap: u64,
    first: Timestamp,
    second: Timestamp,
)
    requires
        first <= second,
        closes_ended(closed_first, between, s, gap, first),
        closes_ended(closed_second, open, between, gap, second),
    ensures
        closes_ended(closed_first + closed_second, open, s, gap, second),
{
    let both = closed_first + closed_second;
    let n = closed_first.len();
    assert(open =~= s.skip(both.len() as int));
    assert forall|i: int| 0 <= i < both.len() implies has_ended(#[trigger] s[i], gap, second)
        && both[i] == result_of(s[i], gap) by {
        if i >= n {
            assert(between[i - n] == s[i]);
        }
    }
    assert forall|i: int| both.len() <= i < s.len() implies !has_ended(
        #[trigger] s[i],
        gap,
        second,
    ) by {
        assert(between[i - n] == s[i]);
    }
}

/// Whether a record comes after that time and no later than the other.
#[verifier::opaque]
pub open spec fn comes_between<T>(records: Seq<TimedRecord<T>>, after: int, until: int) -> bool {
    exists|j: int| 0 <= j < records.len() && after < (#[trigger] records[j]).ts <= until
}

/// Whether the session holds exactly those of the records that lie between its earliest and its
/// latest timestamp: it has gathered the data of each of them once and counts them; there is a
/// record at both ends; and from no moment in between it takes longer than the gap to the next
/// record.
pub open spec fn is_of<A: Aggregator>(
    s: Session<A>,
    gap: u64,
    records: Seq<TimedRecord<A::Input>>,
) -> bool {
    let own = contents::data_between(records, s.start as int, s.last + 1);
    &&& contents::gathers(s.acc, own)
    &&& s.count == own.len()
    &&& comes_between(records, s.start - 1, s.start as int)
    &&& comes_between(records, s.last - 1, s.last as int)
    &&& forall|t: int| s.start <= t < s.last ==> #[trigger] comes_between(records, t, t + gap)
}

/// Whether the timestamp lies in one of the sessions.
#[verifier::opaque]
pub open spec fn is_within<A: Aggregator>(s: Seq<Session<A>>, ts: Timestamp) -> bool {
    exists|i: int| 0 <= i < s.len() && (#[trigger] s[i]).start <= ts <= s[i].last
}

/// Whether the sessions hold exactly these records, each in one session.
pub open spec fn hold<A: Aggregator>(
    s: Seq<Session<A>>,
    gap: u64,
    records: Seq<TimedRecord<A::Input>>,
) -> bool {
    &&& forall|i: int| 0 <= i < s.len() ==> is_of(#[trigger] s[i], gap, records)
    &&& forall|j: int| 0 <= j < records.len() ==> is_within(s, (#[trigger] records[j]).ts)
}

/// Whether this is the result of a session of these records: it counts those that lie between its
/// start and its end less the gap, and its aggregate is that of an accumulator that has gathered
/// each of them once.
pub open spec fn sums_up<A: Aggregator>(
    w: WindowResult<A::Output>,
    gap: u64,
    records: Seq<TimedRecord<A::Input>>,
) -> bool {
    let own = contents::data_between(records, w.start_ms as int, w.end_ms - gap + 1);
    &&& w.start_ms + gap <= w.end_ms
    &&& w.count == own.len() > 0
    &&& exists|acc: A| #[trigger]
        contents::gathers(acc, own) && w.aggregate == acc.emitted()
}

/// The records that lie in none of the closed sessions.
pub open spec fn is_left<T, O>(closed: Seq<WindowResult<O>>, gap: u64) -> spec_fn(
    TimedRecord<T>,
) -> bool {
    |r: TimedRecord<T>|
        forall|i: int|
            0 <= i < closed.len() ==> !((#[trigger] closed[i]).start_ms <= r.ts && r.ts + gap
                <= closed[i].end_ms)
}

proof fn lemma_comes<T>(records: Seq<TimedRecord<T>>, after: int, until: int) -> (j: int)
    requires
        comes_between(records, after, until),
    ensures
        0 <= j < records.len() && after < records[j].ts <= until,
{
    reveal(comes_between);
    choose|j: int| 0 <= j < records.len() && after < (#[trigger] records[j]).ts <= until
}

proof fn lemma_comes_at<T>(records: Seq<TimedRecord<T>>, j: int, after: int, until: int)
    requires
        0 <= j < records.len(),
        after < records[j].ts <= until,
    ensures
        comes_between(records, after, until),
{
    reveal(comes_between);
}

proof fn lemma_still_comes<T>(records: Seq<TimedRecord<T>>, r: TimedRecord<T>)
    ensures
        forall|after: int, until: int| #[trigger]
            comes_between(records, after, until) ==> comes_between(records.push(r), after, until),
        forall|after: int, until: int|
            after < r.ts <= until ==> #[trigger] comes_between(records.push(r), after, until),
{
    let all = records.push(r);
    assert forall|after: int, until: int| #[trigger] comes_between(
        records,
        after,
        until,
    ) implies comes_between(all, after, until) by {
        let j = lemma_comes(records, after, until);
        assert(all[j] == records[j]);
        lemma_comes_at(all, j, after, until);
    }
    assert forall|after: int, until: int| after < r.ts <= until implies #[trigger] comes_between(
        all,
        after,
        until,
    ) by {
        assert(all[records.len() as int] == r);
        lemma_comes_at(all, records.len() as int, after, until);
    }
}

proof fn lemma_within<A: Aggregator>(s: Seq<Session<A>>, ts: Timestamp) -> (i: int)
    requires
        is_within(s, ts),
    ensures
        0 <= i < s.len() && s[i].start <= ts <= s[i].last,
{
    reveal(is_within);
    choose|i: int| 0 <= i < s.len() && (#[trigger] s[i]).start <= ts <= s[i].last
}

proof fn lemma_within_at<A: Aggregator>(s: Seq<Session<A>>, ts: Timestamp, i: int)
    requires
        0 <= i < s.len(),
        s[i].start <= ts <= s[i].last,
    ensures
        is_within(s, ts),
{
    reveal(is_within);
}

/// Between sessions there are no records.
proof fn lemma_no_data_between<A: Aggregator>(
    s: Seq<Session<A>>,
    gap: u64,
    records: Seq<TimedRecord<A::Input>>,
    from: int,
    to: int,
)
    requires
        hold(s, gap, records),
        forall|i: int|
            0 <= i < s.len() ==> (#[trigger] s[i]).last < from || s[i].start >= to,
    ensures
        contents::data_between(records, from, to) == vstd::multiset::Multiset::<A::Input>::empty(),
{
    assert forall|j: int| 0 <= j < records.len() implies !(from <= (#[trigger] records[j]).ts
        < to) by {
        let i = lemma_within(s, records[j].ts);
    }
    contents::lemma_no_data(records, from, to);
}

/// A run of sessions as one has gathered the data of all their records.
proof fn lemma_run_gathers<A: Aggregator>(
    s: Seq<Session<A>>,
    gap: u64,
    records: Seq<TimedRecord<A::Input>>,
    lo: int,
    hi: int,
)
    requires
        hold(s, gap, records),
        separated(s, gap),
        0 <= lo < hi <= s.len(),
        total_count(s) <= u64::MAX,
    ensures
        ({
            let c = combined_all(s.subrange(lo, hi));
            let own = contents::data_between(records, s[lo].start as int, s[hi - 1].last + 1);
            contents::gathers(c.acc, own) && c.count == own.len()
        }),
    decreases hi - lo,
{
    let run = s.subrange(lo, hi);
    let last = s[hi - 1];
    assert(run.last() == last);
    assert(is_of(last, gap, records));
    assert(last.start <= last.last);
    if hi - lo > 1 {
        let before = s[hi - 2];
        assert(before.last + gap < last.start);
        assert(s[lo].start <= s[lo].last);
        if lo < hi - 2 {
            assert(s[lo].last + gap < before.start);
        }
        assert(before.start <= before.last);
        lemma_run_gathers(s, gap, records, lo, hi - 1);
        assert(run.drop_last() =~= s.subrange(lo, hi - 1));
        let (a, b, c, d) = (s[lo].start as int, before.last + 1, last.start as int, last.last + 1);
        contents::lemma_data_in_parts(records, a, b, d);
        contents::lemma_data_in_parts(records, b, c, d);
        assert forall|i: int| 0 <= i < s.len() implies (#[trigger] s[i]).last < b || s[i].start
            >= c by {
            if i < hi - 2 {
                assert(s[i].last + gap < before.start);
            } else if i > hi - 1 {
                assert(last.last + gap < s[i].start);
            }
        }
        lemma_no_data_between(s, gap, records, b, c);
        assert(contents::data_between(records, b, d) =~= contents::data_between(records, c, d));
        contents::lemma_gathers_both(
            combined_all(run.drop_last()).acc,
            contents::data_between(records, a, b),
            last.acc,
            contents::data_between(records, c, d),
        );
        lemma_total_count_part(s, lo, hi);
        lemma_combined_all(run);
        lemma_combined_all(run.drop_last());
    } else {
        assert(run.len() == 1);
        assert(combined_all(run) == last);
    }
}

/// One more record is held by the sessions, whichever it joins: by a session of its own, by one
/// that was there, or by one that several have become.
pub proof fn law_record_is_held<A: Aggregator>(
    s: Seq<Session<A>>,
    gap: u64,
    records: Seq<TimedRecord<A::Input>>,
    r: TimedRecord<A::Input>,
    lo: int,
    hi: int,
)
    requires
        separated(s, gap),
        hold(s, gap, records),
        splits_at(s, r.ts, gap, lo, hi),
        total_count(s) < u64::MAX,
    ensures
        hold(with_record(s, r.ts, r.data, lo, hi), gap, records.push(r)),
{
    let ts = r.ts;
    let near = s.subrange(lo, hi);
    let j = joined(near, ts, r.data);
    let after = with_record(s, ts, r.data, lo, hi);
    let all = records.push(r);
    assert(all.drop_last() =~= records);
    lemma_total_count_part(s, lo, hi);
    if near.len() > 0 {
        lemma_combined_all(near);
        assert(near[0] == s[lo]);
        assert(near.last() == s[hi - 1]);
        assert(s[lo].start <= s[lo].last);
        assert(s[hi - 1].start <= s[hi - 1].last);
        if lo < hi - 1 {
            assert(s[lo].last + gap < s[hi - 1].start);
        }
    }
    assert forall|i: int| 0 <= i < after.len() implies is_of(#[trigger] after[i], gap, all) by {
        if i < lo {
            assert(after[i] == s[i]);
            assert(is_of(s[i], gap, records));
            lemma_same_session(s[i], gap, records, r);
        } else if i > lo {
            let q = hi + (i - lo - 1);
            assert(after[i] == s[q]);
            assert(is_of(s[q], gap, records));
            assert(is_after(s[q], ts, gap));
            lemma_same_session(s[q], gap, records, r);
        } else {
            assert(after[i] == j);
            lemma_joined_is_of(s, gap, records, r, lo, hi);
        }
    }
    assert forall|k: int| 0 <= k < all.len() implies is_within(after, (#[trigger] all[k]).ts) by {
        assert(after[lo] == j);
        if k < records.len() {
            assert(all[k] == records[k]);
            let q = lemma_within(s, records[k].ts);
            if q < lo {
                assert(after[q] == s[q]);
                lemma_within_at(after, all[k].ts, q);
            } else if q >= hi {
                assert(after[q - hi + lo + 1] == s[q]);
                lemma_within_at(after, all[k].ts, q - hi + lo + 1);
            } else {
                if lo < q {
                    assert(s[lo].last + gap < s[q].start);
                }
                if q < hi - 1 {
                    assert(s[q].last + gap < s[hi - 1].start);
                }
                lemma_within_at(after, all[k].ts, lo);
            }
        } else {
            lemma_within_at(after, all[k].ts, lo);
        }
    }
}

/// A record elsewhere makes no difference to a session.
proof fn lemma_same_session<A: Aggregator>(
    s: Session<A>,
    gap: u64,
    records: Seq<TimedRecord<A::Input>>,
    r: TimedRecord<A::Input>,
)
    requires
        is_of(s, gap, records),
        r.ts < s.start || s.last < r.ts,
    ensures
        is_of(s, gap, records.push(r)),
{
    let all = records.push(r);
    assert(all.drop_last() =~= records);
    lemma_still_comes(records, r);
    assert forall|t: int| s.start <= t < s.last implies #[trigger] comes_between(
        all,
        t,
        t + gap,
    ) by {
        assert(comes_between(records, t, t + gap));
    }
    assert(comes_between(records, s.start - 1, s.start as int));
    assert(comes_between(records, s.last - 1, s.last as int));
}

/// The session that a record and the sessions near it become holds their records.
proof fn lemma_joined_is_of<A: Aggregator>(
    s: Seq<Session<A>>,
    gap: u64,
    records: Seq<TimedRecord<A::Input>>,
    r: TimedRecord<A::Input>,
    lo: int,
    hi: int,
)
    requires
        separated(s, gap),
        hold(s, gap, records),
        splits_at(s, r.ts, gap, lo, hi),
        total_count(s) < u64::MAX,
    ensures
        is_of(joined(s.subrange(lo, hi), r.ts, r.data), gap, records.push(r)),
{
    let ts = r.ts as int;
    let near = s.subrange(lo, hi);
    let j = joined(near, r.ts, r.data);
    let all = records.push(r);
    let (from, to) = (j.start as int, j.last + 1);
    assert(all.drop_last() =~= records);
    lemma_total_count_part(s, lo, hi);
    lemma_still_comes(records, r);
    if near.len() == 0 {
        assert forall|i: int| 0 <= i < s.len() implies (#[trigger] s[i]).last < ts || s[i].start
            >= ts + 1 by {
            if i < lo {
                assert(is_before(s[i], r.ts, gap));
            } else {
                assert(is_after(s[i], r.ts, gap));
            }
        }
        lemma_no_data_between(s, gap, records, ts, ts + 1);
        contents::lemma_gathers_nothing::<A>();
        contents::lemma_gathers_item(
            A::fresh(),
            vstd::multiset::Multiset::empty(),
            r.data,
        );
    } else {
        let (first, last) = (s[lo], s[hi - 1]);
        lemma_combined_all(near);
        assert(near[0] == first);
        assert(near.last() == last);
        assert(first.start <= first.last);
        assert(last.start <= last.last);
        if lo < hi - 1 {
            assert(first.last + gap < last.start);
        }
        assert(is_of(first, gap, records));
        assert(is_of(last, gap, records));
        assert(is_near(first, r.ts, gap));
        assert(is_near(last, r.ts, gap));
        let (a, b) = (first.start as int, last.last + 1);
        lemma_run_gathers(s, gap, records, lo, hi);
        contents::lemma_data_in_parts(records, from, a, to);
        contents::lemma_data_in_parts(records, a, b, to);
        assert forall|i: int| 0 <= i < s.len() implies ((#[trigger] s[i]).last < from || s[i].start
            >= a) && (s[i].last < b || s[i].start >= to) by {
            if i < lo {
                assert(is_before(s[i], r.ts, gap));
                assert(s[i].last + gap < first.start);
                assert(s[i].last + gap < last.start);
            } else if i >= hi {
                assert(is_after(s[i], r.ts, gap));
                assert(first.last + gap < s[i].start);
                assert(last.last + gap < s[i].start);
            } else {
                if lo < i {
                    assert(first.last + gap < s[i].start);
                }
                if i < hi - 1 {
                    assert(s[i].last + gap < last.start);
                }
            }
        }
        lemma_no_data_between(s, gap, records, from, a);
        lemma_no_data_between(s, gap, records, b, to);
        let own = contents::data_between(records, a, b);
        assert(contents::data_between(records, from, to) =~= own);
        contents::lemma_gathers_item(combined_all(near).acc, own, r.data);
        assert(comes_between(records, first.start - 1, first.start as int));
        assert(comes_between(records, last.last - 1, last.last as int));
        assert forall|t: int| j.start <= t < j.last implies #[trigger] comes_between(
            all,
            t,
            t + gap,
        ) by {
            if t < ts {
                if t < first.last {
                    assert(comes_between(records, t, t + gap));
                } else {
                    assert(t < ts <= t + gap);
                }
            } else if last.start <= t {
                assert(comes_between(records, t, t + gap));
            } else {
                let k = lemma_comes(records, last.start - 1, last.start as int);
                assert(all[k] == records[k]);
                lemma_comes_at(all, k, t, t + gap);
            }
        }
    }
}

/// The sessions that a watermark closes are exactly those after whose last record the gap is over,
/// and each comes out with the aggregate of its records. The sessions that stay open hold the
/// records that are left.
pub proof fn law_closed_sessions_sum_up<A: Aggregator>(
    closed: Seq<WindowResult<A::Output>>,
    open: Seq<Session<A>>,
    s: Seq<Session<A>>,
    gap: u64,
    watermark: Timestamp,
    records: Seq<TimedRecord<A::Input>>,
)
    requires
        separated(s, gap),
        hold(s, gap, records),
        closes_ended(closed, open, s, gap, watermark),
    ensures
        forall|i: int|
            0 <= i < closed.len() ==> sums_up::<A>(#[trigger] closed[i], gap, records)
                && closed[i].end_ms <= watermark,
        forall|i: int, k: int|
            0 <= i < k < closed.len() ==> (#[trigger] closed[i]).end_ms < (
            #[trigger] closed[k]).start_ms,
        forall|i: int| 0 <= i < open.len() ==> (#[trigger] open[i]).last + gap > watermark,
        hold(open, gap, records.filter(is_left(closed, gap))),
{
    broadcast use vstd::seq_lib::group_filter_ensures;

    let n = closed.len() as int;
    let keep = is_left::<A::Input, A::Output>(closed, gap);
    let rest = records.filter(keep);
    assert forall|i: int| 0 <= i < n implies sums_up::<A>(#[trigger] closed[i], gap, records)
        && closed[i].end_ms <= watermark && closed[i].start_ms == s[i].start && closed[i].end_ms
        == s[i].last + gap by {
        assert(has_ended(s[i], gap, watermark));
        assert(is_of(s[i], gap, records));
        lemma_session_has_records(s[i], gap, records);
        let own = contents::data_between(records, s[i].start as int, s[i].last + 1);
        assert(contents::gathers(s[i].acc, own));
    }
    assert forall|i: int, k: int| 0 <= i < k < closed.len() implies (#[trigger] closed[i]).end_ms
        < (#[trigger] closed[k]).start_ms by {
        assert(s[i].last + gap < s[k].start);
    }
    assert forall|q: int| 0 <= q < open.len() implies is_of(#[trigger] open[q], gap, rest)
        && open[q].last + gap > watermark by {
        let own = s[n + q];
        assert(open[q] == own);
        assert(!has_ended(own, gap, watermark));
        assert(is_of(own, gap, records));
        assert(own.start <= own.last);
        assert forall|j: int|
            0 <= j < records.len() && own.start <= (#[trigger] records[j]).ts
                <= own.last implies keep(records[j]) && rest.contains(records[j]) by {
            assert forall|i: int| 0 <= i < closed.len() implies !((
            #[trigger] closed[i]).start_ms <= records[j].ts && records[j].ts + gap
                <= closed[i].end_ms) by {
                assert(s[i].last + gap < own.start);
            }
        }
        contents::lemma_data_of_filtered(records, keep, own.start as int, own.last + 1);
        assert forall|a: int, b: int|
            own.start - 1 <= a && b <= own.last + gap && #[trigger] comes_between(
                records,
                a,
                b,
            ) implies comes_between(rest, a, b) by {
            let k = lemma_comes(records, a, b);
            let at = lemma_within(s, records[k].ts);
            if at < n + q {
                assert(s[at].last + gap < own.start);
            } else if at > n + q {
                assert(own.last + gap < s[at].start);
            }
            assert(rest.contains(records[k]));
            let m = choose|m: int| 0 <= m < rest.len() && rest[m] == records[k];
            lemma_comes_at(rest, m, a, b);
        }
        assert(comes_between(records, own.start - 1, own.start as int));
        assert(comes_between(records, own.last - 1, own.last as int));
        assert forall|t: int| own.start <= t < own.last implies #[trigger] comes_between(
            rest,
            t,
            t + gap,
        ) by {
            assert(comes_between(records, t, t + gap));
        }
    }
    assert forall|m: int| 0 <= m < rest.len() implies is_within(open, (#[trigger] rest[m]).ts) by {
        assert(keep(rest[m]));
        records.lemma_filter_contains_rev(keep, rest[m]);
        let j = choose|j: int| 0 <= j < records.len() && records[j] == rest[m];
        let at = lemma_within(s, records[j].ts);
        if at < n {
            assert(closed[at].start_ms <= rest[m].ts && rest[m].ts + gap <= closed[at].end_ms);
        }
        assert(open[at - n] == s[at]);
        lemma_within_at(open, rest[m].ts, at - n);
    }
}

/// Sessions count every record that they hold once, and so can take as many records as can be
/// counted.
pub proof fn law_sessions_count_their_records<A: Aggregator>(
    s: Seq<Session<A>>,
    gap: u64,
    records: Seq<TimedRecord<A::Input>>,
)
    requires
        separated(s, gap),
        hold(s, gap, records),
    ensures
        total_count(s) <= records.len(),
        s.len() > 0 ==> total_count(s) == contents::data_between(
            records,
            s[0].start as int,
            s.last().last + 1,
        ).len(),
{
    if s.len() > 0 {
        lemma_counted_so_far(s, gap, records, s.len() as int);
        assert(s.take(s.len() as int) =~= s);
        contents::lemma_data_len(records, s[0].start as int, s.last().last + 1);
    }
}

proof fn lemma_counted_so_far<A: Aggregator>(
    s: Seq<Session<A>>,
    gap: u64,
    records: Seq<TimedRecord<A::Input>>,
    n: int,
)
    requires
        separated(s, gap),
        hold(s, gap, records),
        0 < n <= s.len(),
    ensures
        total_count(s.take(n)) == contents::data_between(
            records,
            s[0].start as int,
            s[n - 1].last + 1,
        ).len(),
    decreases n,
{
    let run = s.take(n);
    let last = s[n - 1];
    assert(run.last() == last);
    assert(is_of(last, gap, records));
    assert(last.start <= last.last);
    assert(run.drop_last() =~= s.take(n - 1));
    if n > 1 {
        let before = s[n - 2];
        assert(before.last + gap < last.start);
        assert(s[0].start <= s[0].last);
        if 0 < n - 2 {
            assert(s[0].last + gap < before.start);
        }
        assert(before.start <= before.last);
        lemma_counted_so_far(s, gap, records, n - 1);
        let (a, b, c, d) = (s[0].start as int, before.last + 1, last.start as int, last.last + 1);
        contents::lemma_data_in_parts(records, a, b, d);
        contents::lemma_data_in_parts(records, b, c, d);
        assert forall|i: int| 0 <= i < s.len() implies (#[trigger] s[i]).last < b || s[i].start
            >= c by {
            if i < n - 2 {
                assert(s[i].last + gap < before.start);
            } else if i > n - 1 {
                assert(last.last + gap < s[i].start);
            }
        }
        lemma_no_data_between(s, gap, records, b, c);
    } else {
        assert(total_count(s.take(0)) == 0);
    }
}

/// A session has at least one record.
proof fn lemma_session_has_records<A: Aggregator>(
    s: Session<A>,
    gap: u64,
    records: Seq<TimedRecord<A::Input>>,
)
    requires
        is_of(s, gap, records),
        s.start <= s.last,
    ensures
        s.count > 0,
{
    let k = lemma_comes(records, s.start - 1, s.start as int);
    lemma_data_is_there(records, k, s.start as int, s.last + 1);
}

proof fn lemma_data_is_there<T>(records: Seq<TimedRecord<T>>, k: int, from: int, to: int)
    requires
        0 <= k < records.len(),
        from <= records[k].ts < to,
    ensures
        contents::data_between(records, from, to).len() > 0,
    decreases records.len(),
{
    if k < records.len() - 1 {
        assert(records.drop_last()[k] == records[k]);
        lemma_data_is_there(records.drop_last(), k, from, to);
    }
}

/// Windows that follow the activity. Records that are within the gap of each other fall into one
/// session; a session closes when the watermark has passed its last record by the gap.
pub struct SessionWindow<A: Aggregator> {
    gap_ms: u64,
    watermark: Timestamp,
    sessions: Vec<Session<A>>,
}

impl<A: Aggregator> SessionWindow<A> {
    /// The longest pause within a session.
    pub closed spec fn gap_ms(&self) -> u64 {
        self.gap_ms
    }

    /// The watermark reached so far.
    pub closed spec fn spec_watermark(&self) -> Timestamp {
        self.watermark
    }

    /// The open sessions, earliest first.
    pub closed spec fn sessions(&self) -> Seq<Session<A>> {
        self.sessions@
    }

    /// The sessions are in order, and neighbours are further apart than the gap.
    pub open spec fn wf(&self) -> bool {
        separated(self.sessions(), self.gap_ms())
    }

    /// Whether the open sessions hold exactly these records, each in one session and with its data
    /// gathered once.
    pub open spec fn holds(&self, records: Seq<TimedRecord<A::Input>>) -> bool {
        hold(self.sessions(), self.gap_ms(), records)
    }

    /// No session is open and the watermark is zero. The gap is taken in whole milliseconds.
    pub fn new(gap: Duration) -> (w: Self)
        ensures
            w.wf(),
            w.holds(Seq::empty()),
            w.gap_ms() == time::duration_millis(gap) as u64,
            w.spec_watermark() == 0,
            w.sessions() == Seq::<Session<A>>::empty(),
    {
        SessionWindow { gap_ms: gap.as_millis() as u64, watermark: 0, sessions: Vec::new() }
    }

    /// Puts the record into the sessions within the gap of it, which become one, or into a new
    /// session where there is none.
    pub fn add(&mut self, record: &TimedRecord<A::Input>)
        requires
            old(self).wf(),
            total_count(old(self).sessions()) < u64::MAX,
        ensures
            final(self).wf(),
            final(self).gap_ms() == old(self).gap_ms(),
            final(self).spec_watermark() == old(self).spec_watermark(),
            exists|lo: int, hi: int| #[trigger]
                splits_at(old(self).sessions(), record.ts, old(self).gap_ms(), lo, hi)
                    && final(self).sessions() == with_record(
                    old(self).sessions(),
                    record.ts,
                    record.data,
                    lo,
                    hi,
                ),
            forall|records: Seq<TimedRecord<A::Input>>| #[trigger]
                old(self).holds(records) ==> final(self).holds(records.push(*record)),
    {
        let ts: Timestamp = record.ts;
        let gap: u64 = self.gap_ms;
        let ghost s = self.sessions();
        let mut lo: usize = 0;
        while lo < self.sessions.len() && self.sessions[lo].last < ts && ts
            - self.sessions[lo].last > gap
            invariant
                self.gap_ms == old(self).gap_ms,
                self.watermark == old(self).watermark,
                self.sessions@ == s,
                lo <= s.len(),
                forall|i: int| 0 <= i < lo ==> is_before(#[trigger] s[i], ts, gap),
            decreases s.len() - lo,
        {
            lo = lo + 1;
        }
        let mut joined_session: Option<Session<A>> = None;
        let ghost mut hi = lo as int;
        while lo < self.sessions.len() && !(ts < self.sessions[lo].start && self.sessions[lo].start
            - ts > gap)
            invariant
                self.gap_ms == old(self).gap_ms,
                self.watermark == old(self).watermark,
                separated(s, gap),
                total_count(s) < u64::MAX,
                lo <= hi <= s.len(),
                self.sessions@ == s.take(lo as int) + s.skip(hi),
                forall|i: int| 0 <= i < lo ==> is_before(#[trigger] s[i], ts, gap),
                lo < s.len() ==> !is_before(s[lo as int], ts, gap),
                forall|i: int| lo <= i < hi ==> is_near(#[trigger] s[i], ts, gap),
                hi == lo ==> joined_session is None,
                hi > lo ==> joined_session == Some(combined_all(s.subrange(lo as int, hi))),
            decreases s.len() - hi,
        {
            let next = self.sessions.remove(lo);
            let ghost near = s.subrange(lo as int, hi);
            let ghost near_next = s.subrange(lo as int, hi + 1);
            proof {
                assert(next == s[hi]);
                assert(self.sessions@ =~= s.take(lo as int) + s.skip(hi + 1));
                assert(near_next.drop_last() =~= near);
                lemma_total_count_part(s, lo as int, hi + 1);
                if hi > lo {
                    assert(s[lo as int].last + gap < s[hi].start);
                    lemma_combined_all(near);
                }
            }
            joined_session =
            match joined_session {
                None => Some(next),
                Some(mut session) => {
                    session.acc.merge(&next.acc);
                    Some(
                        Session {
                            start: session.start,
                            last: next.last,
                            acc: session.acc,
                            count: session.count + next.count,
                        },
                    )
                },
            };
            proof {
                hi = hi + 1;
            }
        }
        let ghost near = s.subrange(lo as int, hi);
        proof {
            assert forall|i: int| hi <= i < s.len() implies is_after(#[trigger] s[i], ts, gap) by {
                assert(is_after(s[hi], ts, gap)) by {
                    assert(self.sessions@[lo as int] == s[hi]);
                }
                if i > hi {
                    assert(s[hi].start <= s[hi].last);
                    assert(s[hi].last + gap < s[i].start);
                }
            }
            lemma_total_count_part(s, lo as int, hi);
            if hi > lo {
                lemma_combined_all(near);
            }
        }
        let session = match joined_session {
            None => {
                let mut acc = A::new_accumulator();
                acc.add(&record.data);
                Session { start: ts, last: ts, acc, count: 1 }
            },
            Some(mut session) => {
                session.acc.add(&record.data);
                Session {
                    start: if ts < session.start {
                        ts
                    } else {
                        session.start
                    },
                    last: if ts > session.last {
                        ts
                    } else {
                        session.last
                    },
                    acc: session.acc,
                    count: session.count + 1,
                }
            },
        };
        self.sessions.insert(lo, session);
        proof {
            assert(splits_at(s, ts, gap, lo as int, hi));
            assert(self.sessions@ =~= with_record(s, ts, record.data, lo as int, hi));
            lemma_with_record_separated(s, ts, record.data, gap, lo as int, hi);
            assert forall|records: Seq<TimedRecord<A::Input>>| #[trigger]
                old(self).holds(records) implies self.holds(records.push(*record)) by {
                law_record_is_held(s, gap, records, *record, lo as int, hi);
            }
        }
    }

    /// Advances the watermark, which never goes back, and returns the sessions that have ended,
    /// earliest first.
    pub fn advance_watermark(&mut self, wm: Timestamp) -> (closed: Vec<WindowResult<A::Output>>)
        requires
            old(self).wf(),
        ensures
            final(self).wf(),
            final(self).gap_ms() == old(self).gap_ms(),
            final(self).spec_watermark() == if wm > old(self).spec_watermark() {
                wm
            } else {
                old(self).spec_watermark()
            },
            closes_ended(
                closed@,
                final(self).sessions(),
                old(self).sessions(),
                old(self).gap_ms(),
                final(self).spec_watermark(),
            ),
            forall|records: Seq<TimedRecord<A::Input>>| #[trigger]
                old(self).holds(records) ==> {
                    &&& final(self).holds(
                        records.filter(is_left(closed@, old(self).gap_ms())),
                    )
                    &&& forall|i: int|
                        0 <= i < closed@.len() ==> sums_up::<A>(
                            #[trigger] closed@[i],
                            old(self).gap_ms(),
                            records,
                        ) && closed@[i].end_ms <= final(self).spec_watermark()
                    &&& forall|i: int|
                        0 <= i < final(self).sessions().len() ==> (
                        #[trigger] final(self).sessions()[i]).last + old(self).gap_ms()
                            > final(self).spec_watermark()
                },
    {
        if wm > self.watermark {
            self.watermark = wm;
        }
        let gap: u64 = self.gap_ms;
        let watermark: Timestamp = self.watermark;
        let ghost s = self.sessions();
        let mut closed: Vec<WindowResult<A::Output>> = Vec::new();
        while self.sessions.len() > 0 && self.sessions[0].last <= watermark && watermark
            - self.sessions[0].last >= gap
            invariant
                self.gap_ms == gap,
                self.watermark == watermark,
                closed.len() <= s.len(),
                self.sessions@ == s.skip(closed.len() as int),
                forall|i: int|
                    0 <= i < closed.len() ==> has_ended(#[trigger] s[i], gap, watermark)
                        && closed[i] == result_of(s[i], gap),
            decreases self.sessions.len(),
        {
            let session = self.sessions.remove(0);
            assert(session == s[closed.len() as int]);
            assert(self.sessions@ =~= s.skip(closed.len() + 1));
            closed.push(
                WindowResult {
                    start_ms: session.start,
                    end_ms: session.last + gap,
                    aggregate: session.acc.emit(),
                    count: session.count,
                },
            );
        }
        proof {
            let n = closed.len() as int;
            assert forall|i: int| n <= i < s.len() implies !has_ended(
                #[trigger] s[i],
                gap,
                watermark,
            ) by {
                assert(self.sessions@[0] == s[n]);
                if i > n {
                    assert(s[n].last + gap < s[i].start);
                    assert(s[i].start <= s[i].last);
                }
            }
        }
        proof {
            assert forall|records: Seq<TimedRecord<A::Input>>| #[trigger]
                old(self).holds(records) implies {
                &&& self.holds(records.filter(is_left(closed@, gap)))
                &&& forall|i: int|
                    0 <= i < closed@.len() ==> sums_up::<A>(#[trigger] closed@[i], gap, records)
                        && closed@[i].end_ms <= watermark
                &&& forall|i: int|
                    0 <= i < self.sessions().len() ==> (#[trigger] self.sessions()[i]).last + gap
                        > watermark
            } by {
                law_closed_sessions_sum_up(
                    closed@,
                    self.sessions(),
                    s,
                    gap,
                    watermark,
                    records,
                );
            }
        }
        closed
    }

    pub fn open_sessions(&self) -> (n: usize)
        ensures
            n == self.sessions().len(),
    {
        self.sessions.len()
    }
}

} // verus!
