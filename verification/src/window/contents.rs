//! What windows hold after any sequence of records and watermarks.
use vstd::multiset::Multiset;
use vstd::prelude::*;

use crate::window::buckets;
use crate::window::{Aggregator, TimedRecord, Timestamp, WindowResult};

verus! {

/// What was done to a window operator.
pub enum Step<T> {
    /// A record was added.
    Record(TimedRecord<T>),
    /// The watermark was advanced to here, or was there already.
    Watermark(Timestamp),
}

/// The accumulator of these items: a fresh one, to which they were added one after the other.
pub open spec fn accumulated<A: Aggregator>(items: Seq<A::Input>) -> A
    decreases items.len(),
{
    if items.len() == 0 {
        A::fresh()
    } else {
        accumulated::<A>(items.drop_last()).added(items.last())
    }
}

/// How an accumulator came about.
pub enum Gathering<T> {
    /// It is a fresh one.
    Nothing,
    /// An item was added to what was gathered before.
    Item(Box<Gathering<T>>, T),
    /// What was gathered elsewhere was merged into what was gathered before.
    Both(Box<Gathering<T>>, Box<Gathering<T>>),
}

impl<T> Gathering<T> {
    /// All items that were added on the way, as often as they were.
    pub open spec fn items(self) -> Multiset<T>
        decreases self,
    {
        match self {
            Gathering::Nothing => Multiset::empty(),
            Gathering::Item(before, item) => before.items().insert(item),
            Gathering::Both(before, other) => before.items().add(other.items()),
        }
    }
}

/// The accumulator that came about so.
pub open spec fn gathered<A: Aggregator>(g: Gathering<A::Input>) -> A
    decreases g,
{
    match g {
        Gathering::Nothing => A::fresh(),
        Gathering::Item(before, item) => gathered::<A>(*before).added(item),
        Gathering::Both(before, other) => gathered::<A>(*before).merged(gathered::<A>(*other)),
    }
}

/// Whether the accumulator came about by adding exactly these items, each once, to fresh ones and
/// merging these.
pub open spec fn gathers<A: Aggregator>(acc: A, items: Multiset<A::Input>) -> bool {
    exists|g: Gathering<A::Input>| acc == #[trigger] gathered::<A>(g) && g.items() == items
}

/// A fresh accumulator has gathered nothing.
pub proof fn lemma_gathers_nothing<A: Aggregator>()
    ensures
        gathers(A::fresh(), Multiset::<A::Input>::empty()),
{
    let g = Gathering::<A::Input>::Nothing;
    assert(gathered::<A>(g) == A::fresh());
}

/// One more item is gathered by adding it.
pub proof fn lemma_gathers_item<A: Aggregator>(
    acc: A,
    items: Multiset<A::Input>,
    item: A::Input,
)
    requires
        gathers(acc, items),
    ensures
        gathers(acc.added(item), items.insert(item)),
{
    let g = choose|g: Gathering<A::Input>| acc == #[trigger] gathered::<A>(g) && g.items() == items;
    let more = Gathering::Item(Box::new(g), item);
    assert(gathered::<A>(more) == acc.added(item));
}

/// What two accumulators have gathered is gathered by merging them.
pub proof fn lemma_gathers_both<A: Aggregator>(
    a: A,
    a_items: Multiset<A::Input>,
    b: A,
    b_items: Multiset<A::Input>,
)
    requires
        gathers(a, a_items),
        gathers(b, b_items),
    ensures
        gathers(a.merged(b), a_items.add(b_items)),
{
    let g = choose|g: Gathering<A::Input>|
        a == #[trigger] gathered::<A>(g) && g.items() == a_items;
    let h = choose|h: Gathering<A::Input>|
        b == #[trigger] gathered::<A>(h) && h.items() == b_items;
    let both = Gathering::Both(Box::new(g), Box::new(h));
    assert(gathered::<A>(both) == a.merged(b));
}

/// The data of the records from `from` up to but not including `to`.
pub open spec fn data_between<T>(records: Seq<TimedRecord<T>>, from: int, to: int) -> Multiset<T>
    decreases records.len(),
{
    if records.len() == 0 {
        Multiset::empty()
    } else {
        let before = data_between(records.drop_last(), from, to);
        let r = records.last();
        if from <= r.ts < to {
            before.insert(r.data)
        } else {
            before
        }
    }
}

/// Records may be looked at in two parts.
pub proof fn lemma_data_in_parts<T>(
    records: Seq<TimedRecord<T>>,
    from: int,
    middle: int,
    to: int,
)
    requires
        from <= middle <= to,
    ensures
        data_between(records, from, to) == data_between(records, from, middle).add(
            data_between(records, middle, to),
        ),
    decreases records.len(),
{
    if records.len() > 0 {
        lemma_data_in_parts(records.drop_last(), from, middle, to);
    }
    assert(data_between(records, from, to) =~= data_between(records, from, middle).add(
        data_between(records, middle, to),
    ));
}

/// Where no record lies there is no data.
pub proof fn lemma_no_data<T>(records: Seq<TimedRecord<T>>, from: int, to: int)
    requires
        forall|j: int| 0 <= j < records.len() ==> !(from <= (#[trigger] records[j]).ts < to),
    ensures
        data_between(records, from, to) == Multiset::<T>::empty(),
    decreases records.len(),
{
    if records.len() > 0 {
        let rest = records.drop_last();
        assert forall|j: int| 0 <= j < rest.len() implies !(from <= (#[trigger] rest[j]).ts
            < to) by {
            assert(rest[j] == records[j]);
        }
        lemma_no_data(rest, from, to);
        assert(records.last() == records[records.len() - 1]);
    }
}

/// Leaving out records elsewhere makes no difference.
pub proof fn lemma_data_of_filtered<T>(
    records: Seq<TimedRecord<T>>,
    keep: spec_fn(TimedRecord<T>) -> bool,
    from: int,
    to: int,
)
    requires
        forall|j: int|
            0 <= j < records.len() && from <= (#[trigger] records[j]).ts < to ==> keep(records[j]),
    ensures
        data_between(records.filter(keep), from, to) == data_between(records, from, to),
    decreases records.len(),
{
    reveal(Seq::filter);
    if records.len() > 0 {
        let rest = records.drop_last();
        assert forall|j: int|
            0 <= j < rest.len() && from <= (#[trigger] rest[j]).ts < to implies keep(rest[j]) by {
            assert(rest[j] == records[j]);
        }
        lemma_data_of_filtered(rest, keep, from, to);
        let r = records.last();
        assert(r == records[records.len() - 1]);
        if keep(r) {
            let kept = rest.filter(keep);
            assert(kept.push(r).drop_last() =~= kept);
        }
    }
}

/// The watermark: the highest of all there were, and zero before the first.
pub open spec fn watermark_after<T>(steps: Seq<Step<T>>) -> Timestamp
    decreases steps.len(),
{
    if steps.len() == 0 {
        0
    } else {
        let before = watermark_after(steps.drop_last());
        match steps.last() {
            Step::Watermark(wm) if wm > before => wm,
            _ => before,
        }
    }
}

/// The data that the window of that start has collected since it was last closed, in the order in
/// which the records came. Every record counts whose timestamp the window takes; a watermark that
/// has reached the end of the window closes it.
pub open spec fn collected<T>(
    steps: Seq<Step<T>>,
    takes: spec_fn(Timestamp, Timestamp) -> bool,
    size: u64,
    start: Timestamp,
) -> Seq<T>
    decreases steps.len(),
{
    if steps.len() == 0 {
        Seq::empty()
    } else {
        let before = collected(steps.drop_last(), takes, size, start);
        match steps.last() {
            Step::Record(r) => if takes(start, r.ts) {
                before.push(r.data)
            } else {
                before
            },
            Step::Watermark(_) => if start + size <= watermark_after(steps) {
                Seq::empty()
            } else {
                before
            },
        }
    }
}

/// Whether these are the open windows after these steps: a window is open exactly where it has
/// collected something, and it has accumulated and counted exactly that.
pub open spec fn follows<A: Aggregator>(
    m: Map<Timestamp, (A, u64)>,
    watermark: Timestamp,
    takes: spec_fn(Timestamp, Timestamp) -> bool,
    size: u64,
    steps: Seq<Step<A::Input>>,
) -> bool {
    &&& watermark == watermark_after(steps)
    &&& forall|k: Timestamp|
        {
            let d = collected(steps, takes, size, k);
            &&& #[trigger] m.contains_key(k) <==> d.len() > 0
            &&& m.contains_key(k) ==> m[k].0 == accumulated::<A>(d) && m[k].1 == d.len()
        }
}

/// Whether these are the windows that a watermark closes after these steps: every window that it
/// has reached the end of and that has collected something, by ascending start, each with the
/// number and the aggregate of what it has collected.
pub open spec fn closes<A: Aggregator>(
    closed: Seq<WindowResult<A::Output>>,
    watermark: Timestamp,
    takes: spec_fn(Timestamp, Timestamp) -> bool,
    size: u64,
    steps: Seq<Step<A::Input>>,
) -> bool {
    &&& forall|i: int|
        0 <= i < closed.len() ==> {
            let w = #[trigger] closed[i];
            let d = collected(steps, takes, size, w.start_ms);
            &&& d.len() > 0
            &&& w.start_ms + size == w.end_ms <= watermark
            &&& w.count == d.len()
            &&& w.aggregate == accumulated::<A>(d).emitted()
        }
    &&& forall|k: Timestamp|
        (#[trigger] collected(steps, takes, size, k)).len() > 0 && k + size <= watermark
            ==> exists|i: int| 0 <= i < closed.len() && (#[trigger] closed[i]).start_ms == k
    &&& forall|i: int, j: int|
        0 <= i < j < closed.len() ==> (#[trigger] closed[i]).start_ms < (
        #[trigger] closed[j]).start_ms
}

/// Windows follow one more record where each that takes it has added it and counted one more, and
/// each other one is as it was.
pub proof fn law_record_is_collected<A: Aggregator>(
    m: Map<Timestamp, (A, u64)>,
    after: Map<Timestamp, (A, u64)>,
    watermark: Timestamp,
    takes: spec_fn(Timestamp, Timestamp) -> bool,
    size: u64,
    steps: Seq<Step<A::Input>>,
    r: TimedRecord<A::Input>,
)
    requires
        follows(m, watermark, takes, size, steps),
        forall|k: Timestamp| #[trigger]
            takes(k, r.ts) ==> after.contains_key(k) && if m.contains_key(k) {
                after[k].0 == m[k].0.added(r.data) && after[k].1 == m[k].1 + 1
            } else {
                after[k].0 == A::fresh().added(r.data) && after[k].1 == 1
            },
        forall|k: Timestamp|
            !takes(k, r.ts) ==> (#[trigger] after.contains_key(k) <==> m.contains_key(k)) && (
            m.contains_key(k) ==> after[k] == m[k]),
    ensures
        follows(after, watermark, takes, size, steps.push(Step::Record(r))),
{
    let all = steps.push(Step::Record(r));
    assert(all.drop_last() =~= steps);
    assert forall|k: Timestamp|
        {
            let d = collected(all, takes, size, k);
            &&& #[trigger] after.contains_key(k) <==> d.len() > 0
            &&& after.contains_key(k) ==> after[k].0 == accumulated::<A>(d) && after[k].1
                == d.len()
        } by {
        let d = collected(steps, takes, size, k);
        assert(m.contains_key(k) <==> d.len() > 0);
        if takes(k, r.ts) {
            assert(d.push(r.data).drop_last() =~= d);
            reveal_with_fuel(accumulated, 2);
        }
    }
}

/// Windows follow a watermark where exactly those are closed that it has reached the end of.
pub proof fn law_watermark_closes<A: Aggregator>(
    m: Map<Timestamp, (A, u64)>,
    after: Map<Timestamp, (A, u64)>,
    closed: Seq<WindowResult<A::Output>>,
    before: Timestamp,
    wm: Timestamp,
    takes: spec_fn(Timestamp, Timestamp) -> bool,
    size: u64,
    steps: Seq<Step<A::Input>>,
)
    requires
        follows(m, before, takes, size, steps),
        ({
            let now = if wm > before {
                wm
            } else {
                before
            };
            &&& forall|k: Timestamp| #[trigger]
                after.contains_key(k) <==> m.contains_key(k) && k + size > now
            &&& forall|k: Timestamp| #[trigger] after.contains_key(k) ==> after[k] == m[k]
            &&& forall|i: int|
                0 <= i < closed.len() ==> {
                    let w = #[trigger] closed[i];
                    &&& m.contains_key(w.start_ms)
                    &&& w.start_ms + size == w.end_ms <= now
                    &&& w.count == m[w.start_ms].1
                    &&& w.aggregate == m[w.start_ms].0.emitted()
                }
            &&& forall|k: Timestamp| #[trigger]
                m.contains_key(k) && k + size <= now ==> exists|i: int|
                    0 <= i < closed.len() && (#[trigger] closed[i]).start_ms == k
            &&& forall|i: int, j: int|
                0 <= i < j < closed.len() ==> (#[trigger] closed[i]).start_ms < (
                #[trigger] closed[j]).start_ms
        }),
    ensures
        ({
            let now = if wm > before {
                wm
            } else {
                before
            };
            &&& follows(after, now, takes, size, steps.push(Step::Watermark(wm)))
            &&& closes::<A>(closed, now, takes, size, steps)
        }),
{
    let all = steps.push(Step::Watermark(wm));
    assert(all.drop_last() =~= steps);
    assert forall|k: Timestamp|
        {
            let d = collected(all, takes, size, k);
            &&& #[trigger] after.contains_key(k) <==> d.len() > 0
            &&& after.contains_key(k) ==> after[k].0 == accumulated::<A>(d) && after[k].1
                == d.len()
        } by {
        assert(m.contains_key(k) <==> collected(steps, takes, size, k).len() > 0);
    }
    assert forall|k: Timestamp|
        (#[trigger] collected(steps, takes, size, k)).len() > 0 && k + size <= watermark_after(
            all,
        ) implies exists|i: int|
        0 <= i < closed.len() && (#[trigger] closed[i]).start_ms == k by {
        assert(m.contains_key(k));
    }
}

/// Windows can take as many records as can be counted: after fewer than 2^64 steps every window has
/// room for one more.
pub proof fn law_windows_have_room<A: Aggregator>(
    m: Map<Timestamp, (A, u64)>,
    watermark: Timestamp,
    takes: spec_fn(Timestamp, Timestamp) -> bool,
    size: u64,
    steps: Seq<Step<A::Input>>,
    start: Timestamp,
)
    requires
        follows(m, watermark, takes, size, steps),
        steps.len() < u64::MAX,
    ensures
        buckets::has_room(m, start),
{
    lemma_collected_len(steps, takes, size, start);
    assert(m.contains_key(start) || !m.contains_key(start));
}

proof fn lemma_collected_len<T>(
    steps: Seq<Step<T>>,
    takes: spec_fn(Timestamp, Timestamp) -> bool,
    size: u64,
    start: Timestamp,
)
    ensures
        collected(steps, takes, size, start).len() <= steps.len(),
    decreases steps.len(),
{
    if steps.len() > 0 {
        lemma_collected_len(steps.drop_last(), takes, size, start);
    }
}

/// There is no more data than records.
pub proof fn lemma_data_len<T>(records: Seq<TimedRecord<T>>, from: int, to: int)
    ensures
        data_between(records, from, to).len() <= records.len(),
    decreases records.len(),
{
    if records.len() > 0 {
        lemma_data_len(records.drop_last(), from, to);
    }
}

} // verus!
