//! Open windows of equal length, keyed by their start.
use std::collections::BTreeMap;
use vstd::prelude::*;

use crate::window::{self, Aggregator, Timestamp, WindowResult};

verus! {

/// Whether the window `[start, start + size)` has ended once the watermark is at `watermark`.
pub open spec fn has_ended(start: Timestamp, size: u64, watermark: Timestamp) -> bool {
    start + size <= watermark
}

/// The open windows `m` after one more record in the window that starts at `start`.
pub open spec fn absorbed<A: Aggregator>(
    m: Map<Timestamp, (A, u64)>,
    start: Timestamp,
    item: A::Input,
) -> Map<Timestamp, (A, u64)> {
    if m.contains_key(start) {
        m.insert(start, (m[start].0.added(item), (m[start].1 + 1) as u64))
    } else {
        m.insert(start, (A::fresh().added(item), 1u64))
    }
}

/// Whether the window that starts at `start` can count one more record.
pub open spec fn has_room<A: Aggregator>(
    m: Map<Timestamp, (A, u64)>,
    start: Timestamp,
) -> bool {
    m.contains_key(start) ==> m[start].1 < u64::MAX
}

/// The windows of `m` that have not ended at `watermark`.
pub open spec fn still_open<A: Aggregator>(
    m: Map<Timestamp, (A, u64)>,
    size: u64,
    watermark: Timestamp,
) -> Map<Timestamp, (A, u64)> {
    m.restrict(Set::new(|k: Timestamp| !has_ended(k, size, watermark)))
}

/// The result of closing the window of `m` that starts at `start`.
pub open spec fn result_of<A: Aggregator>(
    m: Map<Timestamp, (A, u64)>,
    start: Timestamp,
    size: u64,
) -> WindowResult<A::Output> {
    WindowResult {
        start_ms: start,
        end_ms: (start + size) as u64,
        aggregate: m[start].0.emitted(),
        count: m[start].1,
    }
}

/// Whether `closed` lists the results of exactly those windows of `m` that have ended at
/// `watermark`, each once, by ascending start.
pub open spec fn lists_ended<A: Aggregator>(
    closed: Seq<WindowResult<A::Output>>,
    m: Map<Timestamp, (A, u64)>,
    size: u64,
    watermark: Timestamp,
) -> bool {
    &&& forall|i: int|
        0 <= i < closed.len() ==> {
            let start = (#[trigger] closed[i]).start_ms;
            &&& m.contains_key(start)
            &&& has_ended(start, size, watermark)
            &&& closed[i] == result_of(m, start, size)
        }
    &&& forall|start: Timestamp| #[trigger]
        m.contains_key(start) && has_ended(start, size, watermark) ==> exists|i: int|
            0 <= i < closed.len() && (#[trigger] closed[i]).start_ms == start
    &&& forall|i: int, j: int|
        0 <= i < j < closed.len() ==> (#[trigger] closed[i]).start_ms < (
        #[trigger] closed[j]).start_ms
}

/// The number of records that the windows of `m` hold, each window counted by itself.
pub open spec fn total_count<A: Aggregator>(m: Map<Timestamp, (A, u64)>) -> nat
    decreases m.dom().len(),
    when m.dom().finite()
{
    if m.dom().len() == 0 {
        0
    } else {
        let k = m.dom().choose();
        m[k].1 as nat + total_count(m.remove(k))
    }
}

/// Any window may be counted first.
pub proof fn lemma_total_count_split<A: Aggregator>(m: Map<Timestamp, (A, u64)>, k: Timestamp)
    requires
        m.dom().finite(),
        m.contains_key(k),
    ensures
        total_count(m) == m[k].1 as nat + total_count(m.remove(k)),
    decreases m.dom().len(),
{
    let c = m.dom().choose();
    if c != k {
        lemma_total_count_split(m.remove(c), k);
        lemma_total_count_split(m.remove(k), c);
        assert(m.remove(c).remove(k) =~= m.remove(k).remove(c));
    }
}

/// One more record in one window is one more record in all.
pub proof fn law_absorb_counts_one<A: Aggregator>(
    m: Map<Timestamp, (A, u64)>,
    start: Timestamp,
    item: A::Input,
)
    requires
        m.dom().finite(),
        has_room(m, start),
    ensures
        total_count(absorbed(m, start, item)) == total_count(m) + 1,
{
    let after = absorbed(m, start, item);
    lemma_total_count_split(after, start);
    if m.contains_key(start) {
        lemma_total_count_split(m, start);
        assert(after.remove(start) =~= m.remove(start));
    } else {
        assert(after.remove(start) =~= m);
    }
}

/// Closing windows loses no record and invents none: the records of the windows that were open
/// are those of the results together with those of the windows that stay open.
pub proof fn law_close_conserves_records<A: Aggregator>(
    closed: Seq<WindowResult<A::Output>>,
    m: Map<Timestamp, (A, u64)>,
    size: u64,
    watermark: Timestamp,
)
    requires
        m.dom().finite(),
        lists_ended(closed, m, size, watermark),
    ensures
        total_count(m) == window::sum_counts(closed) + total_count(still_open(m, size, watermark)),
    decreases closed.len(),
{
    if closed.len() == 0 {
        assert(still_open(m, size, watermark) =~= m);
    } else {
        let last = closed.last().start_ms;
        let rest = closed.drop_last();
        let less = m.remove(last);
        assert(closed[closed.len() - 1] == closed.last());
        assert forall|i: int| 0 <= i < rest.len() implies {
            let start = (#[trigger] rest[i]).start_ms;
            &&& less.contains_key(start)
            &&& has_ended(start, size, watermark)
            &&& rest[i] == result_of(less, start, size)
        } by {
            assert(rest[i] == closed[i]);
        }
        assert forall|start: Timestamp| #[trigger]
            less.contains_key(start) && has_ended(start, size, watermark) implies exists|i: int|
            0 <= i < rest.len() && (#[trigger] rest[i]).start_ms == start by {
            assert(m.contains_key(start));
            let i = choose|i: int|
                0 <= i < closed.len() && (#[trigger] closed[i]).start_ms == start;
            assert(rest[i].start_ms == start);
        }
        assert(lists_ended(rest, less, size, watermark)) by {
            assert forall|i: int, j: int| 0 <= i < j < rest.len() implies (
            #[trigger] rest[i]).start_ms < (#[trigger] rest[j]).start_ms by {
                assert(rest[i] == closed[i]);
                assert(rest[j] == closed[j]);
            }
        }
        law_close_conserves_records(rest, less, size, watermark);
        lemma_total_count_split(m, last);
        assert(still_open(less, size, watermark) =~= still_open(m, size, watermark));
    }
}

/// What stays open has not ended, so closing again at the same watermark closes nothing.
pub proof fn law_close_again_closes_nothing<A: Aggregator>(
    closed: Seq<WindowResult<A::Output>>,
    m: Map<Timestamp, (A, u64)>,
    size: u64,
    watermark: Timestamp,
)
    requires
        lists_ended(closed, still_open(m, size, watermark), size, watermark),
    ensures
        closed.len() == 0,
        still_open(still_open(m, size, watermark), size, watermark) == still_open(
            m,
            size,
            watermark,
        ),
{
    if closed.len() > 0 {
        assert(still_open(m, size, watermark).contains_key(closed[0].start_ms));
    }
    assert(still_open(still_open(m, size, watermark), size, watermark) =~= still_open(
        m,
        size,
        watermark,
    ));
}

/// A watermark may advance in steps: the windows closed at `first` followed by those closed
/// later at `second` are the windows closed by going to `second` at once, in the same order, and
/// the same windows stay open.
pub proof fn law_close_in_steps<A: Aggregator>(
    closed_first: Seq<WindowResult<A::Output>>,
    closed_second: Seq<WindowResult<A::Output>>,
    m: Map<Timestamp, (A, u64)>,
    size: u64,
    first: Timestamp,
    second: Timestamp,
)
    requires
        first <= second,
        lists_ended(closed_first, m, size, first),
        lists_ended(closed_second, still_open(m, size, first), size, second),
    ensures
        lists_ended(closed_first + closed_second, m, size, second),
        still_open(still_open(m, size, first), size, second) == still_open(m, size, second),
{
    let both = closed_first + closed_second;
    let n = closed_first.len();
    assert forall|i: int| 0 <= i < both.len() implies {
        let start = (#[trigger] both[i]).start_ms;
        &&& m.contains_key(start)
        &&& has_ended(start, size, second)
        &&& both[i] == result_of(m, start, size)
    } by {
        if i < n {
            assert(both[i] == closed_first[i]);
        } else {
            assert(both[i] == closed_second[i - n]);
        }
    }
    assert forall|start: Timestamp| #[trigger]
        m.contains_key(start) && has_ended(start, size, second) implies exists|i: int|
        0 <= i < both.len() && (#[trigger] both[i]).start_ms == start by {
        if has_ended(start, size, first) {
            let i = choose|i: int|
                0 <= i < closed_first.len() && (#[trigger] closed_first[i]).start_ms == start;
            assert(both[i].start_ms == start);
        } else {
            assert(still_open(m, size, first).contains_key(start));
            let i = choose|i: int|
                0 <= i < closed_second.len() && (#[trigger] closed_second[i]).start_ms == start;
            assert(both[n + i].start_ms == start);
        }
    }
    assert forall|i: int, j: int| 0 <= i < j < both.len() implies (#[trigger] both[i]).start_ms < (
    #[trigger] both[j]).start_ms by {
        if j < n {
            assert(both[i] == closed_first[i]);
            assert(both[j] == closed_first[j]);
        } else if i < n {
            assert(both[i] == closed_first[i]);
            assert(both[j] == closed_second[j - n]);
            assert(still_open(m, size, first).contains_key(both[j].start_ms));
        } else {
            assert(both[i] == closed_second[i - n]);
            assert(both[j] == closed_second[j - n]);
        }
    }
    assert(still_open(still_open(m, size, first), size, second) =~= still_open(m, size, second));
}

/// Open windows of equal length, keyed by their start: an accumulator and a record count each.
pub struct Buckets<A: Aggregator> {
    map: BTreeMap<Timestamp, (A, u64)>,
}

impl<A: Aggregator> View for Buckets<A> {
    type V = Map<Timestamp, (A, u64)>;

    closed spec fn view(&self) -> Map<Timestamp, (A, u64)> {
        self.map@
    }
}

impl<A: Aggregator> Buckets<A> {
    pub fn new() -> (b: Self)
        ensures
            b@ == Map::<Timestamp, (A, u64)>::empty(),
    {
        Buckets { map: BTreeMap::new() }
    }

    /// Puts one record into the window that starts at `start`, and opens it if need be.
    pub fn absorb(&mut self, start: Timestamp, item: &A::Input)
        requires
            has_room(old(self)@, start),
        ensures
            final(self)@ == absorbed(old(self)@, start, *item),
    {
        broadcast use vstd::laws_cmp::group_laws_cmp;

        let (mut acc, count) = match self.map.remove(&start) {
            Some(entry) => entry,
            None => (A::new_accumulator(), 0u64),
        };
        acc.add(item);
        self.map.insert(start, (acc, count + 1));
        assert(self.map@ =~= absorbed(old(self)@, start, *item));
    }

    /// The earliest window that has ended, if one has.
    fn first_ended(&self, size: u64, watermark: Timestamp) -> (first: Option<Timestamp>)
        ensures
            match first {
                Some(start) => {
                    &&& self@.contains_key(start)
                    &&& has_ended(start, size, watermark)
                    &&& forall|k: Timestamp| #[trigger]
                        self@.contains_key(k) && has_ended(k, size, watermark) ==> start <= k
                },
                None => forall|k: Timestamp| #[trigger]
                    self@.contains_key(k) ==> !has_ended(k, size, watermark),
            },
    {
        broadcast use vstd::laws_cmp::group_laws_cmp;

        let entries = self.map.iter();
        let ghost s = vstd::std_specs::iter::IteratorSpec::remaining(&entries);
        let ghost keys = s.map_values(|kv: (&Timestamp, &(A, u64))| *kv.0);
        proof {
            assert(vstd::std_specs::btree::key_obeys_cmp_spec::<Timestamp>());
            assert forall|i: int, j: int| 0 <= i < j < s.len() implies *s[i].0 < *s[j].0 by {
                assert(vstd::std_specs::cmp::OrdSpec::cmp_spec(&keys[i], &keys[j]) is Less);
            }
        }
        for kv in it: entries
            invariant
                it.seq() == s,
                forall|i: int, j: int| 0 <= i < j < s.len() ==> *s[i].0 < *s[j].0,
                forall|k: Timestamp| #[trigger]
                    self@.contains_key(k) ==> s.contains((&k, &self@[k])),
                forall|i: int| 0 <= i < s.len() ==> self@.contains_key(*(#[trigger] s[i]).0),
                forall|i: int|
                    0 <= i < it.index() ==> !has_ended(*(#[trigger] it.seq()[i]).0, size, watermark),
        {
            let start: Timestamp = *kv.0;
            if start <= watermark && size <= watermark - start {
                proof {
                    assert(*s[it.index()].0 == start);
                    assert forall|k: Timestamp| #[trigger]
                        self@.contains_key(k) && has_ended(k, size, watermark) implies start
                        <= k by {
                        let i = choose|i: int| 0 <= i < s.len() && s[i] == (&k, &self@[k]);
                    }
                }
                return Some(start);
            }
        }
        proof {
            assert forall|k: Timestamp| #[trigger] self@.contains_key(k) implies !has_ended(
                k,
                size,
                watermark,
            ) by {
                let i = choose|i: int| 0 <= i < s.len() && s[i] == (&k, &self@[k]);
                assert(*s[i].0 == k);
            }
        }
        None
    }

    /// Closes every window that has ended at `watermark` and returns their results by ascending
    /// start.
    pub fn close_ended(&mut self, size: u64, watermark: Timestamp) -> (closed: Vec<
        WindowResult<A::Output>,
    >)
        ensures
            lists_ended(closed@, old(self)@, size, watermark),
            final(self)@ == still_open(old(self)@, size, watermark),
    {
        broadcast use vstd::laws_cmp::group_laws_cmp;

        let mut closed: Vec<WindowResult<A::Output>> = Vec::new();
        loop
            invariant
                self@.submap_of(old(self)@),
                forall|i: int|
                    0 <= i < closed.len() ==> {
                        let start = (#[trigger] closed[i]).start_ms;
                        &&& old(self)@.contains_key(start)
                        &&& has_ended(start, size, watermark)
                        &&& closed[i] == result_of(old(self)@, start, size)
                        &&& forall|k: Timestamp| #[trigger]
                            self@.contains_key(k) && has_ended(k, size, watermark) ==> start < k
                    },
                forall|k: Timestamp| #[trigger]
                    old(self)@.contains_key(k) && !self@.contains_key(k) ==> exists|i: int|
                        0 <= i < closed.len() && (#[trigger] closed[i]).start_ms == k,
                forall|i: int, j: int|
                    0 <= i < j < closed.len() ==> (#[trigger] closed[i]).start_ms < (
                    #[trigger] closed[j]).start_ms,
            decreases self@.dom().len(),
        {
            let ghost before = self@;
            let ghost closed_before = closed@;
            let start: Timestamp = match self.first_ended(size, watermark) {
                Some(start) => start,
                None => {
                    assert(self@ =~= still_open(old(self)@, size, watermark));
                    return closed;
                },
            };
            if let Some((acc, count)) = self.map.remove(&start) {
                closed.push(
                    WindowResult {
                        start_ms: start,
                        end_ms: start + size,
                        aggregate: acc.emit(),
                        count,
                    },
                );
            }
            proof {
                assert forall|k: Timestamp| #[trigger]
                    old(self)@.contains_key(k) && !self@.contains_key(k) implies exists|i: int|
                    0 <= i < closed.len() && (#[trigger] closed[i]).start_ms == k by {
                    if k == start {
                        assert(closed[closed.len() - 1].start_ms == k);
                    } else {
                        assert(!before.contains_key(k));
                        let i = choose|i: int|
                            0 <= i < closed_before.len() && (#[trigger] closed_before[i]).start_ms
                                == k;
                        assert(closed[i].start_ms == k);
                    }
                }
            }
        }
    }

    /// The number of open windows.
    pub fn len(&self) -> (n: usize)
        ensures
            n == self@.dom().len(),
    {
        broadcast use vstd::laws_cmp::group_laws_cmp;

        self.map.len()
    }
}

} // verus!
