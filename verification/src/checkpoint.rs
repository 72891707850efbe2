//! Checkpoints of a pipeline's state: what is saved, under which name, and which one is loaded.
//!
//! Files are read and written elsewhere. Here stands what is to be written where, and what the
//! files that are found mean.
pub mod names;

use std::collections::HashMap;
use std::time::{Duration, SystemTime, UNIX_EPOCH};
use vstd::prelude::*;

use crate::time;

verus! {

/// Checkpoints are numbered from one.
pub type CheckpointId = u64;

/// `std::time::SystemTime`: a reading of the wall clock, carried through unread.
#[verifier::external_type_specification]
#[verifier::external_body]
pub struct ExSystemTime(SystemTime);

/// `serde_json::Value`: any JSON value, carried through unread.
#[verifier::external_type_specification]
#[verifier::external_body]
pub struct ExValue(serde_json::Value);

/// `SystemTime::now`: the wall clock as it stands. Nothing is said of what it shows.
#[verifier::external_body]
fn wall_clock() -> (now: SystemTime) {
    SystemTime::now()
}

/// `SystemTime::duration_since` with the Unix epoch: the time from the epoch to the reading, or
/// nothing for a reading before it. Nothing is said of which it is.
#[verifier::external_body]
fn since_epoch(t: &SystemTime) -> (d: Option<Duration>) {
    t.duration_since(UNIX_EPOCH).ok()
}

/// Whether the wall clock can have shown that time since the Unix epoch when read, or a time
/// before it.
pub closed spec fn wall_clock_shows(since: Option<Duration>) -> bool {
    exists|now: SystemTime| #[trigger]
        call_ensures(wall_clock, (), now) && call_ensures(since_epoch, (&now,), since)
}

/// Whether this is the time in milliseconds since the Unix epoch that the wall clock showed when
/// read.
pub open spec fn is_time_now(ms: u64) -> bool {
    exists|since: Option<Duration>| #[trigger]
        wall_clock_shows(since) && ms == spec_unix_millis(since)
}

/// Milliseconds since the Unix epoch, given the time since then; zero for a time before it.
pub open spec fn spec_unix_millis(since_epoch: Option<Duration>) -> u64 {
    match since_epoch {
        Some(d) => time::duration_millis(d) as u64,
        None => 0,
    }
}

/// Milliseconds since the Unix epoch, given the time since then; zero for a time before it.
pub fn unix_millis(since_epoch: Option<Duration>) -> (ms: u64)
    ensures
        ms == spec_unix_millis(since_epoch),
{
    match since_epoch {
        Some(d) => d.as_millis() as u64,
        None => 0,
    }
}

/// The time of a checkpoint is cut off to whole milliseconds, and is zero for a time before the
/// epoch.
pub proof fn law_unix_millis_are_whole(since: Duration)
    requires
        time::duration_nanos(since) < 0x1_0000_0000_0000_0000 * 1_000_000,
    ensures
        spec_unix_millis(Some(since)) * 1_000_000 <= time::duration_nanos(since) < (
        spec_unix_millis(Some(since)) + 1) * 1_000_000,
        spec_unix_millis(None) == 0,
{
}

/// A checkpoint: the state of every operator at one moment.
#[derive(Debug, Clone)]
pub struct CheckpointManifest {
    pub id: CheckpointId,
    /// When it was taken, in milliseconds since the Unix epoch.
    pub timestamp: u64,
    pub operator_count: usize,
    /// The state of each operator as JSON, under its name.
    pub operators: HashMap<String, String>,
}

impl CheckpointManifest {
    /// A checkpoint of these states, taken now.
    ///
    /// What the wall clock shows rests with the machine.
    pub fn new(id: CheckpointId, states: HashMap<String, String>) -> (m: Self)
        ensures
            m.id == id,
            m.operator_count == states.len(),
            m.operators == states,
            is_time_now(m.timestamp),
    {
        let now = wall_clock();
        let since = since_epoch(&now);
        assert(wall_clock_shows(since));
        Self::at(id, unix_millis(since), states)
    }

    /// A checkpoint of these states, taken at that time.
    pub fn at(id: CheckpointId, timestamp: u64, states: HashMap<String, String>) -> (m: Self)
        ensures
            m == (CheckpointManifest {
                id,
                timestamp,
                operator_count: states.len(),
                operators: states,
            }),
    {
        CheckpointManifest { id, timestamp, operator_count: states.len(), operators: states }
    }
}

/// A checkpoint that is about to be saved: its contents are written to the file `tmp_name`, which
/// is then renamed to `name`. Renaming happens at once or not at all, so no reader ever finds
/// half a checkpoint under `name`.
pub struct Save {
    pub manifest: CheckpointManifest,
    pub tmp_name: Vec<u8>,
    pub name: Vec<u8>,
}

/// Manages the checkpoints of a pipeline.
#[derive(Clone, Copy, Debug)]
pub struct CheckpointStore {
    /// The number of the last checkpoint saved.
    pub last_id: CheckpointId,
    /// The time between two checkpoints.
    pub interval: Duration,
}

impl CheckpointStore {
    /// A store that goes on after the checkpoints among the files found: its numbers start after
    /// the last of theirs, and from one where there is none.
    pub fn new(interval: Duration, found: &Vec<Vec<u8>>) -> (s: Self)
        ensures
            s.interval == interval,
            forall|id: CheckpointId| #[trigger]
                names::bytes_of(found@).contains(names::name_of(id)) ==> id <= s.last_id,
            s.last_id == 0 || names::bytes_of(found@).contains(names::name_of(s.last_id)),
    {
        let ghost all = names::bytes_of(found@);
        let mut last_id: CheckpointId = 0;
        for i in 0..found.len()
            invariant
                all == names::bytes_of(found@),
                forall|k: int, id: CheckpointId|
                    #![trigger all[k], names::name_of(id)]
                    0 <= k < i && all[k] == names::name_of(id) ==> id <= last_id,
                last_id == 0 || all.contains(names::name_of(last_id)),
        {
            assert(all[i as int] == found@[i as int]@);
            match names::id_of(&found[i]) {
                Some(id) => {
                    proof {
                        assert forall|other: CheckpointId|
                            #[trigger] names::name_of(other) == all[i as int] implies other
                            == id by {
                            names::law_names_differ(other, id);
                        }
                    }
                    if id > last_id {
                        last_id = id;
                        assert(all.contains(names::name_of(id)));
                    }
                },
                None => {},
            }
        }
        proof {
            assert forall|id: CheckpointId| #[trigger]
                all.contains(names::name_of(id)) implies id <= last_id by {
                let k = all.index_of(names::name_of(id));
                assert(all[k] == names::name_of(id));
            }
        }
        CheckpointStore { last_id, interval }
    }

    /// Numbers a checkpoint of these states and says how it is to be saved.
    pub fn save(&mut self, states: HashMap<String, String>) -> (save: Save)
        requires
            old(self).last_id < u64::MAX,
        ensures
            final(self).last_id == old(self).last_id + 1,
            final(self).interval == old(self).interval,
            save.manifest.id == final(self).last_id,
            save.manifest.operator_count == states.len(),
            save.manifest.operators == states,
            is_time_now(save.manifest.timestamp),
            save.tmp_name@ == names::tmp_name_of(final(self).last_id),
            save.name@ == names::name_of(final(self).last_id),
    {
        self.last_id = self.last_id + 1;
        let id: u64 = self.last_id;
        Save {
            manifest: CheckpointManifest::new(id, states),
            tmp_name: names::tmp_file_name(id),
            name: names::file_name(id),
        }
    }

    /// The search for the latest valid checkpoint among the files found.
    pub fn load_latest(&self, found: Vec<Vec<u8>>) -> (search: Search)
        ensures
            names::lists_checkpoints(names::bytes_of(found@), search.left()),
    {
        Search { left: names::list_checkpoints(found) }
    }

    /// The files to remove so that of the checkpoints among the files found only the last `keep`
    /// stay.
    pub fn gc(&self, found: Vec<Vec<u8>>, keep: usize) -> (old_ones: Vec<Vec<u8>>)
        ensures
            exists|listed: Seq<Seq<u8>>| #[trigger]
                names::lists_checkpoints(names::bytes_of(found@), listed) && names::bytes_of(
                    old_ones@,
                ) == surplus(listed, keep as nat),
    {
        let mut listed = names::list_checkpoints(found);
        let ghost all = names::bytes_of(listed@);
        let n: usize = if listed.len() > keep {
            listed.len() - keep
        } else {
            0
        };
        listed.truncate(n);
        assert(names::bytes_of(listed@) =~= surplus(all, keep as nat));
        listed
    }

    pub fn interval(&self) -> (d: Duration)
        ensures
            d == self.interval,
    {
        self.interval
    }
}

/// All of a list but the last `keep`.
pub open spec fn surplus(listed: Seq<Seq<u8>>, keep: nat) -> Seq<Seq<u8>> {
    listed.take(
        if listed.len() > keep {
            listed.len() - keep
        } else {
            0
        },
    )
}

/// Cleaning up keeps as many checkpoints as it should, or all if there are fewer, and those that
/// stay are the latest.
pub proof fn law_gc_keeps_the_latest(listed: Seq<Seq<u8>>, keep: nat)
    requires
        names::sorted(listed),
    ensures
        ({
            let old_ones = surplus(listed, keep);
            let kept = listed.skip(old_ones.len() as int);
            &&& listed == old_ones + kept
            &&& kept.len() == if listed.len() > keep {
                keep
            } else {
                listed.len()
            }
            &&& forall|i: int, j: int|
                #![trigger old_ones[i], kept[j]]
                0 <= i < old_ones.len() && 0 <= j < kept.len() ==> names::no_later(
                    old_ones[i],
                    kept[j],
                )
        }),
{
    let old_ones = surplus(listed, keep);
    let kept = listed.skip(old_ones.len() as int);
    assert(listed =~= old_ones + kept);
    assert forall|i: int, j: int|
        #![trigger old_ones[i], kept[j]]
        0 <= i < old_ones.len() && 0 <= j < kept.len() implies names::no_later(
        old_ones[i],
        kept[j],
    ) by {
        assert(names::no_later(listed[i], listed[j + old_ones.len()]));
    }
}

/// Cleaning up again removes nothing.
pub proof fn law_gc_again_removes_nothing(listed: Seq<Seq<u8>>, keep: nat)
    ensures
        surplus(listed.skip(surplus(listed, keep).len() as int), keep).len() == 0,
{
}

/// Cleaning up that keeps at least one file does not change what is loaded, where the latest file
/// holds a checkpoint.
pub proof fn law_gc_keeps_what_is_loaded(
    listed: Seq<Seq<u8>>,
    keep: nat,
    look: spec_fn(Seq<u8>) -> Found,
)
    requires
        keep > 0,
        listed.len() > 0,
        look(listed.last()) is Valid,
    ensures
        loaded(listed.skip(surplus(listed, keep).len() as int), look) == loaded(listed, look),
{
    let kept = listed.skip(surplus(listed, keep).len() as int);
    assert(kept.last() == listed.last());
}

/// What a look into a file found.
pub enum Found {
    /// The file cannot be read.
    Unreadable,
    /// It holds no checkpoint.
    Corrupt,
    Valid(CheckpointManifest),
}

/// What the search for a checkpoint does next.
pub enum SearchStep {
    /// Looks into the next file.
    Next,
    /// Removes the file, and looks into the next one.
    Remove(Vec<u8>),
    /// Ends with this checkpoint.
    Load(CheckpointManifest),
}

/// A search for the latest valid checkpoint.
pub struct Search {
    left: Vec<Vec<u8>>,
}

impl Search {
    /// The files that were not looked into yet, in ascending order.
    pub closed spec fn left(&self) -> Seq<Seq<u8>> {
        names::bytes_of(self.left@)
    }

    /// The file to look into: the last of those left. With none left the search ends without a
    /// checkpoint.
    pub fn next_file(&self) -> (name: Option<&Vec<u8>>)
        ensures
            match name {
                Some(name) => self.left().len() > 0 && name@ == self.left().last(),
                None => self.left().len() == 0,
            },
            name is None ==> forall|look: spec_fn(Seq<u8>) -> Found| #[trigger]
                loaded(self.left(), look) is None,
    {
        let n: usize = self.left.len();
        if n == 0 {
            None
        } else {
            Some(&self.left[n - 1])
        }
    }

    /// Takes what the look into that file found.
    pub fn take(&mut self, found: Found) -> (step: SearchStep)
        requires
            old(self).left().len() > 0,
        ensures
            final(self).left() == old(self).left().drop_last(),
            match found {
                Found::Unreadable => step is Next,
                Found::Corrupt => step matches SearchStep::Remove(name) && name@ == old(
                    self,
                ).left().last(),
                Found::Valid(m) => step == SearchStep::Load(m),
            },
            forall|look: spec_fn(Seq<u8>) -> Found| #[trigger]
                look(old(self).left().last()) == found ==> {
                    &&& loaded(old(self).left(), look) == match step {
                        SearchStep::Load(m) => Some(m),
                        _ => loaded(final(self).left(), look),
                    }
                    &&& removed(old(self).left(), look) == match step {
                        SearchStep::Load(_) => Seq::empty(),
                        SearchStep::Remove(name) => removed(final(self).left(), look).push(name@),
                        SearchStep::Next => removed(final(self).left(), look),
                    }
                },
    {
        assert(self.left@.len() > 0);
        let name = match self.left.pop() {
            Some(name) => name,
            None => Vec::new(),
        };
        assert(self.left() =~= old(self).left().drop_last());
        match found {
            Found::Unreadable => SearchStep::Next,
            Found::Corrupt => SearchStep::Remove(name),
            Found::Valid(m) => SearchStep::Load(m),
        }
    }
}

/// What a search loads, where `look` is what a look into each file finds.
pub open spec fn loaded(left: Seq<Seq<u8>>, look: spec_fn(Seq<u8>) -> Found) -> Option<
    CheckpointManifest,
>
    decreases left.len(),
{
    if left.len() == 0 {
        None
    } else {
        match look(left.last()) {
            Found::Valid(m) => Some(m),
            _ => loaded(left.drop_last(), look),
        }
    }
}

/// What a search removes on the way.
pub open spec fn removed(left: Seq<Seq<u8>>, look: spec_fn(Seq<u8>) -> Found) -> Seq<Seq<u8>>
    decreases left.len(),
{
    if left.len() == 0 {
        Seq::empty()
    } else {
        match look(left.last()) {
            Found::Valid(_) => Seq::empty(),
            Found::Corrupt => removed(left.drop_last(), look).push(left.last()),
            Found::Unreadable => removed(left.drop_last(), look),
        }
    }
}

/// A search finds a checkpoint if any file holds one, and it is that of the last such file.
pub proof fn law_loads_the_latest_valid(left: Seq<Seq<u8>>, look: spec_fn(Seq<u8>) -> Found)
    ensures
        match loaded(left, look) {
            Some(m) => exists|i: int|
                {
                    &&& 0 <= i < left.len()
                    &&& look(#[trigger] left[i]) == Found::Valid(m)
                    &&& forall|j: int| i < j < left.len() ==> !(look(#[trigger] left[j]) is Valid)
                },
            None => forall|i: int|
                0 <= i < left.len() ==> !(look(#[trigger] left[i]) is Valid),
        },
    decreases left.len(),
{
    if left.len() > 0 {
        let last = left.len() - 1;
        assert(left[last] == left.last());
        if !(look(left.last()) is Valid) {
            let rest = left.drop_last();
            law_loads_the_latest_valid(rest, look);
            if loaded(rest, look) is Some {
                let m = loaded(rest, look)->0;
                let i = choose|i: int|
                    {
                        &&& 0 <= i < rest.len()
                        &&& look(#[trigger] rest[i]) == Found::Valid(m)
                        &&& forall|j: int|
                            i < j < rest.len() ==> !(look(#[trigger] rest[j]) is Valid)
                    };
                assert(left[i] == rest[i]);
                assert forall|j: int| i < j < left.len() implies !(look(
                    #[trigger] left[j],
                ) is Valid) by {
                    if j < rest.len() {
                        assert(left[j] == rest[j]);
                    }
                }
            } else {
                assert forall|i: int| 0 <= i < left.len() implies !(look(
                    #[trigger] left[i],
                ) is Valid) by {
                    if i < rest.len() {
                        assert(left[i] == rest[i]);
                    }
                }
            }
        }
    }
}

/// A search removes only files that hold no checkpoint.
pub proof fn law_removes_only_corrupt(
    left: Seq<Seq<u8>>,
    look: spec_fn(Seq<u8>) -> Found,
    name: Seq<u8>,
)
    requires
        removed(left, look).contains(name),
    ensures
        look(name) is Corrupt,
        left.contains(name),
    decreases left.len(),
{
    if left.len() > 0 && !(look(left.last()) is Valid) {
        let rest = left.drop_last();
        let i = removed(left, look).index_of(name);
        assert(left[left.len() - 1] == left.last());
        if i < removed(rest, look).len() {
            assert(removed(rest, look)[i] == name);
            law_removes_only_corrupt(rest, look, name);
            let k = rest.index_of(name);
            assert(left[k] == name);
        }
    }
}

/// A file that holds no checkpoint.
pub open spec fn is_corrupt(look: spec_fn(Seq<u8>) -> Found) -> spec_fn(Seq<u8>) -> bool {
    |name: Seq<u8>| look(name) is Corrupt
}

/// A search removes exactly the files without a checkpoint that come after the one it loads, and
/// all such files where it loads none.
pub proof fn law_removes_exactly_the_corrupt_after(
    left: Seq<Seq<u8>>,
    look: spec_fn(Seq<u8>) -> Found,
)
    ensures
        match loaded(left, look) {
            Some(m) => exists|i: int|
                {
                    &&& 0 <= i < left.len()
                    &&& look(#[trigger] left[i]) == Found::Valid(m)
                    &&& forall|j: int| i < j < left.len() ==> !(look(#[trigger] left[j]) is Valid)
                    &&& removed(left, look) == left.skip(i + 1).filter(is_corrupt(look))
                },
            None => removed(left, look) == left.filter(is_corrupt(look)),
        },
    decreases left.len(),
{
    reveal(Seq::filter);
    if left.len() > 0 {
        let last = left.len() - 1;
        let rest = left.drop_last();
        assert(left[last] == left.last());
        if look(left.last()) is Valid {
            assert(left.skip(last + 1) =~= Seq::empty());
            assert(look(left[last]) == Found::Valid(loaded(left, look)->0));
            assert(removed(left, look) =~= left.skip(last + 1).filter(is_corrupt(look)));
        } else {
            law_removes_exactly_the_corrupt_after(rest, look);
            if loaded(rest, look) is Some {
                let m = loaded(rest, look)->0;
                let i = choose|i: int|
                    {
                        &&& 0 <= i < rest.len()
                        &&& look(#[trigger] rest[i]) == Found::Valid(m)
                        &&& forall|j: int|
                            i < j < rest.len() ==> !(look(#[trigger] rest[j]) is Valid)
                        &&& removed(rest, look) == rest.skip(i + 1).filter(is_corrupt(look))
                    };
                assert(left[i] == rest[i]);
                assert(left.skip(i + 1).drop_last() =~= rest.skip(i + 1));
                assert(left.skip(i + 1).last() == left.last());
                assert forall|j: int| i < j < left.len() implies !(look(
                    #[trigger] left[j],
                ) is Valid) by {
                    if j < rest.len() {
                        assert(left[j] == rest[j]);
                    }
                }
            }
        }
    }
}

/// What was saved last is what is loaded: where the files found hold the checkpoint saved under
/// number `id` and none with a higher number, the search loads that checkpoint. Files that were
/// not saved under a number may be there, as long as none of them comes later and holds a
/// checkpoint.
pub proof fn law_load_gives_back_the_last_save(
    found: Seq<Seq<u8>>,
    left: Seq<Seq<u8>>,
    look: spec_fn(Seq<u8>) -> Found,
    id: CheckpointId,
    saved: CheckpointManifest,
)
    requires
        names::lists_checkpoints(found, left),
        found.contains(names::name_of(id)),
        look(names::name_of(id)) == Found::Valid(saved),
        forall|other: CheckpointId| #[trigger]
            found.contains(names::name_of(other)) ==> other <= id,
        forall|name: Seq<u8>| #[trigger]
            found.contains(name) && names::is_checkpoint(name) && !names::is_numbered(name)
                && look(name) is Valid ==> names::no_later(name, names::name_of(id)),
    ensures
        loaded(left, look) == Some(saved),
{
    let latest = names::name_of(id);
    names::law_only_complete_files_count(id);
    names::law_lists_what_was_found(found, left, latest);
    law_loads_the_latest_valid(left, look);
    let at = left.index_of(latest);
    assert(look(left[at]) is Valid);
    let m = loaded(left, look)->0;
    let i = choose|i: int|
        {
            &&& 0 <= i < left.len()
            &&& look(#[trigger] left[i]) == Found::Valid(m)
            &&& forall|j: int| i < j < left.len() ==> !(look(#[trigger] left[j]) is Valid)
        };
    assert(left.contains(left[i]));
    names::law_lists_what_was_found(found, left, left[i]);
    if i > at {
        assert(names::no_later(left[at], left[i]));
        if names::is_numbered(left[i]) {
            let other = choose|k: CheckpointId| left[i] == #[trigger] names::name_of(k);
            if other < id {
                names::law_names_keep_order(other, id);
            }
        } else {
            names::lemma_no_later_antisymmetric(left[at], left[i]);
        }
    }
}

/// A store that is opened anew on files that hold checkpoints goes on after them: its next
/// checkpoint overwrites none of their files, and is what is loaded from then on.
pub proof fn law_load_after_reopening(
    found: Seq<Seq<u8>>,
    reopened: CheckpointStore,
    left: Seq<Seq<u8>>,
    look: spec_fn(Seq<u8>) -> Found,
    saved: CheckpointManifest,
)
    requires
        reopened.last_id < u64::MAX,
        forall|id: CheckpointId| #[trigger]
            found.contains(names::name_of(id)) ==> id <= reopened.last_id,
        names::lists_checkpoints(found.push(names::name_of((reopened.last_id + 1) as u64)), left),
        look(names::name_of((reopened.last_id + 1) as u64)) == Found::Valid(saved),
        forall|name: Seq<u8>| #[trigger]
            found.contains(name) && names::is_checkpoint(name) && !names::is_numbered(name)
                && look(name) is Valid ==> names::no_later(
                name,
                names::name_of((reopened.last_id + 1) as u64),
            ),
    ensures
        !found.contains(names::name_of((reopened.last_id + 1) as u64)),
        loaded(left, look) == Some(saved),
{
    let id = (reopened.last_id + 1) as u64;
    let all = found.push(names::name_of(id));
    assert(all[found.len() as int] == names::name_of(id));
    assert forall|name: Seq<u8>| #[trigger] all.contains(name) implies found.contains(name) || name
        == names::name_of(id) by {
        let k = all.index_of(name);
        if k < found.len() {
            assert(found[k] == name);
        }
    }
    assert forall|other: CheckpointId| #[trigger]
        all.contains(names::name_of(other)) implies other <= id by {
        names::law_names_differ(other, id);
    }
    law_load_gives_back_the_last_save(all, left, look, id, saved);
}

/// How far saving a checkpoint came before it was done or cut off.
pub enum SaveProgress {
    NotBegun,
    /// That much of the contents is in the file that is written to first.
    Writing(Seq<u8>),
    /// All of the contents are.
    Written,
    /// The file has its final name.
    Renamed,
}

/// The files after saving came that far.
pub open spec fn disk_after(
    disk: Map<Seq<u8>, Seq<u8>>,
    id: CheckpointId,
    contents: Seq<u8>,
    progress: SaveProgress,
) -> Map<Seq<u8>, Seq<u8>> {
    let (tmp, name) = (names::tmp_name_of(id), names::name_of(id));
    match progress {
        SaveProgress::NotBegun => disk,
        SaveProgress::Writing(part) => disk.insert(tmp, part),
        SaveProgress::Written => disk.insert(tmp, contents),
        SaveProgress::Renamed => disk.remove(tmp).insert(name, contents),
    }
}

/// A checkpoint is saved as a whole or not at all. Once it is saved, its file holds the contents
/// and the file that it was written to is gone; before, its file is as it was, so never half
/// written. No other file changes, and no other one is taken for a checkpoint than before.
pub proof fn law_saving_is_all_or_nothing(
    disk: Map<Seq<u8>, Seq<u8>>,
    id: CheckpointId,
    contents: Seq<u8>,
    progress: SaveProgress,
)
    ensures
        ({
            let after = disk_after(disk, id, contents, progress);
            let (tmp, name) = (names::tmp_name_of(id), names::name_of(id));
            &&& progress is Renamed ==> after.contains_key(name) && after[name] == contents
                && !after.contains_key(tmp)
            &&& !(progress is Renamed) ==> after.contains_key(name) == disk.contains_key(name)
                && after[name] == disk[name]
            &&& forall|other: Seq<u8>|
                other != name && other != tmp ==> #[trigger] after.contains_key(other)
                    == disk.contains_key(other) && after[other] == disk[other]
            &&& forall|other: Seq<u8>|
                other != name && names::is_checkpoint(other) ==> #[trigger] after.contains_key(
                    other,
                ) == disk.contains_key(other)
        }),
{
    names::law_only_complete_files_count(id);
}

/// Saving takes one number after the other, whether or not what is saved comes to be written: the
/// store after `n` saves has used up `n` numbers.
pub proof fn law_every_save_takes_a_number(stores: Seq<CheckpointStore>, n: int)
    requires
        0 <= n < stores.len(),
        forall|i: int|
            0 < i < stores.len() ==> (#[trigger] stores[i]).last_id == stores[i - 1].last_id + 1,
    ensures
        stores[n].last_id == stores[0].last_id + n,
    decreases n,
{
    if n > 0 {
        law_every_save_takes_a_number(stores, n - 1);
    }
}

/// A checkpoint that was cut off before its file was renamed changes nothing: the file that it
/// was being written to is not looked into, and the same checkpoint as before is loaded.
pub proof fn law_unfinished_save_changes_nothing(
    found: Seq<Seq<u8>>,
    id: CheckpointId,
    left: Seq<Seq<u8>>,
    left_after: Seq<Seq<u8>>,
)
    requires
        names::lists_checkpoints(found, left),
        names::lists_checkpoints(found.push(names::tmp_name_of(id)), left_after),
    ensures
        left_after == left,
{
    names::law_only_complete_files_count(id);
    let tmp = names::tmp_name_of(id);
    reveal(Seq::filter);
    assert(found.push(tmp).drop_last() =~= found);
    names::law_one_list(found, left, left_after);
}

/// What operators implement to save and restore their state.
pub trait Checkpointable {
    fn save_state(&self) -> serde_json::Value;

    fn restore_state(&mut self, state: &serde_json::Value);
}

} // verus!
