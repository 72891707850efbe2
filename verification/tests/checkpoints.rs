use std::collections::HashMap;
use std::time::Duration;

use serde_json::Value;
use streamline::checkpoint::names::{
    file_name, id_of, is_checkpoint_file, list_checkpoints, tmp_file_name,
};
use streamline::checkpoint::{
    unix_millis, CheckpointManifest, CheckpointStore, Checkpointable, Found, SearchStep,
};

/// Files by name.
type Disk = HashMap<Vec<u8>, String>;

fn to_json(m: &CheckpointManifest) -> String {
    let mut operators = serde_json::Map::new();
    for (name, state) in &m.operators {
        operators.insert(name.clone(), Value::from(state.clone()));
    }
    let mut all = serde_json::Map::new();
    all.insert("id".to_owned(), Value::from(m.id));
    all.insert("timestamp".to_owned(), Value::from(m.timestamp));
    all.insert("operator_count".to_owned(), Value::from(m.operator_count as u64));
    all.insert("operators".to_owned(), Value::Object(operators));
    serde_json::to_string_pretty(&Value::Object(all)).unwrap()
}

fn from_json(json: &str) -> Option<CheckpointManifest> {
    let v: Value = serde_json::from_str(json).ok()?;
    let mut operators = HashMap::new();
    for (name, state) in v.get("operators")?.as_object()? {
        operators.insert(name.clone(), state.as_str()?.to_owned());
    }
    Some(CheckpointManifest {
        id: v.get("id")?.as_u64()?,
        timestamp: v.get("timestamp")?.as_u64()?,
        operator_count: v.get("operator_count")?.as_u64()? as usize,
        operators,
    })
}

fn save(store: &mut CheckpointStore, disk: &mut Disk, states: HashMap<String, String>) -> u64 {
    let s = store.save(states);
    disk.insert(s.tmp_name.clone(), to_json(&s.manifest));
    let json = disk.remove(&s.tmp_name).unwrap();
    disk.insert(s.name, json);
    s.manifest.id
}

fn load_latest(store: &CheckpointStore, disk: &mut Disk) -> Option<CheckpointManifest> {
    let mut search = store.load_latest(disk.keys().cloned().collect());
    loop {
        let found = match search.next_file() {
            None => return None,
            Some(name) => match disk.get(name).map(|s| s.as_str()) {
                None | Some("unreadable") => Found::Unreadable,
                Some(json) => match from_json(json) {
                    Some(m) => Found::Valid(m),
                    None => Found::Corrupt,
                },
            },
        };
        match search.take(found) {
            SearchStep::Next => {}
            SearchStep::Remove(name) => {
                disk.remove(&name);
            }
            SearchStep::Load(m) => return Some(m),
        }
    }
}

fn states(json: &str) -> HashMap<String, String> {
    let mut all = HashMap::new();
    all.insert("op1".to_owned(), json.to_owned());
    all
}

fn new_store() -> CheckpointStore {
    CheckpointStore::new(Duration::from_secs(60), &vec![])
}

fn name(s: &str) -> Vec<u8> {
    s.as_bytes().to_vec()
}

#[test]
fn checkpoint_save_restore() {
    let mut disk = Disk::new();
    let mut store = new_store();

    let mut state = HashMap::new();
    state.insert("op1".to_owned(), r#"{"count":42}"#.to_owned());

    let id = save(&mut store, &mut disk, state);
    let m = load_latest(&store, &mut disk).unwrap();
    assert_eq!(m.id, id);
    assert!(m.operators.contains_key("op1"));
    assert_eq!(m.operators["op1"], r#"{"count":42}"#);
    assert_eq!(m.operator_count, 1);
}

#[test]
fn numbers_are_given_in_order() {
    let mut disk = Disk::new();
    let mut store = new_store();
    assert_eq!(save(&mut store, &mut disk, states("1")), 1);
    assert_eq!(save(&mut store, &mut disk, states("2")), 2);
    assert_eq!(store.last_id, 2);
    assert_eq!(store.interval(), Duration::from_secs(60));
    let m = load_latest(&store, &mut disk).unwrap();
    assert_eq!((m.id, m.operators["op1"].as_str()), (2, "2"));
}

#[test]
fn an_unfinished_save_is_not_loaded() {
    let mut disk = Disk::new();
    let mut store = new_store();
    let id = save(&mut store, &mut disk, states("1"));
    let unfinished = store.save(states("2"));
    disk.insert(unfinished.tmp_name, "{\"id\":".to_owned());
    assert_eq!(load_latest(&store, &mut disk).unwrap().id, id);
    assert_eq!(disk.len(), 2);
}

#[test]
fn corrupt_files_are_removed_and_unreadable_ones_kept() {
    let mut disk = Disk::new();
    let mut store = new_store();
    let id = save(&mut store, &mut disk, states("1"));
    disk.insert(file_name(2), "nonsense".to_owned());
    disk.insert(file_name(3), "unreadable".to_owned());
    assert_eq!(load_latest(&store, &mut disk).unwrap().id, id);
    assert!(!disk.contains_key(&file_name(2)));
    assert!(disk.contains_key(&file_name(3)));
}

#[test]
fn nothing_is_loaded_from_nothing() {
    let mut disk = Disk::new();
    disk.insert(name("notes.txt"), "{}".to_owned());
    assert!(load_latest(&new_store(), &mut disk).is_none());
    assert_eq!(disk.len(), 1);
}

#[test]
fn cleaning_up_keeps_the_latest() {
    let store = new_store();
    let found: Vec<Vec<u8>> =
        vec![file_name(12), file_name(9), name("notes.txt"), file_name(10), tmp_file_name(8)];
    assert_eq!(store.gc(found.clone(), 1), vec![file_name(9), file_name(10)]);
    assert!(store.gc(found.clone(), 3).is_empty());
    assert!(store.gc(found.clone(), 9).is_empty());
    assert_eq!(store.gc(found, 0), vec![file_name(9), file_name(10), file_name(12)]);
}

#[test]
fn a_copy_is_ordered_by_its_name() {
    let copy = name("checkpoint_00000001_copy.json");
    let mut disk = Disk::new();
    let mut store = new_store();
    save(&mut store, &mut disk, states("1"));
    let first = disk[&file_name(1)].clone();
    disk.insert(copy.clone(), first);
    save(&mut store, &mut disk, states("2"));
    assert_eq!(load_latest(&store, &mut disk).unwrap().id, 2);
    assert_eq!(disk.len(), 3);

    let found: Vec<Vec<u8>> = disk.keys().cloned().collect();
    assert_eq!(list_checkpoints(found.clone()), vec![file_name(1), copy.clone(), file_name(2)]);
    assert_eq!(store.gc(found.clone(), 2), vec![file_name(1)]);
    assert_eq!(store.gc(found, 1), vec![file_name(1), copy.clone()]);
    assert_eq!(store.gc(vec![file_name(2), copy.clone()], 1), vec![copy]);
}

#[test]
fn only_what_comes_after_the_loaded_file_is_removed() {
    let mut disk = Disk::new();
    let mut store = new_store();
    disk.insert(name("a.json"), "nonsense".to_owned());
    save(&mut store, &mut disk, states("1"));
    disk.insert(name("checkpoint_00000001_copy.json"), "nonsense".to_owned());
    disk.insert(name("checkpoint_1.json"), "nonsense".to_owned());
    assert_eq!(load_latest(&store, &mut disk).unwrap().id, 1);
    assert_eq!(disk.len(), 2);
    assert!(disk.contains_key(&name("a.json")));
}

#[test]
fn cleaning_up_again_removes_nothing() {
    let mut disk = Disk::new();
    let mut store = new_store();
    for n in ["1", "2", "3"] {
        save(&mut store, &mut disk, states(n));
    }
    for surplus in store.gc(disk.keys().cloned().collect(), 2) {
        disk.remove(&surplus);
    }
    assert_eq!(disk.len(), 2);
    assert!(store.gc(disk.keys().cloned().collect(), 2).is_empty());
    assert_eq!(load_latest(&store, &mut disk).unwrap().id, 3);
}

#[test]
fn names_are_padded() {
    assert_eq!(file_name(1), name("checkpoint_00000001.json"));
    assert_eq!(file_name(12_345_678), name("checkpoint_12345678.json"));
    assert_eq!(file_name(1_234_567_890), name("checkpoint_1234567890.json"));
    assert_eq!(file_name(u64::MAX), name("checkpoint_18446744073709551615.json"));
    assert_eq!(tmp_file_name(7), name("checkpoint_00000007.json.tmp"));
    assert_eq!(file_name(42), format!("checkpoint_{:08}.json", 42).into_bytes());
}

#[test]
fn files_are_ordered_as_their_numbers() {
    for (a, b) in [
        (0u64, 1u64), (9, 10), (99, 100), (1_999_999, 2_000_000), (99_999_998, 99_999_999),
        (99_999_999, 100_000_000), (5, u64::MAX), (999_999_999, 1_000_000_000),
    ] {
        let sorted = vec![file_name(a), file_name(b)];
        assert_eq!(list_checkpoints(vec![file_name(b), file_name(a)]), sorted, "{} {}", a, b);
        assert_eq!(list_checkpoints(sorted.clone()), sorted);
    }
    let long = name("checkpoint_100000000.json");
    let short = name("checkpoint_99999999_copy.json");
    assert_eq!(list_checkpoints(vec![long.clone(), short.clone()]), vec![short, long]);
    let others = vec![name("zz.json"), file_name(3), name("a.json"), name("b.txt")];
    assert_eq!(list_checkpoints(others), vec![name("a.json"), file_name(3), name("zz.json")]);
}

#[test]
fn numbers_are_read_back_from_names() {
    for id in [0u64, 7, 99_999_999, 100_000_000, u64::MAX] {
        assert_eq!(id_of(&file_name(id)), Some(id));
        assert_eq!(id_of(&tmp_file_name(id)), None);
    }
    for other in [
        "a.json", "checkpoint_1.json", "checkpoint_0000000x.json", "checkpoint_000000001.json",
        "checkpoint_18446744073709551616.json", "checkpoint_00000001.jsox", "heckpoint__00000001.json",
    ] {
        assert_eq!(id_of(&name(other)), None, "{}", other);
    }
}

#[test]
fn a_reopened_store_goes_on_after_what_it_finds() {
    let mut disk = Disk::new();
    let mut a = new_store();
    save(&mut a, &mut disk, states("1"));
    save(&mut a, &mut disk, states("2"));
    disk.insert(name("other.json"), "[]".to_owned());
    let mut b = CheckpointStore::new(Duration::from_secs(60), &disk.keys().cloned().collect());
    assert_eq!(b.last_id, 2);
    assert_eq!(save(&mut b, &mut disk, states("3")), 3);
    let m = load_latest(&b, &mut disk).unwrap();
    assert_eq!(m.operators, states("3"));
    assert!(disk.contains_key(&file_name(1)) && disk.contains_key(&file_name(2)));
}

#[test]
fn a_failed_write_uses_up_its_number_and_leaves_the_rest() {
    let mut disk = Disk::new();
    let mut store = new_store();
    save(&mut store, &mut disk, states("1"));
    let failed = store.save(states("2"));
    assert_eq!(failed.manifest.id, 2);
    disk.insert(failed.tmp_name, "{".to_owned());
    assert_eq!(save(&mut store, &mut disk, states("3")), 3);
    assert!(!disk.contains_key(&file_name(2)));
    assert_eq!(load_latest(&store, &mut disk).unwrap().id, 3);
}

#[test]
fn only_json_files_are_checkpoints() {
    assert!(is_checkpoint_file(&name("a.json")));
    assert!(is_checkpoint_file(&name("..json")));
    assert!(is_checkpoint_file(&file_name(3)));
    assert!(!is_checkpoint_file(&tmp_file_name(3)));
    assert!(!is_checkpoint_file(&name(".json")));
    assert!(!is_checkpoint_file(&name("json")));
    assert!(!is_checkpoint_file(&name("a.jsonx")));
    assert!(!is_checkpoint_file(&name("")));
}

#[test]
fn the_time_of_a_checkpoint() {
    assert_eq!(unix_millis(Some(Duration::from_nanos(1_999_999))), 1);
    assert_eq!(unix_millis(None), 0);
    // Not before the first day of 2020.
    assert!(CheckpointManifest::new(1, states("1")).timestamp > 1_577_836_800_000);
    let m = CheckpointManifest::at(4, 99, states("1"));
    assert_eq!((m.id, m.timestamp, m.operator_count), (4, 99, 1));
}

struct Counter(u64);

impl Checkpointable for Counter {
    fn save_state(&self) -> Value {
        Value::from(self.0)
    }

    fn restore_state(&mut self, state: &Value) {
        self.0 = state.as_u64().unwrap_or(0);
    }
}

#[test]
fn state_is_restored() {
    let mut c = Counter(0);
    c.restore_state(&Counter(17).save_state());
    assert_eq!(c.0, 17);
}
