use kvs::engines::index::KeyIndex;
use kvs::engines::keyorder::key_less;
use kvs::engines::kvs::{
    command_value, load, Command, CommandPos, KvStore, LogEntry, COMPACTION_THRESHOLD,
};
use kvs::KvsError;

fn set(key: &str, value: &str, end: u64) -> LogEntry {
    LogEntry { command: Command::set(key.to_owned(), value.to_owned()), end }
}

fn rm(key: &str, end: u64) -> LogEntry {
    LogEntry { command: Command::remove(key.to_owned()), end }
}

fn pos(gen: u64, pos: u64, len: u64) -> CommandPos {
    CommandPos { gen, pos, len }
}

#[test]
fn command_pos_from_range() {
    assert_eq!(CommandPos::from((3, 10..25)), pos(3, 10, 15));
    assert_eq!(CommandPos::from((1, 7..7)), pos(1, 7, 0));
}

#[test]
fn key_order_is_byte_order() {
    assert!(key_less("a", "b"));
    assert!(key_less("ab", "b"));
    assert!(key_less("", "a"));
    assert!(!key_less("a", "a"));
    assert!(!key_less("b", "ab"));
    assert!(key_less("z", "é"));
    assert!(key_less("a", "ab"));
    for (x, y) in [("a", "b"), ("é", "z"), ("", ""), ("abc", "abd"), ("日本", "日")] {
        assert_eq!(key_less(x, y), x < y);
    }
}

#[test]
fn key_index_keeps_keys_in_order() {
    let mut index = KeyIndex::new();
    assert_eq!(index.insert("c".to_owned(), pos(1, 0, 1)), None);
    assert_eq!(index.insert("a".to_owned(), pos(1, 1, 2)), None);
    assert_eq!(index.insert("b".to_owned(), pos(1, 3, 3)), None);
    assert_eq!(index.insert("a".to_owned(), pos(1, 6, 4)), Some(pos(1, 1, 2)));
    assert_eq!(index.values_in_order(), vec![pos(1, 6, 4), pos(1, 3, 3), pos(1, 0, 1)]);
    assert_eq!(index.remove("b"), Some(pos(1, 3, 3)));
    assert_eq!(index.remove("b"), None);
    assert_eq!(index.values_in_order(), vec![pos(1, 6, 4), pos(1, 0, 1)]);
    assert_eq!(index.len(), 2);
    assert!(index.contains_key("c"));
    assert_eq!(index.get("a"), Some(pos(1, 6, 4)));
}

#[test]
fn load_replays_a_log() {
    let mut index = KeyIndex::new();
    // a:0..10, b:10..25, a:25..40 (replaces 10 bytes), rm b 40..50 (15 + 10 stale)
    let entries = vec![set("a", "1", 10), set("b", "2", 25), set("a", "3", 40), rm("b", 50)];
    let stale = load(7, &entries, &mut index);
    assert_eq!(stale, Some(35));
    assert_eq!(index.get("a"), Some(pos(7, 25, 15)));
    assert_eq!(index.get("b"), None);
    let live: u64 = index.values_in_order().iter().map(|p| p.len).sum();
    assert_eq!(stale.unwrap() + live, 50);
}

#[test]
fn reopen_recovers_recorded_index() {
    let mut store = KvStore::open(&Vec::new(), &Vec::new()).unwrap();
    store.record_set("x".to_owned(), 0, 12);
    store.record_set("y".to_owned(), 12, 20);
    store.record_set("x".to_owned(), 20, 33);
    store.record_remove("y");
    let log = vec![set("x", "1", 12), set("y", "2", 20), set("x", "3", 33), rm("y", 41)];
    let reopened = KvStore::open(&vec![1], &vec![log]).unwrap();
    assert_eq!(reopened.get("x"), store.get("x"));
    assert_eq!(reopened.get("y"), store.get("y"));
    assert_eq!(reopened.get("x"), Some(pos(1, 20, 13)));
    assert_eq!(reopened.current_gen(), 2);
}

#[test]
fn load_counts_remove_of_absent_key() {
    let mut index = KeyIndex::new();
    let stale = load(1, &vec![rm("x", 12)], &mut index);
    assert_eq!(stale, Some(12));
    assert_eq!(index.len(), 0);
}

#[test]
fn load_of_empty_log() {
    let mut index = KeyIndex::new();
    assert_eq!(load(1, &Vec::new(), &mut index), Some(0));
}

#[test]
fn load_reports_stale_count_overflow() {
    let mut index = KeyIndex::new();
    index.insert("a".to_owned(), pos(1, 0, u64::MAX));
    let stale = load(2, &vec![set("a", "x", 5)], &mut index);
    assert_eq!(stale, Some(u64::MAX));
    let stale = load(3, &vec![rm("a", 5)], &mut index);
    assert_eq!(stale, Some(10));
    let mut index = KeyIndex::new();
    index.insert("a".to_owned(), pos(1, 0, u64::MAX));
    assert_eq!(load(2, &vec![rm("a", 1)], &mut index), None);
    assert_eq!(index.get("a"), None);
}

#[test]
fn open_empty_directory() {
    let store = KvStore::open(&Vec::new(), &Vec::new()).unwrap();
    assert_eq!(store.current_gen(), 1);
    assert_eq!(store.uncompacted(), 0);
    assert!(store.has_generation(1));
    assert!(!store.has_generation(0));
}

#[test]
fn open_replays_generations_in_order() {
    let gens = vec![1, 2];
    let logs = vec![
        vec![set("a", "1", 10), set("b", "2", 20)],
        vec![set("a", "3", 8), rm("b", 15)],
    ];
    let store = KvStore::open(&gens, &logs).unwrap();
    assert_eq!(store.current_gen(), 3);
    assert_eq!(store.get("a"), Some(pos(2, 0, 8)));
    assert_eq!(store.get("b"), None);
    // first log: nothing stale; second: a's old 10 bytes + b's 10 bytes + 7 of the remove
    assert_eq!(store.uncompacted(), 27);
    assert!(store.has_generation(1) && store.has_generation(2) && store.has_generation(3));
}

#[test]
fn open_adds_up_the_stale_bytes_of_every_log() {
    let gens = vec![1, 2];
    let logs = vec![vec![set("a", "1", 10), set("a", "2", 20)], Vec::new()];
    let store = KvStore::open(&gens, &logs).unwrap();
    assert_eq!(store.uncompacted(), 10);
    let logs = vec![vec![set("a", "1", 10), set("a", "2", 20)], vec![rm("a", 5)]];
    let store = KvStore::open(&gens, &logs).unwrap();
    assert_eq!(store.uncompacted(), 25);
    assert_eq!(store.get("a"), None);
}

#[test]
fn open_fails_when_stale_total_overflows() {
    let big = vec![set("a", "1", u64::MAX), set("a", "2", u64::MAX)];
    assert!(KvStore::open(&vec![1, 2], &vec![big, vec![rm("b", 1)]]).is_none());
}

#[test]
fn open_fails_when_generation_cannot_advance() {
    assert!(KvStore::open(&vec![u64::MAX], &vec![Vec::new()]).is_none());
}

#[test]
fn record_set_get_and_remove() {
    let mut store = KvStore::open(&Vec::new(), &Vec::new()).unwrap();
    assert!(!store.record_set("k".to_owned(), 0, 30));
    assert_eq!(store.get("k"), Some(pos(1, 0, 30)));
    assert!(!store.record_set("k".to_owned(), 30, 70));
    assert_eq!(store.get("k"), Some(pos(1, 30, 40)));
    assert_eq!(store.uncompacted(), 30);
    assert!(store.contains_key("k"));
    let cmd = store.remove_command("k".to_owned()).unwrap();
    assert!(matches!(cmd, Command::Remove { ref key } if key == "k"));
    store.record_remove("k");
    assert_eq!(store.get("k"), None);
    assert_eq!(store.uncompacted(), 70);
    assert!(matches!(store.remove_command("k".to_owned()), Err(KvsError::KeyNotFound)));
}

#[test]
fn compaction_is_due_past_threshold() {
    let mut store = KvStore::open(&Vec::new(), &Vec::new()).unwrap();
    assert_eq!(COMPACTION_THRESHOLD, 1048576);
    store.record_set("k".to_owned(), 0, COMPACTION_THRESHOLD);
    assert!(!store.record_set("k".to_owned(), COMPACTION_THRESHOLD, COMPACTION_THRESHOLD + 1));
    assert!(!store.needs_compaction());
    assert!(store.record_set("k".to_owned(), COMPACTION_THRESHOLD + 1, COMPACTION_THRESHOLD + 2));
    assert!(store.needs_compaction());
}

#[test]
fn compaction_moves_live_commands_back_to_back() {
    let gens = vec![1];
    let logs = vec![vec![set("b", "2", 10), set("a", "1", 25), set("b", "3", 31), set("c", "4", 40)]];
    let mut store = KvStore::open(&gens, &logs).unwrap();
    assert_eq!(store.uncompacted(), 10);
    let compaction_gen = store.begin_compaction();
    assert_eq!(compaction_gen, 3);
    assert_eq!(store.current_gen(), 4);
    store.add_generation(4);
    store.add_generation(3);
    let entries = store.compaction_entries();
    assert_eq!(entries, vec![pos(1, 10, 15), pos(1, 25, 6), pos(1, 31, 9)]);
    let copied: Vec<u64> = entries.iter().map(|p| p.len).collect();
    store.relocate(compaction_gen, &copied);
    assert_eq!(store.get("a"), Some(pos(3, 0, 15)));
    assert_eq!(store.get("b"), Some(pos(3, 15, 6)));
    assert_eq!(store.get("c"), Some(pos(3, 21, 9)));
    let mut stale = store.stale_generations(compaction_gen);
    stale.sort();
    assert_eq!(stale, vec![1, 2]);
    store.complete_compaction(compaction_gen);
    assert_eq!(store.uncompacted(), 0);
    assert!(!store.has_generation(1) && !store.has_generation(2));
    assert!(store.has_generation(3) && store.has_generation(4));
}

#[test]
fn partial_relocation_moves_only_a_prefix() {
    let mut store = KvStore::open(&vec![1], &vec![vec![set("a", "1", 5), set("b", "2", 9)]]).unwrap();
    let compaction_gen = store.begin_compaction();
    store.add_generation(compaction_gen);
    store.relocate(compaction_gen, &vec![5]);
    assert_eq!(store.get("a"), Some(pos(compaction_gen, 0, 5)));
    assert_eq!(store.get("b"), Some(pos(1, 5, 4)));
}

#[test]
fn command_value_of_read_commands() {
    assert_eq!(command_value(Command::set("k".to_owned(), "v".to_owned())).unwrap(), "v");
    assert!(matches!(
        command_value(Command::remove("k".to_owned())),
        Err(KvsError::UnexpectedCommandType)
    ));
}

#[test]
fn reopen_after_a_session_recovers_every_key() {
    let mut store = KvStore::open(&vec![1], &vec![vec![set("a", "1", 10)]]).unwrap();
    assert_eq!(store.current_gen(), 2);
    store.record_set("b".to_owned(), 0, 12);
    store.record_set("a".to_owned(), 12, 20);
    store.record_remove("b");
    store.record_set("b".to_owned(), 29, 40);
    let logs = vec![
        vec![set("a", "1", 10)],
        vec![set("b", "2", 12), set("a", "3", 20), rm("b", 29), set("b", "4", 40)],
    ];
    let reopened = KvStore::open(&vec![1, 2], &logs).unwrap();
    for k in ["a", "b", "c"] {
        assert_eq!(reopened.get(k), store.get(k));
    }
    assert_eq!(reopened.get("b"), Some(pos(2, 29, 11)));
}
