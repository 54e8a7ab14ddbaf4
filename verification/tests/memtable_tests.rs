use tiny_bit::compaction::CompactionConfig;
use tiny_bit::index::Indexes;
use tiny_bit::keyvalue::KeyValue;
use tiny_bit::memtable::{MemTable, MemTableError};
use tiny_bit::sstable::SsTableDir;
use tiny_bit::wal::Wal;

fn kv(key: &str, value: &str) -> KeyValue {
    KeyValue::new((key.to_string(), value.to_string()))
}

fn fresh() -> (MemTable, Indexes) {
    (MemTable::new(Wal::new(), SsTableDir::new(0)), Indexes::new())
}

fn get(memtable: &MemTable, indexes: &mut Indexes, key: &str) -> Result<String, MemTableError> {
    memtable.get(key.to_string(), indexes)
}

#[test]
fn test_new_memtable_with_wal_data() {
    let wal = Wal::new();
    let mut memtable = MemTable::new(wal, SsTableDir::new(0));
    let mut indexes = Indexes::new();

    memtable.set("foo".to_string(), "bar".to_string()).unwrap();
    memtable.set("bar".to_string(), "baz".to_string()).unwrap();
    memtable
        .set("tadashi".to_string(), "mizu".to_string())
        .unwrap();

    let log = memtable.wal().as_bytes().clone();
    let new_memtable = MemTable::new_with_wal_data(Wal::from_bytes(log), SsTableDir::new(0));

    assert_eq!(
        new_memtable.get("foo".to_string(), &mut indexes).unwrap(),
        "bar".to_string()
    );
    assert_eq!(
        new_memtable.get("bar".to_string(), &mut indexes).unwrap(),
        "baz".to_string()
    );
    assert_eq!(
        new_memtable
            .get("tadashi".to_string(), &mut indexes)
            .unwrap(),
        "mizu".to_string()
    );
}

#[test]
fn test_insert_and_get_memtable() {
    let wal = Wal::new();
    let mut memtable = MemTable::new(wal, SsTableDir::new(0));
    let mut indexes = Indexes::new();

    memtable.set("foo".to_string(), "bar".to_string()).unwrap();
    memtable.set("bar".to_string(), "baz".to_string()).unwrap();
    memtable
        .set("tadashi".to_string(), "mizu".to_string())
        .unwrap();

    assert_eq!(
        memtable.get("foo".to_string(), &mut indexes).unwrap(),
        "bar".to_string()
    );
    assert_eq!(
        memtable.get("bar".to_string(), &mut indexes).unwrap(),
        "baz".to_string()
    );
    assert_eq!(
        memtable.get("tadashi".to_string(), &mut indexes).unwrap(),
        "mizu".to_string()
    );
}

#[test]
fn test_flush_memtable_to_sstable() {
    let wal = Wal::new();
    let mut memtable = MemTable::new(wal, SsTableDir::new(0));

    memtable.set("foo".to_string(), "bar".to_string()).unwrap();
    memtable.set("bar".to_string(), "baz".to_string()).unwrap();
    memtable
        .set("tadashi".to_string(), "mizu".to_string())
        .unwrap();

    let mut indexes = Indexes::new();
    memtable.flush_to_sstable(&mut indexes).unwrap();
}

#[test]
fn wal_replay_rebuilds_the_table() {
    let (mut memtable, mut indexes) = fresh();
    memtable.set("a".to_string(), "1".to_string()).unwrap();
    memtable.set("b".to_string(), "2".to_string()).unwrap();
    let log = memtable.wal().as_bytes().clone();
    let restarted = MemTable::new_with_wal_data(Wal::from_bytes(log), SsTableDir::new(0));
    assert_eq!(restarted.size(), 2);
    assert_eq!(get(&restarted, &mut indexes, "a").unwrap(), "1");
    assert_eq!(get(&restarted, &mut indexes, "b").unwrap(), "2");
}

#[test]
fn last_write_wins() {
    let (mut memtable, mut indexes) = fresh();
    memtable.set("a".to_string(), "1".to_string()).unwrap();
    memtable.set("a".to_string(), "2".to_string()).unwrap();
    assert_eq!(get(&memtable, &mut indexes, "a").unwrap(), "2");
    assert_eq!(memtable.size(), 1);
    assert_eq!(memtable.wal().read(), vec![kv("a", "1"), kv("a", "2")]);
    let log = memtable.wal().as_bytes().clone();
    let restarted = MemTable::new_with_wal_data(Wal::from_bytes(log), SsTableDir::new(0));
    assert_eq!(get(&restarted, &mut indexes, "a").unwrap(), "2");
    assert_eq!(restarted.size(), 1);
}

#[test]
fn new_table_does_not_read_the_log() {
    let mut wal = Wal::new();
    wal.append(kv("a", "1")).unwrap();
    let memtable = MemTable::new(wal, SsTableDir::new(0));
    let mut indexes = Indexes::new();
    assert_eq!(memtable.size(), 0);
    assert_eq!(
        get(&memtable, &mut indexes, "a"),
        Err(MemTableError::NoValueFound)
    );
    assert_eq!(memtable.wal().read(), vec![kv("a", "1")]);
}

#[test]
fn miss_is_no_value_found() {
    let (memtable, mut indexes) = fresh();
    assert_eq!(
        get(&memtable, &mut indexes, "never_set"),
        Err(MemTableError::NoValueFound)
    );
}

#[test]
fn set_refuses_record_that_does_not_fit() {
    let (mut memtable, mut indexes) = fresh();
    memtable.set("a".to_string(), "1".to_string()).unwrap();
    assert_eq!(
        memtable.set("k".repeat(256), "v".to_string()),
        Err(MemTableError::SetError)
    );
    assert_eq!(
        memtable.set("k".to_string(), "v".repeat(256)),
        Err(MemTableError::SetError)
    );
    assert_eq!(memtable.size(), 1);
    assert_eq!(memtable.wal().read(), vec![kv("a", "1")]);
    assert_eq!(
        get(&memtable, &mut indexes, "k"),
        Err(MemTableError::NoValueFound)
    );
}

#[test]
fn flush_moves_the_table_to_a_segment() {
    let (mut memtable, mut indexes) = fresh();
    memtable.set("foo".to_string(), "bar".to_string()).unwrap();
    memtable.set("bar".to_string(), "baz".to_string()).unwrap();
    memtable
        .set("tadashi".to_string(), "mizu".to_string())
        .unwrap();
    memtable.flush_to_sstable(&mut indexes).unwrap();

    assert_eq!(memtable.size(), 0);
    assert!(memtable.wal().as_bytes().is_empty());
    assert!(memtable.wal().read().is_empty());
    assert_eq!(get(&memtable, &mut indexes, "foo").unwrap(), "bar");
    assert_eq!(get(&memtable, &mut indexes, "bar").unwrap(), "baz");
    assert_eq!(get(&memtable, &mut indexes, "tadashi").unwrap(), "mizu");
    assert_eq!(
        get(&memtable, &mut indexes, "never_set"),
        Err(MemTableError::NoValueFound)
    );
}

#[test]
fn flush_writes_keys_in_ascending_order() {
    let (mut memtable, mut indexes) = fresh();
    memtable
        .set("tadashi".to_string(), "mizu".to_string())
        .unwrap();
    memtable.set("foo".to_string(), "bar".to_string()).unwrap();
    memtable.set("bar".to_string(), "baz".to_string()).unwrap();
    memtable.flush_to_sstable(&mut indexes).unwrap();

    let mut expected = kv("bar", "baz").write_to_bytes();
    expected.extend(kv("foo", "bar").write_to_bytes());
    expected.extend(kv("tadashi", "mizu").write_to_bytes());
    assert_eq!(expected.len(), 29);
    let dir = memtable.sstable_dir();
    assert_eq!(dir.len(), 1);
    assert_eq!(dir.read("0_sstable.dat", 0, 29), Some(expected));
    assert_eq!(dir.read("0_sstable.dat", 0, 30), None);
    assert_eq!(dir.level_of("0_sstable.dat"), Some(0));
}

#[test]
fn flush_records_each_key_at_its_record() {
    let (mut memtable, mut indexes) = fresh();
    memtable.set("foo".to_string(), "bar".to_string()).unwrap();
    memtable.set("bar".to_string(), "baz".to_string()).unwrap();
    memtable
        .set("tadashi".to_string(), "mizu".to_string())
        .unwrap();
    memtable.flush_to_sstable(&mut indexes).unwrap();

    let expected = [("bar", "baz", 0, 8), ("foo", "bar", 8, 8), ("tadashi", "mizu", 16, 13)];
    for (key, value, offset, length) in expected {
        let k = key.to_string();
        assert_eq!(indexes.get_file(&k), Some("0_sstable.dat".to_string()));
        assert_eq!(indexes.get_offset(&k), Some(offset));
        assert_eq!(indexes.get_len(&k), Some(length));
        let range = memtable
            .sstable_dir()
            .read("0_sstable.dat", offset, length)
            .unwrap();
        assert_eq!(KeyValue::read_from_bytes(range), vec![kv(key, value)]);
        assert_eq!(
            memtable.read_record("0_sstable.dat", offset, length, key),
            Some(value.to_string())
        );
    }
}

#[test]
fn table_shadows_the_index() {
    let (mut memtable, mut indexes) = fresh();
    memtable.set("a".to_string(), "old".to_string()).unwrap();
    memtable.flush_to_sstable(&mut indexes).unwrap();
    memtable.set("a".to_string(), "new".to_string()).unwrap();
    assert_eq!(get(&memtable, &mut indexes, "a").unwrap(), "new");
    memtable.flush_to_sstable(&mut indexes).unwrap();
    assert_eq!(get(&memtable, &mut indexes, "a").unwrap(), "new");
    assert_eq!(indexes.get_file(&"a".to_string()), Some("1_sstable.dat".to_string()));
    assert_eq!(memtable.sstable_dir().len(), 2);
}

#[test]
fn flush_fails_when_numbers_are_used_up() {
    let mut memtable = MemTable::new(Wal::new(), SsTableDir::new(u64::MAX));
    let mut indexes = Indexes::new();
    memtable.set("a".to_string(), "1".to_string()).unwrap();
    let r = memtable.flush_to_sstable(&mut indexes);
    assert!(matches!(r, Err(MemTableError::OtherError(_))));
    assert_eq!(memtable.size(), 1);
    assert_eq!(indexes.len(), 0);
    assert_eq!(memtable.wal().read(), vec![kv("a", "1")]);
    assert_eq!(get(&memtable, &mut indexes, "a").unwrap(), "1");
}

#[test]
fn dangling_index_entry_is_a_fault() {
    let (memtable, mut indexes) = fresh();
    indexes.create_index("a".to_string(), 0, 4, "9_sstable.dat".to_string());
    let r = get(&memtable, &mut indexes, "a");
    assert!(matches!(r, Err(MemTableError::OtherError(_))));
}

#[test]
fn index_entry_of_another_key_is_a_fault() {
    let (mut memtable, mut indexes) = fresh();
    memtable.set("a".to_string(), "1".to_string()).unwrap();
    memtable.set("b".to_string(), "2".to_string()).unwrap();
    memtable.flush_to_sstable(&mut indexes).unwrap();
    indexes.create_index("b".to_string(), 0, 4, "0_sstable.dat".to_string());
    assert!(matches!(
        get(&memtable, &mut indexes, "b"),
        Err(MemTableError::OtherError(_))
    ));
    indexes.create_index("a".to_string(), 0, 8, "0_sstable.dat".to_string());
    assert!(matches!(
        get(&memtable, &mut indexes, "a"),
        Err(MemTableError::OtherError(_))
    ));
    indexes.create_index("a".to_string(), 1, 3, "0_sstable.dat".to_string());
    assert!(matches!(
        get(&memtable, &mut indexes, "a"),
        Err(MemTableError::OtherError(_))
    ));
    assert_eq!(memtable.read_record("0_sstable.dat", 0, 4, "b"), None);
    assert_eq!(memtable.read_record("0_sstable.dat", 4, 4, "b"), Some("2".to_string()));
}

#[test]
fn compaction_keeps_the_later_value() {
    let (mut memtable, mut indexes) = fresh();
    memtable.set("k".to_string(), "first".to_string()).unwrap();
    memtable.set("a".to_string(), "1".to_string()).unwrap();
    memtable.flush_to_sstable(&mut indexes).unwrap();
    memtable.set("k".to_string(), "second".to_string()).unwrap();
    memtable.set("b".to_string(), "2".to_string()).unwrap();
    memtable.flush_to_sstable(&mut indexes).unwrap();
    assert_eq!(memtable.sstable_dir().count(0), 2);

    let config = CompactionConfig::new(2, 1);
    config.compact(&mut memtable, &mut indexes).unwrap();

    assert_eq!(memtable.sstable_dir().count(0), 0);
    assert_eq!(memtable.sstable_dir().count(1), 1);
    assert_eq!(memtable.sstable_dir().len(), 1);
    assert_eq!(get(&memtable, &mut indexes, "k").unwrap(), "second");
    assert_eq!(get(&memtable, &mut indexes, "a").unwrap(), "1");
    assert_eq!(get(&memtable, &mut indexes, "b").unwrap(), "2");

    let mut merged = kv("a", "1").write_to_bytes();
    merged.extend(kv("b", "2").write_to_bytes());
    merged.extend(kv("k", "second").write_to_bytes());
    let len = merged.len();
    assert_eq!(
        memtable.sstable_dir().read("2_sstable.dat", 0, len),
        Some(merged)
    );
    assert_eq!(memtable.sstable_dir().read("2_sstable.dat", 0, len + 1), None);
    assert_eq!(memtable.sstable_dir().level_of("2_sstable.dat"), Some(1));
    assert_eq!(indexes.get_file(&"k".to_string()), Some("2_sstable.dat".to_string()));
    assert_eq!(indexes.get_offset(&"k".to_string()), Some(8));
}

#[test]
fn compaction_leaves_levels_within_the_limit_alone() {
    let (mut memtable, mut indexes) = fresh();
    memtable.set("a".to_string(), "1".to_string()).unwrap();
    memtable.flush_to_sstable(&mut indexes).unwrap();
    memtable.set("b".to_string(), "2".to_string()).unwrap();
    memtable.flush_to_sstable(&mut indexes).unwrap();
    let config = CompactionConfig::new(3, 2);
    config.compact(&mut memtable, &mut indexes).unwrap();
    assert_eq!(memtable.sstable_dir().count(0), 2);
    assert_eq!(memtable.sstable_dir().len(), 2);
    assert_eq!(indexes.get_file(&"a".to_string()), Some("0_sstable.dat".to_string()));
}

#[test]
fn compaction_of_the_last_level_stays_there() {
    let (mut memtable, mut indexes) = fresh();
    memtable.set("a".to_string(), "1".to_string()).unwrap();
    memtable.flush_to_sstable(&mut indexes).unwrap();
    memtable.set("b".to_string(), "2".to_string()).unwrap();
    memtable.flush_to_sstable(&mut indexes).unwrap();
    let config = CompactionConfig::new(1, 1);
    config.compact(&mut memtable, &mut indexes).unwrap();
    assert_eq!(memtable.sstable_dir().count(0), 1);
    assert_eq!(memtable.sstable_dir().len(), 1);
    assert_eq!(get(&memtable, &mut indexes, "a").unwrap(), "1");
    assert_eq!(get(&memtable, &mut indexes, "b").unwrap(), "2");
}

#[test]
fn compaction_does_not_touch_the_table() {
    let (mut memtable, mut indexes) = fresh();
    memtable.set("a".to_string(), "1".to_string()).unwrap();
    memtable.flush_to_sstable(&mut indexes).unwrap();
    memtable.set("b".to_string(), "2".to_string()).unwrap();
    memtable.flush_to_sstable(&mut indexes).unwrap();
    memtable.set("a".to_string(), "3".to_string()).unwrap();
    let config = CompactionConfig::new(2, 0);
    config.compact(&mut memtable, &mut indexes).unwrap();
    assert_eq!(memtable.size(), 1);
    assert_eq!(memtable.wal().read(), vec![kv("a", "3")]);
    assert_eq!(get(&memtable, &mut indexes, "a").unwrap(), "3");
    assert_eq!(get(&memtable, &mut indexes, "b").unwrap(), "2");
    assert_eq!(memtable.sstable_dir().count(0), 0);
    assert_eq!(memtable.sstable_dir().count(1), 1);
}

#[test]
fn compaction_fails_when_numbers_are_used_up() {
    let mut memtable = MemTable::new(Wal::new(), SsTableDir::new(u64::MAX - 2));
    let mut indexes = Indexes::new();
    memtable.set("a".to_string(), "1".to_string()).unwrap();
    memtable.flush_to_sstable(&mut indexes).unwrap();
    memtable.set("b".to_string(), "2".to_string()).unwrap();
    memtable.flush_to_sstable(&mut indexes).unwrap();
    let config = CompactionConfig::new(2, 1);
    let r = config.compact(&mut memtable, &mut indexes);
    assert!(matches!(r, Err(MemTableError::OtherError(_))));
    assert_eq!(memtable.sstable_dir().count(0), 2);
    assert_eq!(get(&memtable, &mut indexes, "a").unwrap(), "1");
    assert_eq!(get(&memtable, &mut indexes, "b").unwrap(), "2");
}

#[test]
fn compact_level_rewrites_only_live_records() {
    let (mut memtable, mut indexes) = fresh();
    memtable.set("a".to_string(), "old".to_string()).unwrap();
    memtable.set("b".to_string(), "2".to_string()).unwrap();
    memtable.flush_to_sstable(&mut indexes).unwrap();
    memtable.set("a".to_string(), "new".to_string()).unwrap();
    memtable.flush_to_sstable(&mut indexes).unwrap();
    memtable.compact_level(&mut indexes, 0, 1).unwrap();
    let mut merged = kv("a", "new").write_to_bytes();
    merged.extend(kv("b", "2").write_to_bytes());
    let len = merged.len();
    assert_eq!(
        memtable.sstable_dir().read("2_sstable.dat", 0, len),
        Some(merged)
    );
    assert_eq!(memtable.sstable_dir().read("2_sstable.dat", 0, len + 1), None);
}

#[test]
fn second_compaction_changes_no_answer() {
    let (mut memtable, mut indexes) = fresh();
    memtable.set("k".to_string(), "first".to_string()).unwrap();
    memtable.set("a".to_string(), "1".to_string()).unwrap();
    memtable.flush_to_sstable(&mut indexes).unwrap();
    memtable.set("k".to_string(), "second".to_string()).unwrap();
    memtable.flush_to_sstable(&mut indexes).unwrap();
    let config = CompactionConfig::new(2, 1);
    config.compact(&mut memtable, &mut indexes).unwrap();
    let files = memtable.sstable_dir().list();
    config.compact(&mut memtable, &mut indexes).unwrap();
    assert_eq!(memtable.sstable_dir().list(), files);
    assert_eq!(get(&memtable, &mut indexes, "k").unwrap(), "second");
    assert_eq!(get(&memtable, &mut indexes, "a").unwrap(), "1");
    assert_eq!(
        get(&memtable, &mut indexes, "b"),
        Err(MemTableError::NoValueFound)
    );
}

#[test]
fn merged_segment_holds_each_key_once() {
    let (mut memtable, mut indexes) = fresh();
    memtable.set("k".to_string(), "v1".to_string()).unwrap();
    memtable.set("j".to_string(), "w".to_string()).unwrap();
    memtable.flush_to_sstable(&mut indexes).unwrap();
    memtable.set("k".to_string(), "v2".to_string()).unwrap();
    memtable.set("z".to_string(), "y".to_string()).unwrap();
    memtable.flush_to_sstable(&mut indexes).unwrap();
    CompactionConfig::new(2, 1)
        .compact(&mut memtable, &mut indexes)
        .unwrap();
    let merged = memtable.sstable_dir().get("2_sstable.dat").unwrap().clone();
    assert_eq!(
        KeyValue::read_from_bytes(merged),
        vec![kv("j", "w"), kv("k", "v2"), kv("z", "y")]
    );
}
