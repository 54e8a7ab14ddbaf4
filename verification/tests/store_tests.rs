use tiny_bit::index::{Index, Indexes};
use tiny_bit::keyvalue::{CodecError, KeyValue};
use tiny_bit::sorted_map::{key_less, same_key, SortedMap};
use tiny_bit::sstable::{segment_file_name, SsTableDir};
use tiny_bit::wal::Wal;

fn kv(key: &str, value: &str) -> KeyValue {
    KeyValue::new((key.to_string(), value.to_string()))
}

#[test]
fn keys_are_ordered_by_their_bytes() {
    assert!(key_less("a", "b"));
    assert!(!key_less("b", "a"));
    assert!(!key_less("a", "a"));
    assert!(key_less("", "a"));
    assert!(!key_less("a", ""));
    assert!(key_less("ab", "abc"));
    assert!(key_less("abc", "abd"));
    assert!(key_less("B", "a"));
    assert!(key_less("z", "\u{e9}"));
    assert!(key_less("bar", "foo"));
    assert!(key_less("foo", "tadashi"));
}

#[test]
fn same_key_compares_text() {
    assert!(same_key("foo", "foo"));
    assert!(same_key("", ""));
    assert!(!same_key("foo", "fo"));
    assert!(!same_key("foo", "bar"));
}

#[test]
fn sorted_map_holds_last_value() {
    let mut map: SortedMap<u32> = SortedMap::new();
    assert_eq!(map.len(), 0);
    assert!(!map.insert("b".to_string(), 1));
    assert!(!map.insert("a".to_string(), 2));
    assert!(map.insert("b".to_string(), 3));
    assert_eq!(map.len(), 2);
    assert_eq!(map.get("a"), Some(&2));
    assert_eq!(map.get("b"), Some(&3));
    assert_eq!(map.get("c"), None);
    assert_eq!(map.get(""), None);
}

#[test]
fn sorted_map_drains_in_ascending_order() {
    let mut map: SortedMap<u32> = SortedMap::new();
    for (i, key) in ["m", "c", "x", "a", "mm", "b", ""].iter().enumerate() {
        map.insert(key.to_string(), i as u32);
    }
    assert_eq!(map.entry_at(0), Some((&"".to_string(), &6)));
    assert_eq!(map.entry_at(1), Some((&"a".to_string(), &3)));
    assert_eq!(map.entry_at(6), Some((&"x".to_string(), &2)));
    assert_eq!(map.entry_at(7), None);
    let drained = map.drain_sorted();
    let keys: Vec<String> = drained.into_iter().map(|e| e.0).collect();
    assert_eq!(keys, vec!["", "a", "b", "c", "m", "mm", "x"]);
    assert_eq!(map.len(), 0);
    assert_eq!(map.get("a"), None);
}

#[test]
fn index_from_keeps_its_fields() {
    let index = Index::from(8, 13, "0_sstable.dat".to_string());
    assert_eq!(index.offset, 8);
    assert_eq!(index.length, 13);
    assert_eq!(index.file_name, "0_sstable.dat");
}

#[test]
fn index_lookup_of_recorded_key() {
    let mut indexes = Indexes::new();
    indexes.create_index("foo".to_string(), 8, 8, "1_sstable.dat".to_string());
    let key = "foo".to_string();
    assert_eq!(indexes.get_file(&key), Some("1_sstable.dat".to_string()));
    assert_eq!(indexes.get_offset(&key), Some(8));
    assert_eq!(indexes.get_len(&key), Some(8));
    assert_eq!(indexes.len(), 1);
}

#[test]
fn index_lookup_of_unknown_key() {
    let mut indexes = Indexes::new();
    indexes.create_index("foo".to_string(), 8, 8, "1_sstable.dat".to_string());
    let key = "bar".to_string();
    assert_eq!(indexes.get_file(&key), None);
    assert_eq!(indexes.get_offset(&key), None);
    assert_eq!(indexes.get_len(&key), None);
}

#[test]
fn index_overwrite_replaces_location() {
    let mut indexes = Indexes::new();
    indexes.create_index("foo".to_string(), 8, 8, "1_sstable.dat".to_string());
    indexes.create_index("bar".to_string(), 0, 8, "1_sstable.dat".to_string());
    indexes.create_index("foo".to_string(), 0, 9, "2_sstable.dat".to_string());
    let key = "foo".to_string();
    assert_eq!(indexes.get_file(&key), Some("2_sstable.dat".to_string()));
    assert_eq!(indexes.get_offset(&key), Some(0));
    assert_eq!(indexes.get_len(&key), Some(9));
    assert_eq!(indexes.get_file(&"bar".to_string()), Some("1_sstable.dat".to_string()));
    assert_eq!(indexes.len(), 2);
    let (first, place) = indexes.entry_at(0).unwrap();
    assert_eq!(first, "bar");
    assert_eq!(*place, Index::from(0, 8, "1_sstable.dat".to_string()));
    assert_eq!(indexes.entry_at(1).unwrap().1.file_name, "2_sstable.dat");
    assert!(indexes.entry_at(2).is_none());
}

#[test]
fn segment_names_are_decimal() {
    assert_eq!(segment_file_name(0), "0_sstable.dat");
    assert_eq!(segment_file_name(7), "7_sstable.dat");
    assert_eq!(segment_file_name(10), "10_sstable.dat");
    assert_eq!(segment_file_name(1700000000), "1700000000_sstable.dat");
    assert_eq!(segment_file_name(u64::MAX), "18446744073709551615_sstable.dat");
}

#[test]
fn store_adds_and_reads_segments() {
    let mut dir = SsTableDir::new(41);
    assert_eq!(dir.len(), 0);
    assert_eq!(dir.peek_name(), "41_sstable.dat");
    let name = dir.add(0, vec![1, 2, 3, 4, 5]).unwrap();
    assert_eq!(name, "41_sstable.dat");
    let second = dir.add(1, vec![9]).unwrap();
    assert_eq!(second, "42_sstable.dat");
    assert_eq!(dir.len(), 2);
    assert_eq!(dir.read("41_sstable.dat", 1, 3), Some(vec![2, 3, 4]));
    assert_eq!(dir.read("41_sstable.dat", 0, 5), Some(vec![1, 2, 3, 4, 5]));
    assert_eq!(dir.read("41_sstable.dat", 5, 0), Some(vec![]));
    assert_eq!(dir.read("41_sstable.dat", 3, 3), None);
    assert_eq!(dir.read("41_sstable.dat", 6, 0), None);
    assert_eq!(dir.read("41_sstable.dat", usize::MAX, 2), None);
    assert_eq!(dir.read("40_sstable.dat", 0, 1), None);
    assert_eq!(dir.level_of("41_sstable.dat"), Some(0));
    assert_eq!(dir.level_of("42_sstable.dat"), Some(1));
    assert_eq!(dir.level_of("43_sstable.dat"), None);
}

#[test]
fn store_counts_and_removes_levels() {
    let mut dir = SsTableDir::new(0);
    dir.add(0, vec![1]).unwrap();
    dir.add(1, vec![2]).unwrap();
    dir.add(0, vec![3]).unwrap();
    assert_eq!(dir.count(0), 2);
    assert_eq!(dir.count(1), 1);
    assert_eq!(dir.count(2), 0);
    dir.remove_level(0);
    assert_eq!(dir.count(0), 0);
    assert_eq!(dir.count(1), 1);
    assert_eq!(dir.len(), 1);
    assert_eq!(dir.read("0_sstable.dat", 0, 1), None);
    assert_eq!(dir.read("1_sstable.dat", 0, 1), Some(vec![2]));
    assert_eq!(dir.read("2_sstable.dat", 0, 1), None);
    assert_eq!(dir.peek_name(), "3_sstable.dat");
}

#[test]
fn store_without_numbers_takes_no_segment() {
    let mut dir = SsTableDir::new(u64::MAX);
    assert!(dir.is_full());
    assert_eq!(dir.add(0, vec![1]), None);
    assert_eq!(dir.len(), 0);
    let mut last = SsTableDir::new(u64::MAX - 1);
    assert!(!last.is_full());
    assert_eq!(last.add(0, vec![1]), Some("18446744073709551614_sstable.dat".to_string()));
    assert!(last.is_full());
}

#[test]
fn test_writing_to_wal() {
    let mut wal = Wal::new();
    let key_value = KeyValue::new(("foo".to_string(), "bar".to_string()));

    wal.append(key_value).unwrap();
    let kvs = wal.read();
    assert_eq!(kvs.len(), 1);
    for i in kvs {
        assert_eq!(
            i,
            KeyValue {
                key: "foo".to_string(),
                value: "bar".to_string(),
            }
        );
    }
}

#[test]
fn wal_keeps_append_order() {
    let mut wal = Wal::new();
    wal.append(kv("a", "1")).unwrap();
    wal.append(kv("b", "2")).unwrap();
    wal.append(kv("a", "3")).unwrap();
    assert_eq!(wal.read(), vec![kv("a", "1"), kv("b", "2"), kv("a", "3")]);
    assert_eq!(
        wal.as_bytes(),
        &vec![1, 97, 1, 49, 1, 98, 1, 50, 1, 97, 1, 51]
    );
}

#[test]
fn wal_refuses_record_that_does_not_fit() {
    let mut wal = Wal::new();
    wal.append(kv("a", "1")).unwrap();
    let refused = wal.append(KeyValue::new(("k".repeat(256), "v".to_string())));
    assert_eq!(refused, Err(CodecError::TooLong));
    assert_eq!(wal.read(), vec![kv("a", "1")]);
    assert_eq!(wal.as_bytes().len(), 4);
}

#[test]
fn wal_clear_empties_the_log() {
    let mut wal = Wal::new();
    wal.append(kv("a", "1")).unwrap();
    wal.clear_wal();
    assert!(wal.as_bytes().is_empty());
    assert!(wal.read().is_empty());
}

#[test]
fn wal_from_bytes_cuts_off_broken_tail() {
    let mut bytes = kv("foo", "bar").write_to_bytes();
    bytes.extend(kv("bar", "baz").write_to_bytes());
    let whole = bytes.clone();
    bytes.extend(vec![7, 116, 97, 100]);
    let mut wal = Wal::from_bytes(bytes);
    assert_eq!(wal.as_bytes(), &whole);
    assert_eq!(wal.read(), vec![kv("foo", "bar"), kv("bar", "baz")]);
    wal.append(kv("tadashi", "mizu")).unwrap();
    assert_eq!(
        wal.read(),
        vec![kv("foo", "bar"), kv("bar", "baz"), kv("tadashi", "mizu")]
    );
}

#[test]
fn wal_from_bytes_keeps_whole_log() {
    let bytes = kv("foo", "bar").write_to_bytes();
    let wal = Wal::from_bytes(bytes.clone());
    wal.check();
    assert_eq!(wal.as_bytes(), &bytes);
}

#[test]
fn store_lists_its_segments_in_order() {
    let mut dir = SsTableDir::new(3);
    assert_eq!(dir.next_number(), 3);
    assert!(dir.list().is_empty());
    dir.add(0, vec![1]).unwrap();
    dir.add(2, vec![2, 2]).unwrap();
    dir.add(0, vec![]).unwrap();
    assert_eq!(dir.next_number(), 6);
    assert_eq!(
        dir.list(),
        vec!["3_sstable.dat", "4_sstable.dat", "5_sstable.dat"]
    );
    assert_eq!(dir.get("4_sstable.dat"), Some(&vec![2, 2]));
    assert_eq!(dir.get("5_sstable.dat"), Some(&vec![]));
    assert_eq!(dir.get("6_sstable.dat"), None);
    dir.remove_level(0);
    assert_eq!(dir.list(), vec!["4_sstable.dat"]);
    assert_eq!(dir.next_number(), 6);
}

#[test]
fn sorted_map_listing_changes_nothing() {
    let mut map: SortedMap<u32> = SortedMap::new();
    map.insert("b".to_string(), 1);
    map.insert("a".to_string(), 2);
    map.listing();
    assert_eq!(map.len(), 2);
    assert_eq!(map.entry_at(0), Some((&"a".to_string(), &2)));
}
