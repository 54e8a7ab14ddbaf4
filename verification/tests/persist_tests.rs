use tiny_bit::compaction::CompactionConfig;
use tiny_bit::index::Indexes;
use tiny_bit::keyvalue::KeyValue;
use tiny_bit::memtable::MemTable;
use tiny_bit::persist::{FileOp, Files};
use tiny_bit::sstable::SsTableDir;
use tiny_bit::wal::Wal;

fn bytes(key: &str, value: &str) -> Vec<u8> {
    KeyValue::new((key.to_string(), value.to_string())).write_to_bytes()
}

#[test]
fn nothing_to_do_when_files_are_up_to_date() {
    let memtable = MemTable::new(Wal::new(), SsTableDir::new(0));
    let mut files = Files::new(Vec::new());
    assert_eq!(files.sync(&memtable), vec![]);
}

#[test]
fn writes_are_appended_to_the_log_file() {
    let mut memtable = MemTable::new(Wal::new(), SsTableDir::new(0));
    let mut files = Files::new(Vec::new());
    memtable.set("a".to_string(), "1".to_string()).unwrap();
    assert_eq!(
        files.sync(&memtable),
        vec![FileOp::AppendLog(bytes("a", "1"))]
    );
    memtable.set("b".to_string(), "2".to_string()).unwrap();
    memtable.set("a".to_string(), "3".to_string()).unwrap();
    let mut tail = bytes("b", "2");
    tail.extend(bytes("a", "3"));
    assert_eq!(files.sync(&memtable), vec![FileOp::AppendLog(tail)]);
    assert_eq!(files.sync(&memtable), vec![]);
}

#[test]
fn flush_writes_the_segment_before_the_log_is_emptied() {
    let mut memtable = MemTable::new(Wal::new(), SsTableDir::new(5));
    let mut indexes = Indexes::new();
    let mut files = Files::new(Vec::new());
    memtable.set("b".to_string(), "2".to_string()).unwrap();
    memtable.set("a".to_string(), "1".to_string()).unwrap();
    files.sync(&memtable);
    memtable.flush_to_sstable(&mut indexes).unwrap();
    let mut segment = bytes("a", "1");
    segment.extend(bytes("b", "2"));
    assert_eq!(
        files.sync(&memtable),
        vec![
            FileOp::WriteSegment("5_sstable.dat".to_string(), segment),
            FileOp::RewriteLog(vec![]),
        ]
    );
    assert_eq!(files.sync(&memtable), vec![]);
}

#[test]
fn flush_and_later_write_in_one_plan() {
    let mut memtable = MemTable::new(Wal::new(), SsTableDir::new(0));
    let mut indexes = Indexes::new();
    let mut files = Files::new(Vec::new());
    memtable.set("a".to_string(), "1".to_string()).unwrap();
    files.sync(&memtable);
    memtable.flush_to_sstable(&mut indexes).unwrap();
    memtable.set("b".to_string(), "2".to_string()).unwrap();
    assert_eq!(
        files.sync(&memtable),
        vec![
            FileOp::WriteSegment("0_sstable.dat".to_string(), bytes("a", "1")),
            FileOp::RewriteLog(bytes("b", "2")),
        ]
    );
}

#[test]
fn compaction_writes_the_new_segment_and_removes_the_old() {
    let mut memtable = MemTable::new(Wal::new(), SsTableDir::new(0));
    let mut indexes = Indexes::new();
    let mut files = Files::new(Vec::new());
    memtable.set("a".to_string(), "1".to_string()).unwrap();
    memtable.flush_to_sstable(&mut indexes).unwrap();
    memtable.set("b".to_string(), "2".to_string()).unwrap();
    memtable.flush_to_sstable(&mut indexes).unwrap();
    assert_eq!(
        files.sync(&memtable),
        vec![
            FileOp::WriteSegment("0_sstable.dat".to_string(), bytes("a", "1")),
            FileOp::WriteSegment("1_sstable.dat".to_string(), bytes("b", "2")),
        ]
    );

    CompactionConfig::new(2, 1)
        .compact(&mut memtable, &mut indexes)
        .unwrap();
    let mut merged = bytes("a", "1");
    merged.extend(bytes("b", "2"));
    assert_eq!(
        files.sync(&memtable),
        vec![
            FileOp::WriteSegment("2_sstable.dat".to_string(), merged),
            FileOp::RemoveSegment("0_sstable.dat".to_string()),
            FileOp::RemoveSegment("1_sstable.dat".to_string()),
        ]
    );
}

#[test]
fn broken_tail_of_the_log_file_is_rewritten() {
    let mut log = bytes("a", "1");
    let whole = log.clone();
    log.extend(vec![3, 120]);
    let memtable = MemTable::new_with_wal_data(Wal::from_bytes(log.clone()), SsTableDir::new(0));
    let mut files = Files::new(log);
    assert_eq!(files.sync(&memtable), vec![FileOp::RewriteLog(whole)]);
}

#[test]
fn log_file_of_other_bytes_is_rewritten() {
    let mut memtable = MemTable::new(Wal::new(), SsTableDir::new(0));
    memtable.set("a".to_string(), "1".to_string()).unwrap();
    let mut files = Files::new(vec![1, 98, 1, 49]);
    assert_eq!(
        files.sync(&memtable),
        vec![FileOp::RewriteLog(bytes("a", "1"))]
    );
    let mut longer = Files::new(vec![1, 97, 1, 49, 0]);
    assert_eq!(
        longer.sync(&memtable),
        vec![FileOp::RewriteLog(bytes("a", "1"))]
    );
}

#[test]
fn bytes_appended_beforehand_are_not_planned_again() {
    let mut memtable = MemTable::new(Wal::new(), SsTableDir::new(0));
    let mut files = Files::new(Vec::new());
    files.appended(&bytes("a", "1"));
    memtable.set("a".to_string(), "1".to_string()).unwrap();
    assert_eq!(files.sync(&memtable), vec![]);
    memtable.set("b".to_string(), "2".to_string()).unwrap();
    assert_eq!(
        files.sync(&memtable),
        vec![FileOp::AppendLog(bytes("b", "2"))]
    );
}
