//! The engine's configuration and its state as one value.

use crate::index::{Indexes, Location};
use crate::keyvalue::{decode_prefix, decode_records};
use crate::memtable::{index_sound, replay, MemTable};
use crate::sstable::SsTableDir;
use crate::wal::Wal;
use vstd::prelude::*;

verus! {

/// What the command line gives: where the log and the segments lie, and
/// the number of entries above which the table is flushed.
#[derive(Debug)]
pub struct CliArgs {
    pub wal_dir: String,
    pub sstable_dir: String,
    pub sstable_threshold: usize,
}

/// The state of one engine: the table with its log and segment store, the
/// index, and the flush threshold.
pub struct GlobalState {
    pub memtable: MemTable,
    pub indexes: Indexes,
    pub sstable_threshold: usize,
}

/// The state in which an engine starts: the table is rebuilt from what the
/// log file holds, a tail of the log that does not decode is cut off, the
/// index and the segment store are empty, and the first segment gets the
/// number `first_segment`.
pub fn init_state(args: &CliArgs, log: Vec<u8>, first_segment: u64) -> (state: GlobalState)
    ensures
        state.memtable@ == replay(decode_prefix(log@)),
        state.memtable.in_step(),
        state.memtable.wal().records() == decode_prefix(log@),
        state.memtable.wal().bytes().is_prefix_of(log@),
        decode_records(log@) is Ok ==> state.memtable.wal().bytes() == log@,
        state.memtable.files() == Map::<Seq<char>, Seq<u8>>::empty(),
        state.memtable.sstable_dir().levels() == Map::<Seq<char>, usize>::empty(),
        forall|level: usize| state.memtable.sstable_dir().count_at(level) == 0,
        state.memtable.sstable_dir().next_id() == first_segment,
        index_sound(state.indexes@, state.memtable.files()),
        state.indexes@ == Map::<Seq<char>, Location>::empty(),
        state.sstable_threshold == args.sstable_threshold,
{
    let wal = Wal::from_bytes(log);
    let memtable = MemTable::new_with_wal_data(wal, SsTableDir::new(first_segment));
    let indexes = Indexes::new();
    GlobalState { memtable, indexes, sstable_threshold: args.sstable_threshold }
}

} // verus!
