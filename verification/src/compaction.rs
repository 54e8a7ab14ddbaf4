//! Compaction: rewriting the segments of a level as one segment of the next
//! level, so that no level holds more segments than it may.

use crate::index::Indexes;
use crate::memtable::{
    index_sound, is_live_listing, live_listing, lookup, rewrite_level, MemTable, MemTableError,
    Store,
};
use vstd::prelude::*;

verus! {

/// How many levels the store has, and how many segments a level may hold.
#[derive(Debug, Clone, Copy)]
pub struct CompactionConfig {
    pub levels: usize,
    pub file_limit: usize,
}

impl CompactionConfig {
    /// A configuration with `levels` levels of at most `file_limit` segments.
    pub fn new(levels: usize, file_limit: usize) -> (config: Self)
        ensures
            config.levels == levels,
            config.file_limit == file_limit,
    {
        Self { levels, file_limit }
    }

    /// The level that the segments of `level` are rewritten to: the next
    /// one, or the level itself where it is the last.
    pub open spec fn target(&self, level: usize) -> usize {
        if level + 1 < self.levels {
            (level + 1) as usize
        } else {
            level
        }
    }

    /// The most segments that `level` holds after a compaction: the limit,
    /// and in the last level, which is rewritten to itself, at least one.
    pub open spec fn bound(&self, level: usize) -> int {
        if level + 1 < self.levels || self.file_limit >= 1 {
            self.file_limit as int
        } else {
            1
        }
    }

    /// What a compaction that has reached `level` makes of the store, and
    /// whether it comes to its end: each level from there on that holds more
    /// segments than the limit is rewritten as one segment of its target
    /// level, in turn; it stops short where a level is to be rewritten and no
    /// number is left for the segment.
    pub open spec fn run(&self, s: Store, level: nat) -> (Store, bool)
        decreases self.levels - level,
    {
        if level >= self.levels {
            (s, true)
        } else if s.counts[level as usize] > self.file_limit {
            if s.next_id == u64::MAX {
                (s, false)
            } else {
                self.run(rewrite_level(s, level as usize, self.target(level as usize)), level + 1)
            }
        } else {
            self.run(s, level + 1)
        }
    }

    /// Whether, at each level that a compaction from `level` on rewrites, the
    /// live listing is the listing of the level's live records. It always
    /// is: `compact` says so of every store.
    pub open spec fn listed(&self, s: Store, level: nat) -> bool
        decreases self.levels - level,
    {
        if level >= self.levels {
            true
        } else if s.counts[level as usize] > self.file_limit {
            if s.next_id == u64::MAX {
                true
            } else {
                &&& is_live_listing(
                    live_listing(s.index, s.files, s.levels, level as usize),
                    s.index,
                    s.files,
                    s.levels,
                    level as usize,
                )
                &&& self.listed(
                    rewrite_level(s, level as usize, self.target(level as usize)),
                    level + 1,
                )
            }
        } else {
            self.listed(s, level + 1)
        }
    }

    /// Goes through the levels from the first to the last, and rewrites
    /// each level that holds more segments than the limit as one segment of
    /// its target level: the store and the index afterwards are what `run`
    /// says. The table and the log are unchanged, and every lookup that
    /// found a value or found none comes to the same as before; where the
    /// index was sound, that is every lookup, so a second compaction changes
    /// no answer. Stops with a failure when the store has no number left for
    /// a segment; that cannot happen while the store has as many numbers
    /// left as there are levels.
    pub fn compact(&self, memtable: &mut MemTable, indexes: &mut Indexes) -> (r: Result<
        (),
        MemTableError,
    >)
        ensures
            final(memtable)@ == old(memtable)@,
            final(memtable).wal() == old(memtable).wal(),
            forall|k: Seq<char>|
                !(#[trigger] lookup(old(memtable)@, old(indexes)@, old(memtable).files(), k) is Fault)
                    ==> lookup(final(memtable)@, final(indexes)@, final(memtable).files(), k)
                    == lookup(old(memtable)@, old(indexes)@, old(memtable).files(), k),
            index_sound(old(indexes)@, old(memtable).files()) ==> index_sound(
                final(indexes)@,
                final(memtable).files(),
            ),
            (final(memtable).store(final(indexes)), r is Ok) == self.run(
                old(memtable).store(old(indexes)),
                0,
            ),
            self.listed(old(memtable).store(old(indexes)), 0),
            index_sound(old(indexes)@, old(memtable).files()) ==> forall|k: Seq<char>|
                lookup(final(memtable)@, final(indexes)@, final(memtable).files(), k)
                    == #[trigger] lookup(old(memtable)@, old(indexes)@, old(memtable).files(), k),
            old(memtable).sstable_dir().next_id() + self.levels <= u64::MAX ==> r is Ok,
            match r {
                Ok(_) => forall|l: usize|
                    l < self.levels ==> #[trigger] final(memtable).sstable_dir().count_at(l)
                        <= self.bound(l),
                Err(e) => e is OtherError && final(memtable).sstable_dir().next_id() == u64::MAX,
            },
    {
        let ghost first = *memtable;
        let ghost first_index = *indexes;
        let mut level: usize = 0;
        while level < self.levels
            invariant
                level <= self.levels,
                first == *old(memtable),
                first_index == *old(indexes),
                memtable@ == first@,
                memtable.wal() == first.wal(),
                memtable.sstable_dir().next_id() <= first.sstable_dir().next_id() + level,
                forall|k: Seq<char>|
                    !(#[trigger] lookup(first@, first_index@, first.files(), k) is Fault) ==> lookup(
                        memtable@,
                        indexes@,
                        memtable.files(),
                        k,
                    ) == lookup(first@, first_index@, first.files(), k),
                index_sound(first_index@, first.files()) ==> index_sound(indexes@, memtable.files()),
                self.run(first.store(&first_index), 0) == self.run(
                    memtable.store(indexes),
                    level as nat,
                ),
                self.listed(memtable.store(indexes), level as nat) ==> self.listed(
                    first.store(&first_index),
                    0,
                ),
                forall|l: usize|
                    l < level ==> #[trigger] memtable.sstable_dir().count_at(l) <= self.bound(l),
            decreases self.levels - level,
        {
            let ghost before = *memtable;
            let ghost before_index = *indexes;
            if memtable.sstable_dir().count(level) > self.file_limit {
                let target = if level + 1 < self.levels {
                    level + 1
                } else {
                    level
                };
                match memtable.compact_level(indexes, level, target) {
                    Err(e) => { return Err(e); },
                    Ok(_) => {},
                }
                proof {
                    assert forall|k: Seq<char>|
                        !(#[trigger] lookup(first@, first_index@, first.files(), k) is Fault)
                        implies lookup(memtable@, indexes@, memtable.files(), k) == lookup(
                        first@,
                        first_index@,
                        first.files(),
                        k,
                    ) by {
                        assert(!(lookup(before@, before_index@, before.files(), k) is Fault));
                    }
                    assert forall|l: usize| l < level + 1 implies #[trigger] memtable.sstable_dir().count_at(
                        l,
                    ) <= self.bound(l) by {
                        if l < level {
                            assert(before.sstable_dir().count_at(l) <= self.bound(l));
                        }
                    }
                }
            }
            level = level + 1;
        }
        Ok(())
    }
}

} // verus!
