//! The in-memory table of the writes that are not flushed yet, with the log
//! that makes them durable and the segment store that flushes fill.

use crate::index::{Indexes, Location};
use crate::keyvalue::{
    decode_records, encode_record, encode_records, lemma_decode_then_encode, lemma_encode_push,
    lemma_encoded_record_at, lemma_round_trip, pairs_view, record_fits, record_offset, records_fit,
    records_view, KeyValue, Record,
};
use crate::sorted_map::{
    ascending, is_listing, key_lt, lemma_ascending_no_duplicates, lemma_ascending_unique,
    lemma_listing_at, listing_map, same_key, SortedMap,
};
use crate::sstable::{segment_name, SsTableDir};
use crate::wal::Wal;
use vstd::prelude::*;
use vstd::string::*;

verus! {

/// Why an operation of the engine failed.
#[derive(Debug, PartialEq, Eq)]
pub enum MemTableError {
    /// A read was not carried out. No function of this library gives it: a
    /// failed read is `NoValueFound` or `OtherError`.
    GetError,
    /// A write was refused because its record does not fit.
    SetError,
    /// The key is neither in the table nor in the index.
    NoValueFound,
    /// The store could not give the record that the index names, or could
    /// not take a new segment. The text says which.
    OtherError(String),
    /// The request is no command that the engine knows, or lacks what its
    /// command needs.
    ProtocolError,
}

/// What a lookup of one key comes to.
pub enum Lookup {
    /// The key has this value.
    Found(Seq<char>),
    /// The key is neither in the table nor in the index.
    NotFound,
    /// The index names a place that does not hold exactly one record of
    /// the key.
    Fault,
}

/// The value of the one record of `key` that lies at `loc`, if the file is
/// there, the range lies in it, and the range holds exactly one record,
/// whose key is `key`.
pub open spec fn read_value(files: Map<Seq<char>, Seq<u8>>, loc: Location, key: Seq<char>) -> Option<
    Seq<char>,
> {
    if files.contains_key(loc.file_name) && loc.offset + loc.length <= files[loc.file_name].len() {
        match decode_records(
            files[loc.file_name].subrange(loc.offset as int, loc.offset + loc.length),
        ) {
            Ok(rs) => if rs.len() == 1 && rs[0].0 == key {
                Some(rs[0].1)
            } else {
                None
            },
            Err(_) => None,
        }
    } else {
        None
    }
}

/// What a lookup of `key` comes to: the table decides where it holds the
/// key; else the index; and where the index holds the key, the record that
/// it names.
pub open spec fn lookup(
    table: Map<Seq<char>, Seq<char>>,
    index: Map<Seq<char>, Location>,
    files: Map<Seq<char>, Seq<u8>>,
    key: Seq<char>,
) -> Lookup {
    if table.contains_key(key) {
        Lookup::Found(table[key])
    } else if !index.contains_key(key) {
        Lookup::NotFound
    } else {
        match read_value(files, index[key], key) {
            Some(value) => Lookup::Found(value),
            None => Lookup::Fault,
        }
    }
}

/// Whether every entry of the index names a place that holds exactly one
/// record, of the entry's key.
pub open spec fn index_sound(
    index: Map<Seq<char>, Location>,
    files: Map<Seq<char>, Seq<u8>>,
) -> bool {
    forall|k: Seq<char>| index.contains_key(k) ==> #[trigger] read_value(files, index[k], k) is Some
}

/// The table that a sequence of writes leaves: for each key the value that
/// was written last.
pub open spec fn replay(records: Seq<Record>) -> Map<Seq<char>, Seq<char>>
    decreases records.len(),
{
    if records.len() == 0 {
        Map::empty()
    } else {
        replay(records.drop_last()).insert(records.last().0, records.last().1)
    }
}

/// A write at the end of a sequence of writes stands in the table that
/// the sequence leaves, whatever was written for its key before.
pub proof fn lemma_replay_push(records: Seq<Record>, r: Record)
    ensures
        replay(records.push(r)) == replay(records).insert(r.0, r.1),
        replay(records.push(r))[r.0] == r.1,
{
    assert(records.push(r).drop_last() == records);
}

/// Writes that follow other writes win over them: the table that two
/// sequences of writes leave, one after the other, holds for each key of
/// the later sequence what the later sequence leaves for it, and for every
/// other key what the earlier sequence leaves.
pub proof fn lemma_replay_concat(earlier: Seq<Record>, later: Seq<Record>)
    ensures
        replay(earlier + later) == replay(earlier).union_prefer_right(replay(later)),
    decreases later.len(),
{
    if later.len() == 0 {
        assert(earlier + later == earlier);
        assert(replay(earlier).union_prefer_right(replay(later)) =~= replay(earlier));
    } else {
        let front = later.drop_last();
        let r = later.last();
        lemma_replay_concat(earlier, front);
        assert((earlier + later).drop_last() == earlier + front);
        assert(replay(earlier).union_prefer_right(replay(front)).insert(r.0, r.1) =~= replay(
            earlier,
        ).union_prefer_right(replay(front).insert(r.0, r.1)));
    }
}

/// The texts of a table's values.
pub open spec fn table_view(tree: Map<Seq<char>, String>) -> Map<Seq<char>, Seq<char>> {
    tree.map_values(|v: String| v@)
}

/// Whether every entry of a table fits in a record.
pub open spec fn table_fits(table: Map<Seq<char>, Seq<char>>) -> bool {
    forall|k: Seq<char>| table.contains_key(k) ==> record_fits((k, #[trigger] table[k]))
}

/// The keys of a sequence of records.
pub open spec fn record_keys(records: Seq<Record>) -> Seq<Seq<char>> {
    records.map_values(|r: Record| r.0)
}

/// The values of a sequence of records.
pub open spec fn record_values(records: Seq<Record>) -> Seq<Seq<char>> {
    records.map_values(|r: Record| r.1)
}

/// Whether `records` holds the entries of `table`, each once, in ascending
/// key order.
pub open spec fn is_sorted_listing(records: Seq<Record>, table: Map<Seq<char>, Seq<char>>) -> bool {
    is_listing(record_keys(records), record_values(records), table)
}

/// A table has one sorted listing: the order of its entries in a segment is
/// fixed by their keys, whatever the order in which they were written.
pub proof fn lemma_sorted_listing_unique(
    a: Seq<Record>,
    b: Seq<Record>,
    table: Map<Seq<char>, Seq<char>>,
)
    requires
        is_sorted_listing(a, table),
        is_sorted_listing(b, table),
    ensures
        a == b,
{
    let ka = record_keys(a);
    let kb = record_keys(b);
    assert forall|k: Seq<char>| ka.contains(k) <==> kb.contains(k) by {
        assert(ka.contains(k) <==> table.contains_key(k));
        assert(kb.contains(k) <==> table.contains_key(k));
    }
    lemma_ascending_unique(ka, kb);
    assert(a.len() == b.len());
    assert forall|i: int| 0 <= i < a.len() implies a[i] == b[i] by {
        lemma_listing_at(ka, record_values(a), i);
        lemma_listing_at(kb, record_values(b), i);
        assert(ka[i] == a[i].0 && kb[i] == b[i].0);
        assert(record_values(a)[i] == a[i].1 && record_values(b)[i] == b[i].1);
    }
    assert(a =~= b);
}

/// Where record `i` of `records` lies in the segment `name` that holds the
/// encoding of `records`.
pub open spec fn flushed_location(name: Seq<char>, records: Seq<Record>, i: int) -> Location {
    Location {
        file_name: name,
        offset: record_offset(records, i) as usize,
        length: encode_record(records[i]).len() as usize,
    }
}

/// The index after `records` were written to the segment `name`: each of
/// their keys is recorded at its record's place in that segment, and every
/// other key is as it was.
pub open spec fn index_after_flush(
    index: Map<Seq<char>, Location>,
    name: Seq<char>,
    records: Seq<Record>,
) -> Map<Seq<char>, Location>
    decreases records.len(),
{
    if records.len() == 0 {
        index
    } else {
        index_after_flush(index, name, records.drop_last()).insert(
            records.last().0,
            flushed_location(name, records, records.len() - 1),
        )
    }
}

/// After a flush of records in ascending key order, the index holds each
/// flushed key at its record's place.
pub proof fn lemma_index_after_flush_at(
    index: Map<Seq<char>, Location>,
    name: Seq<char>,
    records: Seq<Record>,
    j: int,
)
    requires
        ascending(record_keys(records)),
        0 <= j < records.len(),
    ensures
        index_after_flush(index, name, records).contains_key(records[j].0),
        index_after_flush(index, name, records)[records[j].0] == flushed_location(name, records, j),
    decreases records.len(),
{
    let front = records.drop_last();
    if j < records.len() - 1 {
        lemma_ascending_no_duplicates(record_keys(records));
        assert(record_keys(records)[j] != record_keys(records)[records.len() - 1]);
        assert(ascending(record_keys(front))) by {
            assert forall|a: int, b: int| 0 <= a < b < front.len() implies key_lt(
                record_keys(front)[a],
                record_keys(front)[b],
            ) by {
                assert(record_keys(front)[a] == record_keys(records)[a]);
                assert(record_keys(front)[b] == record_keys(records)[b]);
            }
        }
        lemma_index_after_flush_at(index, name, front, j);
        assert(front.take(j) == records.take(j));
    }
}

/// After a flush, the index holds the keys that it held and the flushed
/// keys, and what it held for the other keys is unchanged.
pub proof fn lemma_index_after_flush_others(
    index: Map<Seq<char>, Location>,
    name: Seq<char>,
    records: Seq<Record>,
    k: Seq<char>,
)
    ensures
        index_after_flush(index, name, records).contains_key(k) <==> index.contains_key(k)
            || record_keys(records).contains(k),
        !record_keys(records).contains(k) && index.contains_key(k) ==> index_after_flush(
            index,
            name,
            records,
        )[k] == index[k],
    decreases records.len(),
{
    if records.len() > 0 {
        let front = records.drop_last();
        lemma_index_after_flush_others(index, name, front, k);
        if record_keys(front).contains(k) {
            let p = record_keys(front).index_of(k);
            assert(record_keys(records)[p] == k);
        }
        if record_keys(records).contains(k) {
            let p = record_keys(records).index_of(k);
            if p < front.len() {
                assert(record_keys(front)[p] == k);
            }
        }
        assert(record_keys(records)[records.len() - 1] == records.last().0);
    }
}

/// After two flushes the index holds each key of the later one at its
/// record's place in the later segment, whatever the earlier flush recorded
/// for it.
pub proof fn lemma_later_flush_wins(
    index: Map<Seq<char>, Location>,
    first_name: Seq<char>,
    first: Seq<Record>,
    second_name: Seq<char>,
    second: Seq<Record>,
    j: int,
)
    requires
        ascending(record_keys(second)),
        0 <= j < second.len(),
    ensures
        index_after_flush(index_after_flush(index, first_name, first), second_name, second)[second[j].0]
            == flushed_location(second_name, second, j),
{
    lemma_index_after_flush_at(index_after_flush(index, first_name, first), second_name, second, j);
}

/// A record that was flushed is read back through the index: the place that
/// the index holds for its key holds exactly that record.
pub proof fn lemma_flushed_record_reads_back(
    files: Map<Seq<char>, Seq<u8>>,
    index: Map<Seq<char>, Location>,
    name: Seq<char>,
    records: Seq<Record>,
    j: int,
)
    requires
        ascending(record_keys(records)),
        0 <= j < records.len(),
        record_fits(records[j]),
        files.contains_key(name),
        files[name] == encode_records(records),
        encode_records(records).len() <= usize::MAX,
    ensures
        read_value(files, index_after_flush(index, name, records)[records[j].0], records[j].0)
            == Some(records[j].1),
{
    lemma_index_after_flush_at(index, name, records, j);
    lemma_encoded_record_at(records, j);
    lemma_round_trip(records[j]);
}

/// Whether the index holds `key` at a place in a segment of `level` that
/// holds exactly one record, of that key.
pub open spec fn is_live(
    index: Map<Seq<char>, Location>,
    files: Map<Seq<char>, Seq<u8>>,
    levels: Map<Seq<char>, usize>,
    level: usize,
    key: Seq<char>,
) -> bool {
    &&& index.contains_key(key)
    &&& levels.contains_key(index[key].file_name)
    &&& levels[index[key].file_name] == level
    &&& read_value(files, index[key], key) is Some
}

/// Whether `records` holds, in ascending key order, the record of each key
/// that is live at `level`, as the index finds it.
pub open spec fn is_live_listing(
    records: Seq<Record>,
    index: Map<Seq<char>, Location>,
    files: Map<Seq<char>, Seq<u8>>,
    levels: Map<Seq<char>, usize>,
    level: usize,
) -> bool {
    &&& ascending(record_keys(records))
    &&& records_fit(records)
    &&& forall|k: Seq<char>|
        record_keys(records).contains(k) <==> #[trigger] is_live(index, files, levels, level, k)
    &&& forall|j: int|
        0 <= j < records.len() ==> read_value(files, index[records[j].0], (#[trigger] records[j]).0)
            == Some(records[j].1)
}

/// There is one listing of the live records of a level.
pub proof fn lemma_live_listing_unique(
    a: Seq<Record>,
    b: Seq<Record>,
    index: Map<Seq<char>, Location>,
    files: Map<Seq<char>, Seq<u8>>,
    levels: Map<Seq<char>, usize>,
    level: usize,
)
    requires
        is_live_listing(a, index, files, levels, level),
        is_live_listing(b, index, files, levels, level),
    ensures
        a == b,
{
    let ka = record_keys(a);
    let kb = record_keys(b);
    assert forall|k: Seq<char>| ka.contains(k) <==> kb.contains(k) by {
        assert(ka.contains(k) <==> is_live(index, files, levels, level, k));
        assert(kb.contains(k) <==> is_live(index, files, levels, level, k));
    }
    lemma_ascending_unique(ka, kb);
    assert(a.len() == b.len());
    assert forall|i: int| 0 <= i < a.len() implies a[i] == b[i] by {
        assert(ka[i] == a[i].0 && kb[i] == b[i].0);
        assert(read_value(files, index[a[i].0], a[i].0) == Some(a[i].1));
        assert(read_value(files, index[b[i].0], b[i].0) == Some(b[i].1));
    }
    assert(a =~= b);
}

/// The live records of a level in ascending key order: for each key that
/// the index holds at a place in a segment of that level, the record there.
pub open spec fn live_listing(
    index: Map<Seq<char>, Location>,
    files: Map<Seq<char>, Seq<u8>>,
    levels: Map<Seq<char>, usize>,
    level: usize,
) -> Seq<Record> {
    choose|records: Seq<Record>| is_live_listing(records, index, files, levels, level)
}

/// The table that writes in ascending key order leave holds exactly those
/// writes: they are its sorted listing.
pub proof fn lemma_replay_of_sorted(records: Seq<Record>)
    requires
        ascending(record_keys(records)),
    ensures
        is_sorted_listing(records, replay(records)),
    decreases records.len(),
{
    let keys = record_keys(records);
    let values = record_values(records);
    if records.len() == 0 {
        assert(replay(records) =~= listing_map(keys, values));
    } else {
        let front = records.drop_last();
        let last = records.last();
        assert(record_keys(front) == keys.drop_last());
        assert(record_values(front) == values.drop_last());
        assert(ascending(record_keys(front))) by {
            assert forall|a: int, b: int| 0 <= a < b < front.len() implies key_lt(
                record_keys(front)[a],
                record_keys(front)[b],
            ) by {
                assert(record_keys(front)[a] == keys[a] && record_keys(front)[b] == keys[b]);
            }
        }
        lemma_replay_of_sorted(front);
        lemma_ascending_no_duplicates(keys);
        lemma_ascending_no_duplicates(record_keys(front));
        assert(!record_keys(front).contains(last.0)) by {
            if record_keys(front).contains(last.0) {
                let j = record_keys(front).index_of(last.0);
                assert(keys[j] == keys[keys.len() - 1]);
            }
        }
        crate::sorted_map::lemma_listing_push(
            record_keys(front),
            record_values(front),
            last.0,
            last.1,
        );
        assert(keys == record_keys(front).push(last.0));
        assert(values == record_values(front).push(last.1));
    }
}

/// Compaction merges what two flushes wrote: where a level holds the
/// segments of two flushes and nothing else, its live records are the
/// sorted listing of the table that the writes of the first flush, followed
/// by those of the second, leave. So the rewritten segment holds each key
/// of either segment once, in ascending order, with the value of the later
/// flush where both hold the key, and no other key.
pub proof fn lemma_compaction_merges_flushes(
    index: Map<Seq<char>, Location>,
    files: Map<Seq<char>, Seq<u8>>,
    levels: Map<Seq<char>, usize>,
    level: usize,
    first_name: Seq<char>,
    first: Seq<Record>,
    second_name: Seq<char>,
    second: Seq<Record>,
    live: Seq<Record>,
)
    requires
        index_sound(index, files),
        files.dom() == levels.dom(),
        forall|n: Seq<char>| levels.contains_key(n) ==> levels[n] != level,
        first_name != second_name,
        !files.contains_key(first_name),
        !files.contains_key(second_name),
        ascending(record_keys(first)),
        ascending(record_keys(second)),
        records_fit(first),
        records_fit(second),
        encode_records(first).len() <= usize::MAX,
        encode_records(second).len() <= usize::MAX,
        is_live_listing(
            live,
            index_after_flush(index_after_flush(index, first_name, first), second_name, second),
            files.insert(first_name, encode_records(first)).insert(
                second_name,
                encode_records(second),
            ),
            levels.insert(first_name, level).insert(second_name, level),
            level,
        ),
    ensures
        is_sorted_listing(live, replay(first + second)),
        replay(first + second) == replay(first).union_prefer_right(replay(second)),
{
    let index1 = index_after_flush(index, first_name, first);
    let index2 = index_after_flush(index1, second_name, second);
    let files2 = files.insert(first_name, encode_records(first)).insert(
        second_name,
        encode_records(second),
    );
    let levels2 = levels.insert(first_name, level).insert(second_name, level);
    let merged = replay(first + second);
    let keys = record_keys(live);
    let values = record_values(live);
    lemma_replay_concat(first, second);
    lemma_replay_of_sorted(first);
    lemma_replay_of_sorted(second);
    lemma_ascending_no_duplicates(keys);

    // What the index finds for each key after the two flushes.
    assert forall|k: Seq<char>| #![auto]
        (record_keys(second).contains(k) ==> read_value(files2, index2[k], k) == Some(
            replay(second)[k],
        ) && is_live(index2, files2, levels2, level, k)) && (!record_keys(second).contains(k)
            && record_keys(first).contains(k) ==> read_value(files2, index2[k], k) == Some(
            replay(first)[k],
        ) && is_live(index2, files2, levels2, level, k)) && (!record_keys(second).contains(k)
            && !record_keys(first).contains(k) ==> !is_live(index2, files2, levels2, level, k)) by {
        lemma_index_after_flush_others(index, first_name, first, k);
        lemma_index_after_flush_others(index1, second_name, second, k);
        if record_keys(second).contains(k) {
            let j = record_keys(second).index_of(k);
            assert(second[j].0 == k);
            lemma_listing_at(record_keys(second), record_values(second), j);
            lemma_index_after_flush_at(index1, second_name, second, j);
            lemma_flushed_record_reads_back(files2, index1, second_name, second, j);
        } else if record_keys(first).contains(k) {
            let j = record_keys(first).index_of(k);
            assert(first[j].0 == k);
            lemma_listing_at(record_keys(first), record_values(first), j);
            lemma_index_after_flush_at(index, first_name, first, j);
            lemma_flushed_record_reads_back(files2, index, first_name, first, j);
        } else if index.contains_key(k) {
            assert(read_value(files, index[k], k) is Some);
            assert(files.contains_key(index[k].file_name));
            assert(files.dom().contains(index[k].file_name));
            assert(levels.contains_key(index[k].file_name));
        }
    }

    assert forall|k: Seq<char>| merged.contains_key(k) <==> keys.contains(k) by {
        assert(keys.contains(k) <==> is_live(index2, files2, levels2, level, k));
        assert(replay(first).contains_key(k) <==> record_keys(first).contains(k));
        assert(replay(second).contains_key(k) <==> record_keys(second).contains(k));
    }
    assert forall|k: Seq<char>| keys.contains(k) implies #[trigger] listing_map(keys, values)[k]
        == merged[k] by {
        let i = keys.index_of(k);
        crate::sorted_map::lemma_listing_at_distinct(keys, values, i);
        assert(live[i].0 == k && values[i] == live[i].1);
        assert(read_value(files2, index2[live[i].0], live[i].0) == Some(live[i].1));
        assert(replay(first).contains_key(k) <==> record_keys(first).contains(k));
        assert(replay(second).contains_key(k) <==> record_keys(second).contains(k));
    }
    assert(merged =~= listing_map(keys, values));
}

/// The levels of the files that are not at `level`.
pub open spec fn levels_without_level(levels: Map<Seq<char>, usize>, level: usize) -> Map<
    Seq<char>,
    usize,
> {
    Map::new(|n: Seq<char>| levels.contains_key(n) && levels[n] != level, |n: Seq<char>| levels[n])
}

/// The files that are not at `level`.
pub open spec fn files_without_level(
    files: Map<Seq<char>, Seq<u8>>,
    levels: Map<Seq<char>, usize>,
    level: usize,
) -> Map<Seq<char>, Seq<u8>> {
    Map::new(|n: Seq<char>| files.contains_key(n) && levels[n] != level, |n: Seq<char>| files[n])
}

/// Writes `entries`, in their order, as one segment under the name `name`:
/// gives the bytes of the segment, and records each key in the index at its
/// record's place.
fn write_segment(entries: Vec<(String, String)>, name: &String, indexes: &mut Indexes) -> (data: Vec<
    u8,
>)
    requires
        records_fit(pairs_view(entries@)),
    ensures
        data@ == encode_records(pairs_view(entries@)),
        final(indexes)@ == index_after_flush(old(indexes)@, name@, pairs_view(entries@)),
{
    let ghost all = entries@;
    let ghost records = pairs_view(all);
    let ghost old_index = indexes@;
    let mut data: Vec<u8> = Vec::new();
    assert(records.take(0) == Seq::<Record>::empty());
    for pair in it: entries
        invariant
            it.seq() == all,
            pairs_view(all) == records,
            records_fit(records),
            data@ == encode_records(records.take(it.index() as int)),
            indexes@ == index_after_flush(old_index, name@, records.take(it.index() as int)),
    {
        let ghost i = it.index() as int;
        let (key, val) = pair;
        let kv = KeyValue::new((key.clone(), val));
        assert(kv@ == records[i]);
        let mut kv_as_bytes = kv.write_to_bytes();
        proof {
            assert(records.take(i + 1).drop_last() == records.take(i));
            assert(records.take(i + 1).take(i) == records.take(i));
            assert(records.take(i).push(records[i]) == records.take(i + 1));
            lemma_encode_push(records.take(i), records[i]);
        }
        indexes.create_index(key, data.len(), kv_as_bytes.len(), name.clone());
        data.append(&mut kv_as_bytes);
    }
    assert(records.take(records.len() as int) == records);
    data
}

/// The segment store and the index, as compaction sees them: what the index
/// holds, the files with their levels, how many files each level has, and
/// the number that the next segment gets.
pub struct Store {
    pub index: Map<Seq<char>, Location>,
    pub files: Map<Seq<char>, Seq<u8>>,
    pub levels: Map<Seq<char>, usize>,
    pub counts: Map<usize, nat>,
    pub next_id: u64,
}

/// The store after the segments of `level` were rewritten as one segment at
/// `target`: the new segment holds the live records of the level in
/// ascending key order, the index holds each of their keys at its record's
/// place there, and the segments of the level are gone.
pub open spec fn rewrite_level(s: Store, level: usize, target: usize) -> Store {
    let name = segment_name(s.next_id);
    let records = live_listing(s.index, s.files, s.levels, level);
    Store {
        index: index_after_flush(s.index, name, records),
        files: files_without_level(s.files, s.levels, level).insert(name, encode_records(records)),
        levels: levels_without_level(s.levels, level).insert(name, target),
        counts: Map::new(
            |l: usize| true,
            |l: usize|
                ((if l == level {
                    0
                } else {
                    s.counts[l] as int
                }) + (if l == target {
                    1int
                } else {
                    0int
                })) as nat,
        ),
        next_id: (s.next_id + 1) as u64,
    }
}

/// The table of unflushed writes, its log and its segment store.
pub struct MemTable {
    tree: SortedMap<String>,
    sstable_dir: SsTableDir,
    wal: Wal,
}

impl View for MemTable {
    type V = Map<Seq<char>, Seq<char>>;

    closed spec fn view(&self) -> Map<Seq<char>, Seq<char>> {
        table_view(self.tree@)
    }
}

impl MemTable {
    #[verifier::type_invariant]
    spec fn inv(&self) -> bool {
        table_fits(table_view(self.tree@))
    }

    /// The log.
    pub closed spec fn spec_wal(&self) -> &Wal {
        &self.wal
    }

    /// The segment store.
    pub closed spec fn spec_sstable_dir(&self) -> &SsTableDir {
        &self.sstable_dir
    }

    /// The entries of the table in ascending key order.
    pub closed spec fn records(&self) -> Seq<Record> {
        Seq::new(self.tree.keys().len(), |i: int| (self.tree.keys()[i], self.tree.values()[i]@))
    }

    /// The segment store with the index `indexes`, as compaction sees them.
    pub open spec fn store(&self, indexes: &Indexes) -> Store {
        Store {
            index: indexes@,
            files: self.files(),
            levels: self.sstable_dir().levels(),
            counts: Map::new(|l: usize| true, |l: usize| self.sstable_dir().count_at(l)),
            next_id: self.sstable_dir().next_id(),
        }
    }

    /// The files of the segment store.
    pub open spec fn files(&self) -> Map<Seq<char>, Seq<u8>> {
        self.sstable_dir().files()
    }

    /// Whether the log holds exactly the writes that made the table: what a
    /// restart would rebuild from the log is the table as it stands.
    pub open spec fn in_step(&self) -> bool {
        replay(self.wal().records()) == self@
    }

    /// An empty table over the given log and segment store. What the log
    /// holds is not read.
    pub fn new(wal: Wal, sstable_dir: SsTableDir) -> (table: Self)
        ensures
            table@ == Map::<Seq<char>, Seq<char>>::empty(),
            table.wal() == wal,
            table.sstable_dir() == sstable_dir,
            wal.records().len() == 0 ==> table.in_step(),
    {
        let table = Self { tree: SortedMap::new(), wal, sstable_dir };
        assert(table@ =~= Map::<Seq<char>, Seq<char>>::empty());
        table
    }

    /// The log.
    #[verifier::when_used_as_spec(spec_wal)]
    pub fn wal(&self) -> (wal: &Wal)
        ensures
            wal == self.wal(),
    {
        &self.wal
    }

    /// The segment store.
    #[verifier::when_used_as_spec(spec_sstable_dir)]
    pub fn sstable_dir(&self) -> (dir: &SsTableDir)
        ensures
            dir == self.sstable_dir(),
    {
        &self.sstable_dir
    }

    /// The number of entries in the table.
    pub fn size(&self) -> (n: usize)
        ensures
            n == self@.len(),
            self@.dom().finite(),
            table_fits(self@),
    {
        proof {
            use_type_invariant(self);
            assert(self@.dom() =~= self.tree@.dom());
        }
        self.tree.len()
    }

    /// The table that the log's records rebuild: each write of the log is
    /// applied in order, so for each key the last one stands.
    pub fn new_with_wal_data(wal: Wal, sstable_dir: SsTableDir) -> (table: Self)
        ensures
            table@ == replay(wal.records()),
            table.wal() == wal,
            table.sstable_dir() == sstable_dir,
            table.in_step(),
    {
        wal.check();
        let kv_vec = wal.read();
        let ghost all = kv_vec@;
        let ghost records = wal.records();
        let mut tree: SortedMap<String> = SortedMap::new();
        assert(table_view(tree@) =~= replay(records.take(0)));
        for kv in it: kv_vec
            invariant
                it.seq() == all,
                records_view(all) == records,
                forall|i: int| 0 <= i < records.len() ==> record_fits(#[trigger] records[i]),
                table_view(tree@) == replay(records.take(it.index() as int)),
                table_fits(table_view(tree@)),
        {
            let ghost i = it.index() as int;
            let ghost before = tree@;
            proof {
                assert(records.take(i + 1).drop_last() == records.take(i));
                assert(kv@ == records[i]);
                assert(table_view(before.insert(kv.key@, kv.value)) =~= table_view(before).insert(
                    kv.key@,
                    kv.value@,
                ));
            }
            tree.insert(kv.key, kv.value);
        }
        assert(records.take(records.len() as int) == records);
        Self { tree, wal, sstable_dir }
    }

    /// Looks a key up: in the table; failing that, in the index, and then
    /// in the segment that the index names.
    pub fn get(&self, key: String, indexes: &mut Indexes) -> (r: Result<String, MemTableError>)
        ensures
            *final(indexes) == *old(indexes),
            match lookup(self@, old(indexes)@, self.files(), key@) {
                Lookup::Found(value) => r matches Ok(v) && v@ == value,
                Lookup::NotFound => r matches Err(e) && e is NoValueFound,
                Lookup::Fault => r matches Err(e) && e is OtherError,
            },
    {
        if let Some(val) = self.tree.get(key.as_str()) {
            return Ok(val.clone());
        }
        let file_name = match indexes.get_file(&key) {
            Some(v) => v,
            None => { return Err(MemTableError::NoValueFound); },
        };
        let offset = match indexes.get_offset(&key) {
            Some(v) => v,
            None => { return Err(MemTableError::NoValueFound); },
        };
        let len = match indexes.get_len(&key) {
            Some(v) => v,
            None => { return Err(MemTableError::NoValueFound); },
        };
        match self.read_record(file_name.as_str(), offset, len, key.as_str()) {
            Some(value) => Ok(value),
            None => Err(
                MemTableError::OtherError(
                    String::from_str("the index names a place that holds no record of the key"),
                ),
            ),
        }
    }

    /// Reads the record of `key` that lies at `offset` in the segment
    /// `file_name` and is `length` bytes long, and gives its value. Gives
    /// nothing where the range does not lie in such a segment, or does not
    /// hold exactly one record, of that key.
    pub fn read_record(&self, file_name: &str, offset: usize, length: usize, key: &str) -> (r:
        Option<String>)
        ensures
            match read_value(self.files(), Location { file_name: file_name@, offset, length }, key@) {
                Some(value) => r matches Some(v) && v@ == value && record_fits((key@, value)),
                None => r is None,
            },
    {
        let buf = match self.sstable_dir.read(file_name, offset, length) {
            Some(v) => v,
            None => { return None; },
        };
        proof {
            if decode_records(buf@) is Ok {
                lemma_decode_then_encode(buf@);
            }
        }
        match KeyValue::deserialize(buf) {
            Ok(mut records) => {
                if records.len() != 1 {
                    return None;
                }
                let (found, value) = records.remove(0);
                if same_key(found.as_str(), key) {
                    Some(value)
                } else {
                    None
                }
            },
            Err(_) => None,
        }
    }

    /// Writes a key with its value: first to the log, then to the table,
    /// where it takes the place of the value that the key had. A record that
    /// does not fit is refused, and nothing changes.
    pub fn set(&mut self, key: String, value: String) -> (r: Result<(), MemTableError>)
        ensures
            final(self).sstable_dir() == old(self).sstable_dir(),
            match r {
                Ok(_) => {
                    &&& record_fits((key@, value@))
                    &&& final(self)@ == old(self)@.insert(key@, value@)
                    &&& final(self).wal().records() == old(self).wal().records().push(
                        (key@, value@),
                    )
                    &&& final(self).wal().bytes() == old(self).wal().bytes() + encode_record(
                        (key@, value@),
                    )
                },
                Err(e) => !record_fits((key@, value@)) && e is SetError && *final(self) == *old(self),
            },
            old(self).in_step() ==> final(self).in_step(),
    {
        proof {
            use_type_invariant(&*self);
            lemma_replay_push(self.wal().records(), (key@, value@));
        }
        let mut wal = Wal::new();
        std::mem::swap(&mut self.wal, &mut wal);
        let appended = wal.append(KeyValue::new((key.clone(), value.clone())));
        self.wal = wal;
        if appended.is_err() {
            return Err(MemTableError::SetError);
        }
        let mut tree: SortedMap<String> = SortedMap::new();
        std::mem::swap(&mut self.tree, &mut tree);
        proof {
            assert(table_view(tree@.insert(key@, value)) =~= table_view(tree@).insert(
                key@,
                value@,
            ));
        }
        tree.insert(key, value);
        self.tree = tree;
        Ok(())
    }

    /// Writes the table to a new segment and empties it. The entries are
    /// written in ascending key order, each key is recorded in the index at
    /// its record's place, and the log is cleared. Fails, and changes
    /// nothing, when the store has no number left for a segment.
    pub fn flush_to_sstable(&mut self, indexes: &mut Indexes) -> (r: Result<(), MemTableError>)
        ensures
            match r {
                Err(e) => {
                    &&& e is OtherError
                    &&& old(self).sstable_dir().next_id() == u64::MAX
                    &&& *final(self) == *old(self)
                    &&& *final(indexes) == *old(indexes)
                },
                Ok(_) => {
                    let name = old(self).sstable_dir().next_name();
                    let records = old(self).records();
                    &&& old(self).sstable_dir().next_id() < u64::MAX
                    &&& is_sorted_listing(records, old(self)@)
                    &&& records_fit(records)
                    &&& encode_records(records).len() <= usize::MAX
                    &&& final(self)@ == Map::<Seq<char>, Seq<char>>::empty()
                    &&& final(self).wal().bytes() == Seq::<u8>::empty()
                    &&& final(self).wal().records() == Seq::<Record>::empty()
                    &&& final(self).in_step()
                    &&& !old(self).files().contains_key(name)
                    &&& final(self).files() == old(self).files().insert(name, encode_records(records))
                    &&& final(self).sstable_dir().levels() == old(self).sstable_dir().levels().insert(
                        name,
                        0,
                    )
                    &&& final(self).sstable_dir().next_id() == old(self).sstable_dir().next_id() + 1
                    &&& final(self).sstable_dir().count_at(0) == old(self).sstable_dir().count_at(0)
                        + 1
                    &&& forall|l: usize|
                        l != 0 ==> #[trigger] final(self).sstable_dir().count_at(l)
                            == old(self).sstable_dir().count_at(l)
                    &&& final(indexes)@ == index_after_flush(old(indexes)@, name, records)
                    &&& forall|k: Seq<char>|
                        old(self)@.contains_key(k) ==> final(indexes)@.contains_key(k)
                            && #[trigger] read_value(final(self).files(), final(indexes)@[k], k)
                            == Some(old(self)@[k])
                    &&& forall|k: Seq<char>|
                        !(#[trigger] lookup(old(self)@, old(indexes)@, old(self).files(), k) is Fault)
                            ==> lookup(final(self)@, final(indexes)@, final(self).files(), k)
                            == lookup(old(self)@, old(indexes)@, old(self).files(), k)
                    &&& index_sound(old(indexes)@, old(self).files()) ==> index_sound(
                        final(indexes)@,
                        final(self).files(),
                    )
                },
            },
    {
        proof {
            use_type_invariant(&*self);
        }
        if self.sstable_dir.is_full() {
            return Err(MemTableError::OtherError(String::from_str("no segment number is left")));
        }
        let sstable_name = self.sstable_dir.peek_name();
        let ghost name = sstable_name@;
        let ghost table = self@;
        let ghost records = self.records();
        let ghost old_index = indexes@;
        let ghost old_files = self.files();

        let mut tree: SortedMap<String> = SortedMap::new();
        std::mem::swap(&mut self.tree, &mut tree);
        let ghost keys = tree.keys();
        let ghost values = tree.values();
        let entries = tree.drain_sorted();
        let ghost all = entries@;
        proof {
            assert(pairs_view(all) =~= records);
            assert(record_keys(records) =~= keys);
            assert(record_values(records) =~= values.map_values(|v: String| v@));
            assert(listing_map(keys, values.map_values(|v: String| v@)) =~= table_view(
                listing_map(keys, values),
            ));
            assert forall|j: int| 0 <= j < records.len() implies record_fits(
                #[trigger] records[j],
            ) by {
                lemma_listing_at(record_keys(records), record_values(records), j);
                assert(table.contains_key(records[j].0) && table[records[j].0] == records[j].1);
            }
        }

        let sstable_vec = write_segment(entries, &sstable_name, indexes);
        assert(encode_records(records).len() == sstable_vec.len() <= usize::MAX);

        let mut dir = SsTableDir::new(0);
        std::mem::swap(&mut self.sstable_dir, &mut dir);
        let added = dir.add(0, sstable_vec);
        self.sstable_dir = dir;
        let mut wal = Wal::new();
        std::mem::swap(&mut self.wal, &mut wal);
        wal.clear_wal();
        self.wal = wal;

        proof {
            let files = self.files();
            let index = indexes@;
            assert(self@ =~= Map::<Seq<char>, Seq<char>>::empty());
            assert forall|k: Seq<char>| table.contains_key(k) implies index.contains_key(k)
                && #[trigger] read_value(files, index[k], k) == Some(table[k]) by {
                let j = keys.index_of(k);
                lemma_listing_at(record_keys(records), record_values(records), j);
                assert(records[j].0 == k && records[j].1 == table[k]);
                lemma_index_after_flush_at(old_index, name, records, j);
                lemma_flushed_record_reads_back(files, old_index, name, records, j);
            }
            assert forall|k: Seq<char>| !(#[trigger] lookup(table, old_index, old_files, k) is Fault)
                implies lookup(self@, index, files, k) == lookup(table, old_index, old_files, k) by {
                lemma_index_after_flush_others(old_index, name, records, k);
                if !table.contains_key(k) && old_index.contains_key(k) {
                    assert(!record_keys(records).contains(k));
                    assert(old_files.contains_key(old_index[k].file_name));
                }
            }
            if index_sound(old_index, old_files) {
                assert forall|k: Seq<char>| index.contains_key(k) implies #[trigger] read_value(
                    files,
                    index[k],
                    k,
                ) is Some by {
                    lemma_index_after_flush_others(old_index, name, records, k);
                    if !table.contains_key(k) {
                        assert(!record_keys(records).contains(k));
                        assert(read_value(old_files, old_index[k], k) is Some);
                        assert(old_files.contains_key(old_index[k].file_name));
                    }
                }
            }
        }
        Ok(())
    }

    /// The records that are live at `level`: for each key that the index
    /// holds at a place in a segment of that level, the record there, in
    /// ascending key order.
    fn live_records(&self, indexes: &Indexes, level: usize) -> (live: Vec<(String, String)>)
        ensures
            is_live_listing(
                pairs_view(live@),
                indexes@,
                self.files(),
                self.sstable_dir().levels(),
                level,
            ),
    {
        let n = indexes.len();
        let ghost keys = indexes.keys();
        let ghost locs = indexes.locations();
        let ghost index = indexes@;
        let ghost files = self.files();
        let ghost levels = self.sstable_dir().levels();
        let mut live: Vec<(String, String)> = Vec::new();
        let ghost mut pos: Seq<int> = Seq::empty();
        let mut i: usize = 0;
        assert(record_keys(pairs_view(live@)) =~= Seq::<Seq<char>>::empty());
        while i < n
            invariant
                i <= n,
                n == keys.len(),
                keys == indexes.keys(),
                locs == indexes.locations(),
                index == indexes@,
                files == self.files(),
                levels == self.sstable_dir().levels(),
                is_listing(keys, locs, index),
                pos.len() == live.len(),
                forall|j: int| 0 <= j < pos.len() ==> 0 <= #[trigger] pos[j] < i,
                forall|j: int|
                    0 <= j < pos.len() ==> keys[#[trigger] pos[j]] == pairs_view(live@)[j].0,
                ascending(record_keys(pairs_view(live@))),
                records_fit(pairs_view(live@)),
                forall|p: int|
                    0 <= p < i ==> (record_keys(pairs_view(live@)).contains(#[trigger] keys[p])
                        <==> is_live(index, files, levels, level, keys[p])),
                forall|j: int|
                    0 <= j < live.len() ==> read_value(
                        files,
                        index[pairs_view(live@)[j].0],
                        (#[trigger] pairs_view(live@)[j]).0,
                    ) == Some(pairs_view(live@)[j].1),
            decreases n - i,
        {
            if let Some((key, place)) = indexes.entry_at(i) {
                let ghost before = pairs_view(live@);
                proof {
                    lemma_listing_at(keys, locs, i as int);
                    lemma_ascending_no_duplicates(keys);
                }
                let mut found: Option<String> = None;
                match self.sstable_dir.level_of(place.file_name.as_str()) {
                    Some(l) if l == level => {
                        found = self.read_record(
                            place.file_name.as_str(),
                            place.offset,
                            place.length,
                            key.as_str(),
                        );
                    },
                    _ => {},
                }
                assert(found is Some <==> is_live(index, files, levels, level, keys[i as int]));
                assert(!record_keys(before).contains(keys[i as int])) by {
                    if record_keys(before).contains(keys[i as int]) {
                        let j = record_keys(before).index_of(keys[i as int]);
                        assert(before[j].0 == keys[pos[j]]);
                    }
                }
                match found {
                    Some(value) => {
                        let ghost rec = (key@, value@);
                        proof {
                            let after = before.push(rec);
                            assert(pairs_view(live@.push((*key, value))) == after);
                            assert(record_keys(after) == record_keys(before).push(rec.0));
                            assert forall|a: int, b: int|
                                0 <= a < b < after.len() implies key_lt(
                                record_keys(after)[a],
                                record_keys(after)[b],
                            ) by {
                                if b < before.len() {
                                    assert(key_lt(record_keys(before)[a], record_keys(before)[b]));
                                } else {
                                    assert(before[a].0 == keys[pos[a]]);
                                    assert(key_lt(keys[pos[a]], keys[i as int]));
                                }
                            }
                            assert forall|p: int|
                                0 <= p < i + 1 implies (record_keys(after).contains(
                                #[trigger] keys[p],
                            ) <==> is_live(index, files, levels, level, keys[p])) by {
                                if p < i {
                                    if record_keys(before).contains(keys[p]) {
                                        let j = record_keys(before).index_of(keys[p]);
                                        assert(record_keys(after)[j] == keys[p]);
                                    }
                                    if record_keys(after).contains(keys[p]) {
                                        let j = record_keys(after).index_of(keys[p]);
                                        assert(j < before.len());
                                        assert(record_keys(before)[j] == keys[p]);
                                    }
                                } else {
                                    assert(record_keys(after)[before.len() as int] == keys[p]);
                                }
                            }
                            pos = pos.push(i as int);
                        }
                        live.push((key.clone(), value));
                    },
                    None => {},
                }
            }
            i = i + 1;
        }
        proof {
            let records = pairs_view(live@);
            assert forall|k: Seq<char>|
                record_keys(records).contains(k) <==> #[trigger] is_live(
                    index,
                    files,
                    levels,
                    level,
                    k,
                ) by {
                if record_keys(records).contains(k) {
                    let j = record_keys(records).index_of(k);
                    assert(records[j].0 == keys[pos[j]]);
                }
                if is_live(index, files, levels, level, k) {
                    assert(keys.contains(k));
                    let p = keys.index_of(k);
                    assert(keys[p] == k);
                }
            }
        }
        live
    }

    /// Rewrites the segments of `level` as one segment at `target`: the new
    /// segment holds the live records of the level in ascending key order,
    /// the index is pointed at them, and the segments of the level are
    /// taken away. Every lookup that found a value or found none comes to
    /// the same as before. Fails, and changes nothing, when the store has no
    /// number left for a segment.
    pub fn compact_level(&mut self, indexes: &mut Indexes, level: usize, target: usize) -> (r:
        Result<(), MemTableError>)
        ensures
            final(self)@ == old(self)@,
            final(self).wal() == old(self).wal(),
            match r {
                Err(e) => {
                    &&& e is OtherError
                    &&& old(self).sstable_dir().next_id() == u64::MAX
                    &&& *final(self) == *old(self)
                    &&& *final(indexes) == *old(indexes)
                },
                Ok(_) => {
                    let name = old(self).sstable_dir().next_name();
                    let files = old(self).files();
                    let levels = old(self).sstable_dir().levels();
                    let records = live_listing(old(indexes)@, files, levels, level);
                    &&& old(self).sstable_dir().next_id() < u64::MAX
                    &&& final(self).sstable_dir().next_id() == old(self).sstable_dir().next_id() + 1
                    &&& final(self).store(final(indexes)) == rewrite_level(
                        old(self).store(old(indexes)),
                        level,
                        target,
                    )
                    &&& is_live_listing(records, old(indexes)@, files, levels, level)
                    &&& final(self).files() == files_without_level(files, levels, level).insert(
                        name,
                        encode_records(records),
                    )
                    &&& final(indexes)@ == index_after_flush(old(indexes)@, name, records)
                    &&& final(self).sstable_dir().levels() == levels_without_level(
                        levels,
                        level,
                    ).insert(name, target)
                    &&& forall|l: usize|
                        #[trigger] final(self).sstable_dir().count_at(l) == (if l == level {
                            0
                        } else {
                            old(self).sstable_dir().count_at(l) as int
                        }) + (if l == target {
                            1int
                        } else {
                            0int
                        })
                    &&& forall|k: Seq<char>|
                        !(#[trigger] lookup(old(self)@, old(indexes)@, old(self).files(), k) is Fault)
                            ==> lookup(final(self)@, final(indexes)@, final(self).files(), k)
                            == lookup(old(self)@, old(indexes)@, old(self).files(), k)
                    &&& index_sound(old(indexes)@, old(self).files()) ==> index_sound(
                        final(indexes)@,
                        final(self).files(),
                    )
                },
            },
    {
        proof {
            use_type_invariant(&*self);
        }
        if self.sstable_dir.is_full() {
            return Err(MemTableError::OtherError(String::from_str("no segment number is left")));
        }
        let ghost table = self@;
        let ghost old_index = indexes@;
        let ghost files = self.files();
        let ghost levels = self.sstable_dir().levels();
        let _ = self.sstable_dir.len();
        let name = self.sstable_dir.peek_name();
        let live = self.live_records(indexes, level);
        let ghost records = pairs_view(live@);
        proof {
            lemma_live_listing_unique(
                records,
                live_listing(old_index, files, levels, level),
                old_index,
                files,
                levels,
                level,
            );
        }
        let data = write_segment(live, &name, indexes);
        assert(encode_records(records).len() == data.len() <= usize::MAX);

        let mut dir = SsTableDir::new(0);
        std::mem::swap(&mut self.sstable_dir, &mut dir);
        dir.remove_level(level);
        let ghost kept = dir.files();
        let added = dir.add(target, data);
        self.sstable_dir = dir;

        proof {
            let files2 = self.files();
            let index2 = indexes@;
            assert(kept =~= files_without_level(files, levels, level));
            assert(self.sstable_dir().levels() =~= levels_without_level(levels, level).insert(
                name@,
                target,
            ));
            assert(self.store(indexes).counts =~= rewrite_level(
                old(self).store(old(indexes)),
                level,
                target,
            ).counts);
            assert forall|k: Seq<char>| !(#[trigger] lookup(table, old_index, files, k) is Fault)
                implies lookup(table, index2, files2, k) == lookup(table, old_index, files, k) by {
                lemma_index_after_flush_others(old_index, name@, records, k);
                if table.contains_key(k) {
                } else if !old_index.contains_key(k) {
                    assert(!is_live(old_index, files, levels, level, k));
                    assert(!index2.contains_key(k));
                } else {
                    let loc = old_index[k];
                    assert(read_value(files, loc, k) is Some);
                    assert(files.contains_key(loc.file_name));
                    assert(files.dom().contains(loc.file_name));
                    assert(levels.contains_key(loc.file_name));
                    if levels[loc.file_name] == level {
                        assert(is_live(old_index, files, levels, level, k));
                        let j = record_keys(records).index_of(k);
                        assert(records[j].0 == k);
                        assert(read_value(files, old_index[records[j].0], records[j].0) == Some(
                            records[j].1,
                        ));
                        lemma_flushed_record_reads_back(files2, old_index, name@, records, j);
                    } else {
                        assert(!is_live(old_index, files, levels, level, k));
                        assert(!record_keys(records).contains(k));
                        assert(index2[k] == loc);
                        assert(kept.contains_key(loc.file_name));
                        assert(files2[loc.file_name] == files[loc.file_name]);
                    }
                }
            }
            if index_sound(old_index, files) {
                assert forall|k: Seq<char>| index2.contains_key(k) implies #[trigger] read_value(
                    files2,
                    index2[k],
                    k,
                ) is Some by {
                    lemma_index_after_flush_others(old_index, name@, records, k);
                    if record_keys(records).contains(k) {
                        let j = record_keys(records).index_of(k);
                        assert(records[j].0 == k);
                        lemma_flushed_record_reads_back(files2, old_index, name@, records, j);
                    } else {
                        let loc = old_index[k];
                        assert(read_value(files, loc, k) is Some);
                        assert(files.dom().contains(loc.file_name));
                        assert(!is_live(old_index, files, levels, level, k));
                        assert(kept.contains_key(loc.file_name));
                        assert(files2[loc.file_name] == files[loc.file_name]);
                    }
                }
            }
        }
        Ok(())
    }
}

} // verus!
