//! What the keeper of the files has to do so that the log file and the
//! segment files hold what the engine holds, and in which order.

use crate::memtable::MemTable;
use crate::sorted_map::same_key;
use vstd::prelude::*;
use vstd::slice::*;

verus! {

/// One step that the keeper of the files takes.
#[derive(Debug, PartialEq, Eq)]
pub enum FileOp {
    /// Write a segment file of this name with these bytes, and make it
    /// durable.
    WriteSegment(String, Vec<u8>),
    /// Append these bytes to the log file, and make them durable.
    AppendLog(Vec<u8>),
    /// Empty the log file and write these bytes to it.
    RewriteLog(Vec<u8>),
    /// Remove the segment file of this name.
    RemoveSegment(String),
}

/// A `FileOp` in specifications.
pub enum FileOpView {
    WriteSegment(Seq<char>, Seq<u8>),
    AppendLog(Seq<u8>),
    RewriteLog(Seq<u8>),
    RemoveSegment(Seq<char>),
}

impl View for FileOp {
    type V = FileOpView;

    open spec fn view(&self) -> FileOpView {
        match self {
            FileOp::WriteSegment(name, data) => FileOpView::WriteSegment(name@, data@),
            FileOp::AppendLog(bytes) => FileOpView::AppendLog(bytes@),
            FileOp::RewriteLog(bytes) => FileOpView::RewriteLog(bytes@),
            FileOp::RemoveSegment(name) => FileOpView::RemoveSegment(name@),
        }
    }
}

/// The steps of a list in specifications.
pub open spec fn ops_view(ops: Seq<FileOp>) -> Seq<FileOpView> {
    ops.map_values(|op: FileOp| op@)
}

/// What the files hold, as far as plans have said: the bytes of the log
/// file and the names of the segment files.
pub struct Files {
    log: Vec<u8>,
    segments: Vec<String>,
}

/// The texts of a list of names.
pub open spec fn names_view(names: Seq<String>) -> Seq<Seq<char>> {
    names.map_values(|n: String| n@)
}

/// The names of `names` that `other` does not hold, in their order.
pub open spec fn missing_from(names: Seq<Seq<char>>, other: Seq<Seq<char>>) -> Seq<Seq<char>>
    decreases names.len(),
{
    if names.len() == 0 {
        Seq::empty()
    } else if other.contains(names.last()) {
        missing_from(names.drop_last(), other)
    } else {
        missing_from(names.drop_last(), other).push(names.last())
    }
}

/// The steps that make a log file that holds `on_disk` hold `wanted`: none
/// where it does; an append where it holds the beginning of it; else a
/// rewrite.
pub open spec fn log_ops(on_disk: Seq<u8>, wanted: Seq<u8>) -> Seq<FileOpView> {
    if on_disk == wanted {
        Seq::empty()
    } else if on_disk.is_prefix_of(wanted) {
        seq![FileOpView::AppendLog(wanted.skip(on_disk.len() as int))]
    } else {
        seq![FileOpView::RewriteLog(wanted)]
    }
}

/// The steps that write the segments `names`, each with its bytes in `files`.
pub open spec fn write_ops(names: Seq<Seq<char>>, files: Map<Seq<char>, Seq<u8>>) -> Seq<
    FileOpView,
> {
    names.map_values(|n: Seq<char>| FileOpView::WriteSegment(n, files[n]))
}

/// The steps that remove the segments `names`.
pub open spec fn remove_ops(names: Seq<Seq<char>>) -> Seq<FileOpView> {
    names.map_values(|n: Seq<char>| FileOpView::RemoveSegment(n))
}

/// The steps that bring the files up to date, in the order in which they are
/// to be taken: first each segment of the store that has no file is
/// written; then the log file is made to hold the log; only then each file
/// that the store has no segment for is removed. A flushed segment is thus
/// durable before its records leave the log, and a compacted segment before
/// the segments that it replaces are removed.
pub open spec fn plan(
    store_names: Seq<Seq<char>>,
    store_files: Map<Seq<char>, Seq<u8>>,
    log: Seq<u8>,
    disk_names: Seq<Seq<char>>,
    disk_log: Seq<u8>,
) -> Seq<FileOpView> {
    write_ops(missing_from(store_names, disk_names), store_files) + log_ops(disk_log, log)
        + remove_ops(missing_from(disk_names, store_names))
}

/// What a log file that holds `on_disk` holds after the steps `ops`.
pub open spec fn log_after(on_disk: Seq<u8>, ops: Seq<FileOpView>) -> Seq<u8>
    decreases ops.len(),
{
    if ops.len() == 0 {
        on_disk
    } else {
        let before = log_after(on_disk, ops.drop_last());
        match ops.last() {
            FileOpView::AppendLog(bytes) => before + bytes,
            FileOpView::RewriteLog(bytes) => bytes,
            _ => before,
        }
    }
}

/// The planned steps make the log file hold what is wanted.
pub proof fn lemma_log_ops_reach(on_disk: Seq<u8>, wanted: Seq<u8>)
    ensures
        log_after(on_disk, log_ops(on_disk, wanted)) == wanted,
{
    reveal_with_fuel(log_after, 2);
    let ops = log_ops(on_disk, wanted);
    if on_disk != wanted {
        assert(ops.drop_last() == Seq::<FileOpView>::empty());
        if on_disk.is_prefix_of(wanted) {
            assert(on_disk + wanted.skip(on_disk.len() as int) =~= wanted);
        }
    }
}

/// What is missing from a list holds no name of that list, and holds every
/// other name of the first list.
pub proof fn lemma_missing_from(names: Seq<Seq<char>>, other: Seq<Seq<char>>, n: Seq<char>)
    ensures
        missing_from(names, other).contains(n) <==> names.contains(n) && !other.contains(n),
    decreases names.len(),
{
    if names.len() > 0 {
        let front = names.drop_last();
        let kept = missing_from(names, other);
        lemma_missing_from(front, other, n);
        if kept.contains(n) {
            let p = kept.index_of(n);
            if !other.contains(names.last()) && p == kept.len() - 1 {
                assert(names[names.len() - 1] == n);
            } else {
                assert(missing_from(front, other)[p] == n);
                let q = front.index_of(n);
                assert(names[q] == n);
            }
        }
        if names.contains(n) && !other.contains(n) {
            let q = names.index_of(n);
            if q == names.len() - 1 {
                assert(kept[kept.len() - 1] == n);
            } else {
                assert(front[q] == n);
                let p = missing_from(front, other).index_of(n);
                assert(kept[p] == n);
            }
        }
    }
}

/// Whether `names` holds `name`.
fn holds(names: &Vec<String>, name: &str) -> (r: bool)
    ensures
        r == names_view(names@).contains(name@),
{
    let mut i: usize = 0;
    while i < names.len()
        invariant
            i <= names.len(),
            forall|j: int| 0 <= j < i ==> names_view(names@)[j] != name@,
        decreases names.len() - i,
    {
        if same_key(names[i].as_str(), name) {
            assert(names_view(names@)[i as int] == name@);
            return true;
        }
        i = i + 1;
    }
    false
}

/// Adds to `ops` the steps that make a log file that holds `on_disk` hold
/// `wanted`.
fn push_log_ops(ops: &mut Vec<FileOp>, on_disk: &Vec<u8>, wanted: &Vec<u8>)
    ensures
        ops_view(final(ops)@) == ops_view(old(ops)@) + log_ops(on_disk@, wanted@),
{
    let ghost before = ops_view(ops@);
    if on_disk.len() > wanted.len() {
        let op = FileOp::RewriteLog(wanted.clone());
        ops.push(op);
        assert(ops_view(ops@) == before + seq![op@]);
        return;
    }
    let mut i: usize = 0;
    while i < on_disk.len()
        invariant
            i <= on_disk.len() <= wanted.len(),
            forall|j: int| 0 <= j < i ==> on_disk[j] == wanted[j],
            ops_view(ops@) == before,
            before == ops_view(old(ops)@),
        decreases on_disk.len() - i,
    {
        if on_disk[i] != wanted[i] {
            assert(on_disk@[i as int] != wanted@[i as int]);
            assert(on_disk@[i as int] != wanted@.subrange(0, on_disk.len() as int)[i as int]);
            let op = FileOp::RewriteLog(wanted.clone());
            ops.push(op);
            assert(ops_view(ops@) == before + seq![op@]);
            return;
        }
        i = i + 1;
    }
    assert(on_disk@ =~= wanted@.subrange(0, on_disk.len() as int));
    if on_disk.len() == wanted.len() {
        assert(on_disk@ =~= wanted@);
        assert(before + Seq::<FileOpView>::empty() == before);
    } else {
        let tail = slice_to_vec(slice_subrange(wanted.as_slice(), on_disk.len(), wanted.len()));
        let op = FileOp::AppendLog(tail);
        ops.push(op);
        assert(ops_view(ops@) == before + seq![op@]);
    }
}

impl Files {
    /// The bytes of the log file.
    pub closed spec fn log(&self) -> Seq<u8> {
        self.log@
    }

    /// The names of the segment files.
    pub closed spec fn segments(&self) -> Seq<Seq<char>> {
        names_view(self.segments@)
    }

    /// The files as they are found at the start: a log file that holds
    /// `log`, and no segment file that the engine knows.
    pub fn new(log: Vec<u8>) -> (files: Self)
        ensures
            files.log() == log@,
            files.segments() == Seq::<Seq<char>>::empty(),
    {
        let files = Self { log, segments: Vec::new() };
        assert(files.segments() =~= Seq::<Seq<char>>::empty());
        files
    }

    /// Takes note that `bytes` were appended to the log file.
    pub fn appended(&mut self, bytes: &Vec<u8>)
        ensures
            final(self).log() == old(self).log() + bytes@,
            final(self).segments() == old(self).segments(),
    {
        let mut tail = bytes.clone();
        self.log.append(&mut tail);
    }

    /// Plans the steps that make the files hold what `memtable` holds, in
    /// the order in which they are to be taken. Afterwards the files count
    /// as holding the log and the store's segments.
    pub fn sync(&mut self, memtable: &MemTable) -> (ops: Vec<FileOp>)
        ensures
            ops_view(ops@) == plan(
                memtable.sstable_dir().names(),
                memtable.files(),
                memtable.wal().bytes(),
                old(self).segments(),
                old(self).log(),
            ),
            final(self).log() == memtable.wal().bytes(),
            final(self).segments() == memtable.sstable_dir().names(),
    {
        let dir = memtable.sstable_dir();
        let names = dir.list();
        let ghost store = dir.names();
        let ghost files = dir.files();
        let ghost on_disk = self.segments();

        let mut ops: Vec<FileOp> = Vec::new();
        let mut i: usize = 0;
        assert(ops_view(ops@) =~= write_ops(missing_from(store.take(0), on_disk), files));
        while i < names.len()
            invariant
                i <= names.len(),
                names_view(names@) == store,
                store == dir.names(),
                files == dir.files(),
                on_disk == self.segments(),
                forall|n: Seq<char>| store.contains(n) <==> files.contains_key(n),
                ops_view(ops@) == write_ops(missing_from(store.take(i as int), on_disk), files),
            decreases names.len() - i,
        {
            let ghost before = missing_from(store.take(i as int), on_disk);
            proof {
                assert(store.take(i + 1).drop_last() == store.take(i as int));
                assert(store.take(i + 1).last() == names[i as int]@);
                assert(store.contains(store[i as int]));
            }
            if !holds(&self.segments, names[i].as_str()) {
                if let Some(data) = dir.get(names[i].as_str()) {
                    let ghost done = ops_view(ops@);
                    let op = FileOp::WriteSegment(names[i].clone(), data.clone());
                    ops.push(op);
                    assert(ops_view(ops@) == done.push(op@));
                    assert(write_ops(before.push(names[i as int]@), files) == write_ops(
                        before,
                        files,
                    ).push(op@));
                }
            }
            i = i + 1;
        }
        assert(store.take(i as int) == store);

        push_log_ops(&mut ops, &self.log, memtable.wal().as_bytes());
        let ghost front = ops_view(ops@);

        let mut k: usize = 0;
        assert(front + remove_ops(missing_from(on_disk.take(0), store)) =~= front);
        while k < self.segments.len()
            invariant
                k <= self.segments.len(),
                names_view(names@) == store,
                on_disk == self.segments(),
                ops_view(ops@) == front + remove_ops(missing_from(on_disk.take(k as int), store)),
            decreases self.segments.len() - k,
        {
            let ghost before = missing_from(on_disk.take(k as int), store);
            proof {
                assert(on_disk.take(k + 1).drop_last() == on_disk.take(k as int));
                assert(on_disk.take(k + 1).last() == self.segments[k as int]@);
            }
            if !holds(&names, self.segments[k].as_str()) {
                let ghost done = ops_view(ops@);
                let op = FileOp::RemoveSegment(self.segments[k].clone());
                ops.push(op);
                assert(ops_view(ops@) == done.push(op@));
                assert(remove_ops(before.push(self.segments[k as int]@)) == remove_ops(before).push(
                    op@,
                ));
                assert((front + remove_ops(before)).push(op@) == front + remove_ops(before).push(
                    op@,
                ));
            }
            k = k + 1;
        }
        assert(on_disk.take(k as int) == on_disk);

        self.log = memtable.wal().as_bytes().clone();
        self.segments = names;
        ops
    }
}

} // verus!
