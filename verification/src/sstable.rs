//! The segment store: the immutable, key-sorted tables that flushes and
//! compactions write, each under a file name made from its number.

use crate::sorted_map::{lemma_listing_at_distinct, lemma_listing_push, listing_map, same_key};
use vstd::prelude::*;
use vstd::slice::*;
use vstd::string::*;

verus! {

/// The character of a decimal digit.
pub open spec fn digit_char(d: int) -> char {
    if d == 0 {
        '0'
    } else if d == 1 {
        '1'
    } else if d == 2 {
        '2'
    } else if d == 3 {
        '3'
    } else if d == 4 {
        '4'
    } else if d == 5 {
        '5'
    } else if d == 6 {
        '6'
    } else if d == 7 {
        '7'
    } else if d == 8 {
        '8'
    } else {
        '9'
    }
}

/// A number written in decimal, without leading zeros.
pub open spec fn decimal(n: nat) -> Seq<char>
    decreases n,
{
    if n < 10 {
        seq![digit_char(n as int)]
    } else {
        decimal(n / 10).push(digit_char((n % 10) as int))
    }
}

/// What follows the number in a segment's file name.
pub open spec fn name_suffix() -> Seq<char> {
    "_sstable.dat"@
}

/// The file name of the segment with the number `id`.
pub open spec fn segment_name(id: u64) -> Seq<char> {
    decimal(id as nat) + name_suffix()
}

/// The digits have characters with consecutive codes.
proof fn lemma_digit_code(d: int)
    requires
        0 <= d < 10,
    ensures
        digit_char(d) as u32 == '0' as u32 + d,
{
}

/// Every number has at least one digit.
proof fn lemma_decimal_len(n: nat)
    ensures
        decimal(n).len() >= 1,
    decreases n,
{
    if n >= 10 {
        lemma_decimal_len(n / 10);
    }
}

/// Different numbers are written differently.
pub proof fn lemma_decimal_injective(a: nat, b: nat)
    requires
        decimal(a) == decimal(b),
    ensures
        a == b,
    decreases a,
{
    if a < 10 && b < 10 {
        assert(decimal(a)[0] == digit_char(a as int));
        assert(decimal(b)[0] == digit_char(b as int));
        lemma_digit_code(a as int);
        lemma_digit_code(b as int);
    } else if a < 10 {
        lemma_decimal_len(b / 10);
    } else if b < 10 {
        lemma_decimal_len(a / 10);
    } else {
        let x = decimal(a / 10);
        let y = decimal(b / 10);
        let p = digit_char((a % 10) as int);
        let q = digit_char((b % 10) as int);
        assert(x.push(p).last() == p && y.push(q).last() == q);
        assert(x.push(p).drop_last() == x && y.push(q).drop_last() == y);
        lemma_digit_code((a % 10) as int);
        lemma_digit_code((b % 10) as int);
        assert(a % 10 == b % 10);
        lemma_decimal_injective(a / 10, b / 10);
    }
}

/// Segments with different numbers have different file names.
pub proof fn lemma_segment_name_injective(a: u64, b: u64)
    requires
        segment_name(a) == segment_name(b),
    ensures
        a == b,
{
    let x = decimal(a as nat);
    let y = decimal(b as nat);
    assert(x.len() == y.len()) by {
        assert(segment_name(a).len() == x.len() + name_suffix().len());
        assert(segment_name(b).len() == y.len() + name_suffix().len());
    }
    assert(x == segment_name(a).subrange(0, x.len() as int));
    assert(y == segment_name(b).subrange(0, y.len() as int));
    lemma_decimal_injective(a as nat, b as nat);
}

/// One decimal digit as text.
fn digit_str(d: u64) -> (s: &'static str)
    requires
        d < 10,
    ensures
        s@ == seq![digit_char(d as int)],
{
    proof {
        reveal_strlit("0");
        reveal_strlit("1");
        reveal_strlit("2");
        reveal_strlit("3");
        reveal_strlit("4");
        reveal_strlit("5");
        reveal_strlit("6");
        reveal_strlit("7");
        reveal_strlit("8");
        reveal_strlit("9");
    }
    let s = if d == 0 {
        "0"
    } else if d == 1 {
        "1"
    } else if d == 2 {
        "2"
    } else if d == 3 {
        "3"
    } else if d == 4 {
        "4"
    } else if d == 5 {
        "5"
    } else if d == 6 {
        "6"
    } else if d == 7 {
        "7"
    } else if d == 8 {
        "8"
    } else {
        "9"
    };
    assert(s@ =~= seq![digit_char(d as int)]);
    s
}

/// A number written in decimal.
fn decimal_string(n: u64) -> (s: String)
    ensures
        s@ == decimal(n as nat),
    decreases n,
{
    if n < 10 {
        String::from_str(digit_str(n))
    } else {
        let mut s = decimal_string(n / 10);
        s.append(digit_str(n % 10));
        s
    }
}

/// The file name of the segment with the number `id`.
pub fn segment_file_name(id: u64) -> (name: String)
    ensures
        name@ == segment_name(id),
{
    let mut name = decimal_string(id);
    name.append("_sstable.dat");
    name
}

/// One segment: its number, its level, its file name and its bytes.
struct SsTable {
    id: u64,
    level: usize,
    name: String,
    data: Vec<u8>,
}

/// The segments of one engine, and the number that the next one gets.
pub struct SsTableDir {
    tables: Vec<SsTable>,
    next_id: u64,
}

/// The file names of a list of segments.
spec fn table_names(tables: Seq<SsTable>) -> Seq<Seq<char>> {
    tables.map_values(|t: SsTable| t.name@)
}

/// The contents of a list of segments.
spec fn table_datas(tables: Seq<SsTable>) -> Seq<Seq<u8>> {
    tables.map_values(|t: SsTable| t.data@)
}

/// The levels of a list of segments.
spec fn table_levels(tables: Seq<SsTable>) -> Seq<usize> {
    tables.map_values(|t: SsTable| t.level)
}

/// Whether each segment is named after its number, all numbers lie below
/// `next_id`, and no number occurs twice.
spec fn tables_valid(tables: Seq<SsTable>, next_id: u64) -> bool {
    &&& forall|i: int|
        0 <= i < tables.len() ==> (#[trigger] tables[i]).name@ == segment_name(tables[i].id)
            && tables[i].id < next_id
    &&& forall|i: int, j: int|
        0 <= i < j < tables.len() ==> (#[trigger] tables[i]).id != (#[trigger] tables[j]).id
}

/// How many of the segments are at `level`.
spec fn count_level(tables: Seq<SsTable>, level: usize) -> nat
    decreases tables.len(),
{
    if tables.len() == 0 {
        0
    } else {
        count_level(tables.drop_last(), level) + if tables.last().level == level {
            1nat
        } else {
            0nat
        }
    }
}

/// The segments that are not at `level`, in their order.
spec fn without_level(tables: Seq<SsTable>, level: usize) -> Seq<SsTable>
    decreases tables.len(),
{
    if tables.len() == 0 {
        Seq::empty()
    } else if tables.last().level == level {
        without_level(tables.drop_last(), level)
    } else {
        without_level(tables.drop_last(), level).push(tables.last())
    }
}

/// Valid segments have pairwise different file names.
proof fn lemma_valid_names_distinct(tables: Seq<SsTable>, next_id: u64)
    requires
        tables_valid(tables, next_id),
    ensures
        table_names(tables).no_duplicates(),
{
    let names = table_names(tables);
    assert forall|i: int, j: int| 0 <= i < names.len() && 0 <= j < names.len() && i != j implies names[i]
        != names[j] by {
        if names[i] == names[j] {
            lemma_segment_name_injective(tables[i].id, tables[j].id);
            if i < j {
                assert(tables[i].id != tables[j].id);
            } else {
                assert(tables[j].id != tables[i].id);
            }
        }
    }
}

/// What stays when the segments of one level are taken away: the other
/// segments, each once, still valid, and none at that level.
proof fn lemma_without_level(tables: Seq<SsTable>, next_id: u64, level: usize)
    requires
        tables_valid(tables, next_id),
    ensures
        tables_valid(without_level(tables, level), next_id),
        count_level(without_level(tables, level), level) == 0,
        forall|l: usize|
            l != level ==> count_level(without_level(tables, level), l) == count_level(tables, l),
        forall|t: SsTable|
            #![trigger without_level(tables, level).contains(t)]
            #![trigger tables.contains(t)]
            without_level(tables, level).contains(t) <==> tables.contains(t) && t.level != level,
    decreases tables.len(),
{
    let kept = without_level(tables, level);
    if tables.len() > 0 {
        let front = tables.drop_last();
        let last = tables.last();
        let kept_front = without_level(front, level);
        assert(tables_valid(front, next_id)) by {
            assert forall|i: int| 0 <= i < front.len() implies (#[trigger] front[i]).name@
                == segment_name(front[i].id) && front[i].id < next_id by {
                assert(front[i] == tables[i]);
            }
            assert forall|i: int, j: int| 0 <= i < j < front.len() implies (#[trigger] front[i]).id != (
            #[trigger] front[j]).id by {
                assert(front[i] == tables[i] && front[j] == tables[j]);
            }
        }
        lemma_without_level(front, next_id, level);
        assert forall|t: SsTable|
            #![trigger kept.contains(t)]
            #![trigger tables.contains(t)]
            kept.contains(t) <==> tables.contains(t) && t.level != level by {
            if kept.contains(t) {
                let p = choose|p: int| 0 <= p < kept.len() && kept[p] == t;
                if last.level != level && p == kept.len() - 1 {
                    assert(tables[tables.len() - 1] == t);
                } else {
                    assert(kept_front[p] == t);
                    assert(kept_front.contains(t));
                    assert(front.contains(t) && t.level != level);
                    let q = front.index_of(t);
                    assert(tables[q] == t);
                }
            }
            if tables.contains(t) && t.level != level {
                let q = choose|q: int| 0 <= q < tables.len() && tables[q] == t;
                if q == tables.len() - 1 {
                    assert(kept[kept.len() - 1] == t);
                } else {
                    assert(front[q] == t);
                    assert(front.contains(t));
                    let p = choose|p: int| 0 <= p < kept_front.len() && kept_front[p] == t;
                    assert(kept[p] == t);
                }
            }
        }
        assert forall|l: usize| l != level implies count_level(kept, l) == count_level(
            tables,
            l,
        ) by {
            assert(count_level(kept_front, l) == count_level(front, l));
            if last.level != level {
                assert(kept.drop_last() == kept_front);
                assert(kept.last() == last);
            }
        }
        if last.level != level {
            assert(kept.drop_last() == kept_front);
            assert forall|i: int| 0 <= i < kept.len() implies (#[trigger] kept[i]).name@
                == segment_name(kept[i].id) && kept[i].id < next_id by {
                assert(kept.contains(kept[i]));
                let q = choose|q: int| 0 <= q < tables.len() && tables[q] == kept[i];
            }
            assert forall|i: int, j: int| 0 <= i < j < kept.len() implies (#[trigger] kept[i]).id != (
            #[trigger] kept[j]).id by {
                if j == kept.len() - 1 {
                    assert(kept_front[i] == kept[i]);
                    assert(kept_front.contains(kept[i]));
                    let q = choose|q: int| 0 <= q < front.len() && front[q] == kept[i];
                    assert(tables[q] == kept[i]);
                    assert(tables[q].id != tables[tables.len() - 1].id);
                } else {
                    assert(kept_front[i] == kept[i] && kept_front[j] == kept[j]);
                }
            }
        }
    }
}

impl SsTableDir {
    #[verifier::type_invariant]
    spec fn inv(&self) -> bool {
        tables_valid(self.tables@, self.next_id)
    }

    /// The files of the store: each segment's bytes under its file name.
    pub closed spec fn files(&self) -> Map<Seq<char>, Seq<u8>> {
        listing_map(table_names(self.tables@), table_datas(self.tables@))
    }

    /// The level of each segment, under its file name.
    pub closed spec fn levels(&self) -> Map<Seq<char>, usize> {
        listing_map(table_names(self.tables@), table_levels(self.tables@))
    }

    /// How many segments are at `level`.
    pub closed spec fn count_at(&self, level: usize) -> nat {
        count_level(self.tables@, level)
    }

    /// The file names of the segments, in the order in which they were added.
    pub closed spec fn names(&self) -> Seq<Seq<char>> {
        table_names(self.tables@)
    }

    /// The number that the next segment gets.
    pub closed spec fn next_id(&self) -> u64 {
        self.next_id
    }

    /// The file name that the next segment gets.
    pub open spec fn next_name(&self) -> Seq<char> {
        segment_name(self.next_id())
    }

    /// A store without segments, whose first segment gets the number
    /// `first_id`.
    pub fn new(first_id: u64) -> (dir: Self)
        ensures
            dir.files() == Map::<Seq<char>, Seq<u8>>::empty(),
            dir.levels() == Map::<Seq<char>, usize>::empty(),
            dir.next_id() == first_id,
            forall|level: usize| dir.count_at(level) == 0,
    {
        let dir = Self { tables: Vec::new(), next_id: first_id };
        assert(dir.files() =~= Map::<Seq<char>, Seq<u8>>::empty());
        assert(dir.levels() =~= Map::<Seq<char>, usize>::empty());
        dir
    }

    /// The number that the next segment gets.
    pub fn next_number(&self) -> (n: u64)
        ensures
            n == self.next_id(),
    {
        self.next_id
    }

    /// Whether the numbers are used up, so that no segment can be added.
    pub fn is_full(&self) -> (b: bool)
        ensures
            b == (self.next_id() == u64::MAX),
    {
        self.next_id == u64::MAX
    }

    /// The file name that the next segment gets.
    pub fn peek_name(&self) -> (name: String)
        ensures
            name@ == self.next_name(),
    {
        segment_file_name(self.next_id)
    }

    /// The number of segments.
    pub fn len(&self) -> (n: usize)
        ensures
            n == self.files().len(),
            self.files().dom().finite(),
            self.files().dom() == self.levels().dom(),
    {
        proof {
            use_type_invariant(self);
            let names = table_names(self.tables@);
            lemma_valid_names_distinct(self.tables@, self.next_id);
            names.unique_seq_to_set();
            assert(self.files().dom() =~= names.to_set());
            assert(self.levels().dom() =~= names.to_set());
        }
        self.tables.len()
    }

    /// Adds a segment at `level` that holds `data`, under the next number.
    /// Returns its file name, or nothing, with the store unchanged, when
    /// the numbers are used up.
    pub fn add(&mut self, level: usize, data: Vec<u8>) -> (r: Option<String>)
        ensures
            r is Some <==> old(self).next_id() < u64::MAX,
            r is None ==> *final(self) == *old(self),
            r matches Some(name) ==> name@ == old(self).next_name(),
            r is Some ==> !old(self).files().contains_key(old(self).next_name()),
            r is Some ==> final(self).files() == old(self).files().insert(
                old(self).next_name(),
                data@,
            ),
            r is Some ==> final(self).levels() == old(self).levels().insert(
                old(self).next_name(),
                level,
            ),
            r is Some ==> final(self).next_id() == old(self).next_id() + 1,
            r is Some ==> final(self).count_at(level) == old(self).count_at(level) + 1,
            r is Some ==> forall|l: usize|
                l != level ==> final(self).count_at(l) == old(self).count_at(l),
    {
        proof {
            use_type_invariant(&*self);
        }
        if self.next_id == u64::MAX {
            return None;
        }
        let id = self.next_id;
        let name = segment_file_name(id);
        let result = name.clone();
        let table = SsTable { id, level, name, data };
        let mut tables: Vec<SsTable> = Vec::new();
        std::mem::swap(&mut self.tables, &mut tables);
        proof {
            let before = tables@;
            let after = before.push(table);
            let names = table_names(before);
            lemma_valid_names_distinct(before, id);
            assert(table_names(after) == names.push(table.name@));
            assert(table_datas(after) == table_datas(before).push(table.data@));
            assert(table_levels(after) == table_levels(before).push(level));
            assert(!names.contains(table.name@)) by {
                if names.contains(table.name@) {
                    let p = names.index_of(table.name@);
                    lemma_segment_name_injective(before[p].id, id);
                }
            }
            lemma_listing_push(names, table_datas(before), table.name@, table.data@);
            lemma_listing_push(names, table_levels(before), table.name@, level);
            assert(after.drop_last() == before);
            assert(tables_valid(after, (id + 1) as u64));
        }
        tables.push(table);
        self.next_id = id + 1;
        self.tables = tables;
        Some(result)
    }

    /// The position of the segment with the file name `name`.
    fn position(&self, name: &str) -> (r: Option<usize>)
        ensures
            match r {
                Some(i) => i < self.tables.len() && table_names(self.tables@)[i as int] == name@,
                None => !table_names(self.tables@).contains(name@),
            },
    {
        let mut i: usize = 0;
        while i < self.tables.len()
            invariant
                i <= self.tables.len(),
                forall|j: int| 0 <= j < i ==> table_names(self.tables@)[j] != name@,
            decreases self.tables.len() - i,
        {
            if same_key(self.tables[i].name.as_str(), name) {
                return Some(i);
            }
            i = i + 1;
        }
        None
    }

    /// The bytes `offset .. offset + length` of the file `name`, if the file
    /// exists and is that long.
    pub fn read(&self, name: &str, offset: usize, length: usize) -> (r: Option<Vec<u8>>)
        ensures
            r is Some <==> self.files().contains_key(name@) && offset + length
                <= self.files()[name@].len(),
            r matches Some(bytes) ==> bytes@ == self.files()[name@].subrange(
                offset as int,
                offset + length,
            ),
    {
        proof {
            use_type_invariant(self);
            lemma_valid_names_distinct(self.tables@, self.next_id);
        }
        match self.position(name) {
            None => None,
            Some(i) => {
                proof {
                    lemma_listing_at_distinct(
                        table_names(self.tables@),
                        table_datas(self.tables@),
                        i as int,
                    );
                }
                let data = &self.tables[i].data;
                if offset > data.len() || length > data.len() - offset {
                    None
                } else {
                    Some(slice_to_vec(slice_subrange(data.as_slice(), offset, offset + length)))
                }
            },
        }
    }

    /// The file names of the segments, in the order in which they were
    /// added. Each file has one name in the list.
    pub fn list(&self) -> (names: Vec<String>)
        ensures
            names@.map_values(|n: String| n@) == self.names(),
            self.names().no_duplicates(),
            forall|n: Seq<char>| self.names().contains(n) <==> self.files().contains_key(n),
    {
        proof {
            use_type_invariant(self);
            lemma_valid_names_distinct(self.tables@, self.next_id);
        }
        let mut names: Vec<String> = Vec::new();
        let mut i: usize = 0;
        while i < self.tables.len()
            invariant
                i <= self.tables.len(),
                names@.map_values(|n: String| n@) == table_names(self.tables@).take(i as int),
            decreases self.tables.len() - i,
        {
            let ghost before = names@.map_values(|n: String| n@);
            let name = self.tables[i].name.clone();
            names.push(name);
            assert(names@.map_values(|n: String| n@) == before.push(name@));
            assert(table_names(self.tables@).take(i + 1) == table_names(self.tables@).take(
                i as int,
            ).push(name@));
            i = i + 1;
        }
        assert(table_names(self.tables@).take(i as int) == table_names(self.tables@));
        names
    }

    /// The bytes of the file `name`, if the file exists.
    pub fn get(&self, name: &str) -> (r: Option<&Vec<u8>>)
        ensures
            match r {
                Some(data) => self.files().contains_key(name@) && data@ == self.files()[name@],
                None => !self.files().contains_key(name@),
            },
    {
        proof {
            use_type_invariant(self);
            lemma_valid_names_distinct(self.tables@, self.next_id);
        }
        match self.position(name) {
            None => None,
            Some(i) => {
                proof {
                    lemma_listing_at_distinct(
                        table_names(self.tables@),
                        table_datas(self.tables@),
                        i as int,
                    );
                }
                Some(&self.tables[i].data)
            },
        }
    }

    /// The level of the segment with the file name `name`, if there is one.
    pub fn level_of(&self, name: &str) -> (r: Option<usize>)
        ensures
            r == if self.levels().contains_key(name@) {
                Some(self.levels()[name@])
            } else {
                None
            },
            self.levels().contains_key(name@) == self.files().contains_key(name@),
    {
        proof {
            use_type_invariant(self);
            lemma_valid_names_distinct(self.tables@, self.next_id);
        }
        match self.position(name) {
            None => None,
            Some(i) => {
                proof {
                    lemma_listing_at_distinct(
                        table_names(self.tables@),
                        table_levels(self.tables@),
                        i as int,
                    );
                }
                Some(self.tables[i].level)
            },
        }
    }

    /// The number of segments at `level`.
    pub fn count(&self, level: usize) -> (n: usize)
        ensures
            n == self.count_at(level),
    {
        let mut n: usize = 0;
        let mut i: usize = 0;
        assert(self.tables@.take(0) == Seq::<SsTable>::empty());
        while i < self.tables.len()
            invariant
                i <= self.tables.len(),
                n <= i,
                n == count_level(self.tables@.take(i as int), level),
            decreases self.tables.len() - i,
        {
            assert(self.tables@.take(i + 1).drop_last() == self.tables@.take(i as int));
            if self.tables[i].level == level {
                n = n + 1;
            }
            i = i + 1;
        }
        assert(self.tables@.take(i as int) == self.tables@);
        n
    }

    /// Takes away every segment at `level` and leaves the others as they are.
    pub fn remove_level(&mut self, level: usize)
        ensures
            forall|name: Seq<char>|
                #![trigger final(self).files().contains_key(name)]
                final(self).files().contains_key(name) <==> old(self).files().contains_key(name)
                    && old(self).levels()[name] != level,
            forall|name: Seq<char>|
                #![trigger final(self).levels().contains_key(name)]
                final(self).levels().contains_key(name) <==> final(self).files().contains_key(name),
            forall|name: Seq<char>|
                #![trigger final(self).files()[name]]
                #![trigger final(self).levels()[name]]
                final(self).files().contains_key(name) ==> final(self).files()[name]
                    == old(self).files()[name] && final(self).levels()[name]
                    == old(self).levels()[name],
            final(self).count_at(level) == 0,
            forall|l: usize| l != level ==> final(self).count_at(l) == old(self).count_at(l),
            final(self).next_id() == old(self).next_id(),
    {
        proof {
            use_type_invariant(&*self);
        }
        let mut tables: Vec<SsTable> = Vec::new();
        std::mem::swap(&mut self.tables, &mut tables);
        let ghost all = tables@;
        let mut kept: Vec<SsTable> = Vec::new();
        assert(all.take(0) == Seq::<SsTable>::empty());
        for table in it: tables
            invariant
                it.seq() == all,
                kept@ == without_level(all.take(it.index() as int), level),
        {
            assert(all.take(it.index() + 1).drop_last() == all.take(it.index() as int));
            if table.level != level {
                kept.push(table);
            }
        }
        proof {
            assert(all.take(all.len() as int) == all);
            lemma_without_level(all, self.next_id, level);
            lemma_valid_names_distinct(all, self.next_id);
            lemma_valid_names_distinct(kept@, self.next_id);
            let names = table_names(all);
            let names2 = table_names(kept@);
            assert forall|name: Seq<char>|
                names2.contains(name) <==> names.contains(name) && listing_map(
                    names,
                    table_levels(all),
                )[name] != level by {
                if names2.contains(name) {
                    let p = names2.index_of(name);
                    assert(kept@.contains(kept@[p]));
                    let q = all.index_of(kept@[p]);
                    assert(names[q] == name);
                    lemma_listing_at_distinct(names, table_levels(all), q);
                }
                if names.contains(name) {
                    let q = names.index_of(name);
                    lemma_listing_at_distinct(names, table_levels(all), q);
                    if all[q].level != level {
                        assert(all.contains(all[q]));
                        let p = kept@.index_of(all[q]);
                        assert(names2[p] == name);
                    }
                }
            }
            assert forall|name: Seq<char>| names2.contains(name) implies listing_map(
                names2,
                table_datas(kept@),
            )[name] == listing_map(names, table_datas(all))[name] && listing_map(
                names2,
                table_levels(kept@),
            )[name] == listing_map(names, table_levels(all))[name] by {
                let p = names2.index_of(name);
                assert(kept@.contains(kept@[p]));
                let q = all.index_of(kept@[p]);
                assert(names[q] == name);
                lemma_listing_at_distinct(names, table_levels(all), q);
                lemma_listing_at_distinct(names, table_datas(all), q);
                lemma_listing_at_distinct(names2, table_levels(kept@), p);
                lemma_listing_at_distinct(names2, table_datas(kept@), p);
            }
        }
        self.tables = kept;
    }
}

} // verus!
