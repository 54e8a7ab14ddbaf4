//! The index over flushed segments: for each key, where its record lies.

use crate::sorted_map::{is_listing, listing_map, SortedMap};
use vstd::prelude::*;
use vstd::string::*;

verus! {

/// Where one record lies: the segment file, the offset of the record's first
/// byte in it, and the number of bytes of the record.
#[derive(Debug, PartialEq, Eq)]
pub struct Index {
    pub offset: usize,
    pub length: usize,
    pub file_name: String,
}

/// An `Index` in specifications.
pub struct Location {
    pub file_name: Seq<char>,
    pub offset: usize,
    pub length: usize,
}

impl View for Index {
    type V = Location;

    open spec fn view(&self) -> Location {
        Location { file_name: self.file_name@, offset: self.offset, length: self.length }
    }
}

/// The locations of all indexed keys.
pub struct Indexes {
    indexes: SortedMap<Index>,
}

impl Index {
    /// The location of `length` bytes at `offset` in the file `file_name`.
    pub fn from(offset: usize, length: usize, file_name: String) -> (index: Self)
        ensures
            index.offset == offset,
            index.length == length,
            index.file_name == file_name,
    {
        Self { offset, length, file_name }
    }
}

impl View for Indexes {
    type V = Map<Seq<char>, Location>;

    closed spec fn view(&self) -> Map<Seq<char>, Location> {
        self.indexes@.map_values(|index: Index| index@)
    }
}

impl Indexes {
    /// An index that holds no key: its map is empty, and so are its lists of
    /// keys and of locations.
    pub fn new() -> (indexes: Self)
        ensures
            indexes@ == Map::<Seq<char>, Location>::empty(),
            indexes.keys() == Seq::<Seq<char>>::empty(),
            indexes.locations() == Seq::<Location>::empty(),
    {
        let indexes = Self { indexes: SortedMap::new() };
        assert(indexes@ =~= Map::<Seq<char>, Location>::empty());
        assert(indexes.keys() =~= Seq::<Seq<char>>::empty());
        assert(indexes.locations() =~= Seq::<Location>::empty());
        indexes
    }

    /// The indexed keys, in ascending order.
    pub closed spec fn keys(&self) -> Seq<Seq<char>> {
        self.indexes.keys()
    }

    /// What the index holds for each key, at the position of the key.
    pub closed spec fn locations(&self) -> Seq<Location> {
        self.indexes.values().map_values(|index: Index| index@)
    }

    /// The number of indexed keys.
    pub fn len(&self) -> (n: usize)
        ensures
            n == self.keys().len(),
            n == self@.len(),
            is_listing(self.keys(), self.locations(), self@),
    {
        self.indexes.listing();
        proof {
            assert(self@.dom() =~= self.indexes@.dom());
            assert(listing_map(self.keys(), self.locations()) =~= listing_map(
                self.indexes.keys(),
                self.indexes.values(),
            ).map_values(|index: Index| index@));
        }
        self.indexes.len()
    }

    /// The key at position `i` of the ascending order, with what the index
    /// holds for it, if the index has that many keys.
    pub fn entry_at(&self, i: usize) -> (r: Option<(&String, &Index)>)
        ensures
            match r {
                Some((key, index)) => i < self.keys().len() && key@ == self.keys()[i as int]
                    && index@ == self.locations()[i as int],
                None => i >= self.keys().len(),
            },
    {
        self.indexes.entry_at(i)
    }

    /// Records where the record of `key` lies, in place of what was recorded
    /// for it before, and leaves every other key as it was.
    pub fn create_index(&mut self, key: String, offset: usize, length: usize, file_name: String)
        ensures
            final(self)@ == old(self)@.insert(
                key@,
                Location { file_name: file_name@, offset, length },
            ),
    {
        let index = Index::from(offset, length, file_name);
        let ghost before = self.indexes@;
        let ghost view = |index: Index| index@;
        assert(before.insert(key@, index).map_values(view) =~= before.map_values(view).insert(
            key@,
            index@,
        ));
        self.indexes.insert(key, index);
    }

    /// The segment file that holds the record of `key`, if the key is indexed.
    pub fn get_file(&self, key: &String) -> (r: Option<String>)
        ensures
            match r {
                Some(name) => self@.contains_key(key@) && name@ == self@[key@].file_name,
                None => !self@.contains_key(key@),
            },
    {
        match self.indexes.get(key.as_str()) {
            Some(v) => Some(v.file_name.clone()),
            None => None,
        }
    }

    /// The offset of the record of `key` in its segment file, if the key is
    /// indexed.
    pub fn get_offset(&self, key: &String) -> (r: Option<usize>)
        ensures
            r == if self@.contains_key(key@) {
                Some(self@[key@].offset)
            } else {
                None
            },
    {
        match self.indexes.get(key.as_str()) {
            Some(v) => Some(v.offset),
            None => None,
        }
    }

    /// The number of bytes of the record of `key`, if the key is indexed.
    pub fn get_len(&self, key: &String) -> (r: Option<usize>)
        ensures
            r == if self@.contains_key(key@) {
                Some(self@[key@].length)
            } else {
                None
            },
    {
        match self.indexes.get(key.as_str()) {
            Some(v) => Some(v.length),
            None => None,
        }
    }
}

} // verus!
