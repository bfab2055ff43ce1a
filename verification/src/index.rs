//! The index: for every live key, where its latest record stands.
//!
//! Beside the map the index keeps a journal of keys, so that the live keys can
//! be walked.  The journal names every key of the map; it may also name keys
//! that were removed since, and a key more than once.

use vstd::prelude::*;
use vstd::hash_map::StringHashMap;
use crate::error::{Error, ErrorView};
use crate::record::{record_of, Record, RecordView};
use crate::storages::{RecordVisitor, ValuePosition};

verus! {

/// The positions of keys.
pub type Positions = Map<Seq<char>, ValuePosition>;

/// What an index holds: the map from keys to positions, and the journal of
/// keys in the order in which they were first entered.
pub struct IndexView {
    pub map: Positions,
    pub journal: Seq<Seq<char>>,
}

impl IndexView {
    /// The index without keys.
    pub open spec fn empty() -> IndexView {
        IndexView { map: Map::empty(), journal: Seq::empty() }
    }

    /// The index with `key` at `position`.  A key that the map does not hold
    /// is added to the journal.
    pub open spec fn insert(self, key: Seq<char>, position: ValuePosition) -> IndexView {
        IndexView {
            map: self.map.insert(key, position),
            journal: if self.map.contains_key(key) {
                self.journal
            } else {
                self.journal.push(key)
            },
        }
    }

    /// The index without `key`.  The journal stays as it is.
    pub open spec fn remove(self, key: Seq<char>) -> IndexView {
        IndexView { map: self.map.remove(key), journal: self.journal }
    }

    /// The map is finite and the journal names every key of it.
    pub open spec fn wf(self) -> bool {
        &&& self.map.dom().finite()
        &&& forall|key: Seq<char>| #[trigger]
            self.map.contains_key(key) ==> self.journal.contains(key)
    }
}

/// What one record does to the index: a `Put` record enters its key with the
/// record's position, a `Remove` record erases its key, and a payload that is
/// no record is refused with `Serde`.
pub open spec fn index_step(index: IndexView, payload: Seq<u8>, position: ValuePosition) -> Result<
    IndexView,
    ErrorView,
> {
    match record_of(payload) {
        Some(RecordView::Put(key, _)) => Ok(index.insert(key, position)),
        Some(RecordView::Remove(key)) => Ok(index.remove(key)),
        None => Err(ErrorView::Serde),
    }
}

/// The views of the strings of `keys`.
pub open spec fn names(keys: Seq<String>) -> Seq<Seq<char>> {
    Seq::new(keys.len(), |i: int| keys[i]@)
}

/// The index.
pub struct Index {
    map: StringHashMap<ValuePosition>,
    keys: Vec<String>,
}

impl View for Index {
    type V = IndexView;

    closed spec fn view(&self) -> IndexView {
        IndexView { map: self.map@, journal: names(self.keys@) }
    }
}

impl Index {
    /// The map is finite and the journal names every key of it.
    pub open spec fn wf(&self) -> bool {
        self@.wf()
    }

    /// An index without keys.
    pub fn new() -> (index: Index)
        ensures
            index.wf(),
            index@ == IndexView::empty(),
    {
        let index = Index { map: StringHashMap::new(), keys: Vec::new() };
        assert(index@.journal =~= Seq::<Seq<char>>::empty());
        index
    }

    /// The position that the index holds for `key`, if any.
    pub fn get(&self, key: &str) -> (position: Option<ValuePosition>)
        ensures
            position == if self@.map.contains_key(key@) {
                Some(self@.map[key@])
            } else {
                None
            },
    {
        match self.map.get(key) {
            Some(position) => Some(*position),
            None => None,
        }
    }

    /// Whether the index holds `key`.
    pub fn contains_key(&self, key: &str) -> (held: bool)
        ensures
            held == self@.map.contains_key(key@),
    {
        self.map.contains_key(key)
    }

    /// The number of keys.
    pub fn len(&self) -> (n: usize)
        ensures
            n == self@.map.dom().len(),
    {
        self.map.len()
    }

    /// Enters `key` with `position`, in place of the position it had.
    pub fn insert(&mut self, key: String, position: ValuePosition)
        requires
            old(self).wf(),
        ensures
            final(self).wf(),
            final(self)@ == old(self)@.insert(key@, position),
    {
        if !self.map.contains_key(key.as_str()) {
            let name = key.clone();
            self.keys.push(name);
            assert(self@.journal =~= old(self)@.journal.push(key@));
            assert(self@.journal[old(self)@.journal.len() as int] == key@);
        }
        self.map.insert(key, position);
        assert forall|other: Seq<char>| #[trigger] self@.map.contains_key(other) implies self@.journal.contains(
            other,
        ) by {
            if other != key@ {
                assert(old(self)@.map.contains_key(other));
                let i = choose|i: int|
                    0 <= i < old(self)@.journal.len() && old(self)@.journal[i] == other;
                assert(self@.journal[i] == other);
            }
        }
    }

    /// Erases `key`.
    pub fn remove(&mut self, key: &str)
        requires
            old(self).wf(),
        ensures
            final(self).wf(),
            final(self)@ == old(self)@.remove(key@),
    {
        self.map.remove(key);
    }

    /// The journal: every key of the index stands in it.
    pub fn keys(&self) -> (keys: &Vec<String>)
        ensures
            names(keys@) == self@.journal,
    {
        &self.keys
    }
}

impl RecordVisitor for Index {
    type State = IndexView;

    open spec fn inv(&self) -> bool {
        self.wf()
    }

    open spec fn state(&self) -> IndexView {
        self@
    }

    open spec fn step(state: IndexView, payload: Seq<u8>, position: ValuePosition) -> Result<
        IndexView,
        ErrorView,
    > {
        index_step(state, payload, position)
    }

    /// Reads the record and enters or erases its key.
    fn visit(&mut self, payload: &[u8], position: ValuePosition) -> (r: Result<(), Error>) {
        match Record::decode(payload) {
            Ok(Record::Put(key, _)) => {
                self.insert(key, position);
                Ok(())
            },
            Ok(Record::Remove(key)) => {
                self.remove(key.as_str());
                Ok(())
            },
            Err(e) => Err(e),
        }
    }
}

} // verus!
