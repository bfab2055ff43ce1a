//! The store: keys and values over the segment log and the index.
//!
//! Every `set` and `remove` appends one record to the log and brings the index
//! up to date, so that the index is always what a replay of the log gives.
//! When the last segment has grown to the threshold, the live records are
//! copied to a fresh log, which takes the place of the old one.

use vstd::prelude::*;
use crate::error::{Error, ErrorView};
use crate::index::{index_step, names, Index, IndexView, Positions};
use crate::record::{reads_back, record_of, record_text, Record, RecordView};
use crate::storages::{
    appended,
    bytes_of,
    count_after,
    framed,
    holds_record,
    lemma_log_appended,
    lemma_record_appended,
    lemma_record_kept,
    lemma_records_fit,
    lemma_replay_log_appended,
    length_at,
    log_total,
    next_position,
    next_record,
    opened,
    payload_at,
    payload_of,
    record_total,
    records_from,
    replay_log,
    replay_segment,
    sized,
    well_framed,
    Storage,
    ValuePosition,
    MAX_RECORDS_COUNT_PER_FILE,
};

verus! {

/// What is added to twice the record count to get the compaction threshold.
pub const COMPACT_MARGIN: usize = 371;

/// The keys and values of a store.
pub type Contents = Map<Seq<char>, Seq<char>>;

/// The index that a replay of the segments gives, or the error that ends it.
pub open spec fn replayed(segments: Seq<Seq<u8>>) -> Result<IndexView, ErrorView> {
    replay_log::<Index>(IndexView::empty(), segments, 0)
}

/// The value of the `Put` record at `position`, if one stands there.
pub open spec fn value_at(segments: Seq<Seq<u8>>, position: ValuePosition) -> Option<Seq<char>> {
    match record_of(payload_of(segments, position)) {
        Some(RecordView::Put(_, value)) => Some(value),
        _ => None,
    }
}

/// Whether `position` names a record of the segments that is a `Put` of `key`.
pub open spec fn points_at(segments: Seq<Seq<u8>>, key: Seq<char>, position: ValuePosition) -> bool {
    &&& holds_record(segments, position)
    &&& match record_of(payload_of(segments, position)) {
        Some(RecordView::Put(name, _)) => name == key,
        _ => false,
    }
}

/// Whether every key of the index is held with the position of a `Put` record
/// of that key.
pub open spec fn sound(segments: Seq<Seq<u8>>, index: Positions) -> bool {
    forall|key: Seq<char>| #[trigger] index.contains_key(key) ==> points_at(segments, key, index[key])
}

/// The keys of the index, each with the value of the record that the index
/// holds for it.
pub open spec fn contents(segments: Seq<Seq<u8>>, index: Positions) -> Contents {
    Map::new(
        |key: Seq<char>| index.contains_key(key),
        |key: Seq<char>|
            match value_at(segments, index[key]) {
                Some(value) => value,
                None => Seq::<char>::empty(),
            },
    )
}

/// The keys and values that a replay of the segments gives, where it ends
/// without an error.
pub open spec fn live(segments: Seq<Seq<u8>>) -> Option<Contents> {
    match replayed(segments) {
        Ok(index) => Some(contents(segments, index.map)),
        Err(_) => None,
    }
}

/// The fresh log and its index after the record of `key` was copied to
/// them: where the key is live and was not copied yet, its payload is
/// appended and its key entered; otherwise nothing changes.
pub open spec fn copy_step(
    segments: Seq<Seq<u8>>,
    index: Positions,
    key: Seq<char>,
    fresh: Seq<Seq<u8>>,
    entries: IndexView,
) -> (Seq<Seq<u8>>, IndexView) {
    if index.contains_key(key) && !entries.map.contains_key(key) {
        let payload = payload_of(segments, index[key]);
        (appended(fresh, payload), entries.insert(key, next_position(fresh, payload.len())))
    } else {
        (fresh, entries)
    }
}

/// The fresh log and its index after the records of the first `upto` keys of
/// the journal were copied, one after the other, starting from one empty
/// segment and the empty index.
pub open spec fn copied(segments: Seq<Seq<u8>>, index: IndexView, upto: int) -> (
    Seq<Seq<u8>>,
    IndexView,
)
    decreases upto,
{
    if upto <= 0 {
        (seq![Seq::<u8>::empty()], IndexView::empty())
    } else {
        let (fresh, entries) = copied(segments, index, upto - 1);
        copy_step(segments, index.map, index.journal[upto - 1], fresh, entries)
    }
}

/// The log and the index that compaction gives: the records of the live
/// keys, each once, in the order of the journal.
pub open spec fn compaction(segments: Seq<Seq<u8>>, index: IndexView) -> (
    Seq<Seq<u8>>,
    IndexView,
) {
    copied(segments, index, index.journal.len() as int)
}

/// Whether `fresh` with the index `copied` is a log of copies: `copied` is
/// what a replay of `fresh` gives, every key of it is a key of `index` with
/// the same payload in both logs, and `fresh` holds no other record.
pub open spec fn carried(
    segments: Seq<Seq<u8>>,
    index: Positions,
    fresh: Seq<Seq<u8>>,
    copied: IndexView,
) -> bool {
    &&& replayed(fresh) == Ok::<IndexView, ErrorView>(copied)
    &&& copied.map.dom().finite()
    &&& log_total(fresh) == copied.map.dom().len()
    &&& forall|key: Seq<char>| #[trigger]
        copied.map.contains_key(key) ==> index.contains_key(key) && holds_record(
            fresh,
            copied.map[key],
        ) && payload_of(fresh, copied.map[key]) == payload_of(segments, index[key])
}

/// Copying the record of one more key keeps a log of copies.
pub proof fn lemma_copy_step(
    segments: Seq<Seq<u8>>,
    index: Positions,
    fresh: Seq<Seq<u8>>,
    copied: IndexView,
    key: Seq<char>,
    payload: Seq<u8>,
)
    requires
        fresh.len() >= 1,
        sized(fresh),
        well_framed(fresh),
        carried(segments, index, fresh, copied),
        index.contains_key(key),
        !copied.map.contains_key(key),
        points_at(segments, key, index[key]),
        payload == payload_of(segments, index[key]),
        payload.len() <= usize::MAX,
    ensures
        carried(
            segments,
            index,
            appended(fresh, payload),
            copied.insert(key, next_position(fresh, payload.len())),
        ),
{
    let position = next_position(fresh, payload.len());
    let after = appended(fresh, payload);
    let entries = copied.insert(key, position);
    let value = value_at(segments, index[key]).unwrap();
    lemma_put_appended(fresh, copied, payload, key, value);
    lemma_log_appended(fresh, payload);
    lemma_new_record(fresh, payload);
    assert forall|other: Seq<char>| #[trigger]
        entries.map.contains_key(other) implies index.contains_key(other) && holds_record(
        after,
        entries.map[other],
    ) && payload_of(after, entries.map[other]) == payload_of(segments, index[other]) by {
        if other != key {
            lemma_append_keeps(fresh, payload, copied.map[other]);
        }
    }
}

/// What `set` returns: `InvalidKey` for the empty key, `Serde` for a record
/// that does not read back from its text, and `Ok` otherwise.
pub open spec fn set_outcome(key: Seq<char>, value: Seq<char>) -> Result<(), ErrorView> {
    if key.len() == 0 {
        Err(ErrorView::InvalidKey(key))
    } else if !reads_back(RecordView::Put(key, value)) {
        Err(ErrorView::Serde)
    } else {
        Ok(())
    }
}

/// The contents after `set`: the key has the value where `set` returns `Ok`,
/// and nothing has changed where it fails.
pub open spec fn after_set(contents: Contents, key: Seq<char>, value: Seq<char>) -> Contents {
    if set_outcome(key, value) is Ok {
        contents.insert(key, value)
    } else {
        contents
    }
}

/// What `get` returns: `InvalidKey` for the empty key, and otherwise the
/// value of the key, or `None` where it has none.
pub open spec fn get_outcome(contents: Contents, key: Seq<char>) -> Result<
    Option<Seq<char>>,
    ErrorView,
> {
    if key.len() == 0 {
        Err(ErrorView::InvalidKey(key))
    } else if contents.contains_key(key) {
        Ok(Some(contents[key]))
    } else {
        Ok(None)
    }
}

/// What `remove` returns: `InvalidKey` for the empty key, `KeyNotFound` for a
/// key without a value, `Serde` for a record that does not read back from its
/// text, and `Ok` otherwise.
pub open spec fn remove_outcome(contents: Contents, key: Seq<char>) -> Result<(), ErrorView> {
    if key.len() == 0 {
        Err(ErrorView::InvalidKey(key))
    } else if !contents.contains_key(key) {
        Err(ErrorView::KeyNotFound(key))
    } else if !reads_back(RecordView::Remove(key)) {
        Err(ErrorView::Serde)
    } else {
        Ok(())
    }
}

/// The contents after `remove`: the key has no value where `remove` returns
/// `Ok`, and nothing has changed where it fails.
pub open spec fn after_remove(contents: Contents, key: Seq<char>) -> Contents {
    if remove_outcome(contents, key) is Ok {
        contents.remove(key)
    } else {
        contents
    }
}

/// A result without a value, with the error by its view.
pub open spec fn done(r: Result<(), Error>) -> Result<(), ErrorView> {
    match r {
        Ok(()) => Ok(()),
        Err(e) => Err(e@),
    }
}

/// A result with an optional string, the string and the error by their views.
pub open spec fn found(r: Result<Option<String>, Error>) -> Result<Option<Seq<char>>, ErrorView> {
    match r {
        Ok(Some(value)) => Ok(Some(value@)),
        Ok(None) => Ok(None),
        Err(e) => Err(e@),
    }
}

/// The threshold that belongs to a last segment of `count` records.
pub open spec fn threshold_for(count: nat) -> nat {
    2 * count + COMPACT_MARGIN as nat
}

/// The key-value store.
pub struct KvStore {
    storage: Storage,
    index: Index,
    compact_record_count: usize,
}

impl View for KvStore {
    type V = Contents;

    /// The keys of the store, each with its value.
    open spec fn view(&self) -> Contents {
        contents(self.log(), self.index().map)
    }
}

impl KvStore {
    /// The bytes of the segments of the log.
    pub closed spec fn log(&self) -> Seq<Seq<u8>> {
        self.storage@
    }

    /// The index.
    pub closed spec fn index(&self) -> IndexView {
        self.index@
    }

    /// The number of records that the log counts for its last segment.
    pub closed spec fn count(&self) -> nat {
        self.storage.count()
    }

    /// The count from which on the store compacts.
    pub closed spec fn threshold(&self) -> nat {
        self.compact_record_count as nat
    }

    /// The log is well formed and counts the records of its last segment, and
    /// the index is what a replay of the log gives.
    pub open spec fn wf(&self) -> bool {
        &&& self.log().len() >= 1
        &&& sized(self.log())
        &&& well_framed(self.log())
        &&& self.count() == record_total(self.log().last())
        &&& self.index().wf()
        &&& replayed(self.log()) == Ok::<IndexView, ErrorView>(self.index())
    }

    /// Whether the log holds one record for each key and nothing else, and the
    /// threshold is the one for its count.
    pub open spec fn compacted(&self) -> bool {
        &&& log_total(self.log()) == self.index().map.dom().len()
        &&& self.threshold() == threshold_for(self.count())
    }

    /// How the store stands after `payload` was appended to the log of
    /// `before` and the index became `index`: where the count has reached the
    /// threshold, log and index are what compaction gives, with the same
    /// keys and contents, one record for each key, and the threshold for the
    /// new count; otherwise log and index are the ones after the append,
    /// under the old threshold.
    pub open spec fn follows(&self, before: &KvStore, payload: Seq<u8>, index: IndexView) -> bool {
        let log = appended(before.log(), payload);
        if count_after(before.count()) >= before.threshold() {
            &&& self.log() == compaction(log, index).0
            &&& self.index() == compaction(log, index).1
            &&& self.compacted()
            &&& self.index().map.dom() == index.map.dom()
            &&& self@ == contents(log, index.map)
        } else {
            &&& self.log() == log
            &&& self.index() == index
            &&& self.threshold() == before.threshold()
        }
    }

    /// Opens a store over the given segments, or over one empty segment where
    /// none is given.  The index is rebuilt by a replay of the log, and the
    /// threshold is set for the count of the last segment.
    ///
    /// Fails with the error that ends the replay: `ParseLengthError` where a
    /// segment ends inside a record, `Serde` where a payload is no record.
    pub fn open(segments: Vec<Vec<u8>>) -> (r: Result<KvStore, Error>)
        ensures
            match replayed(opened(bytes_of(segments@))) {
                Ok(index) => r matches Ok(store) && store.wf() && store.log() == opened(
                    bytes_of(segments@),
                ) && store.index() == index && store.threshold() == threshold_for(store.count())
                    && Some(store@) == live(opened(bytes_of(segments@))),
                Err(e) => r matches Err(x) && x@ == e,
            },
    {
        let (storage, index) = match Storage::init(segments, Index::new()) {
            Ok(pair) => pair,
            Err(e) => {
                return Err(e);
            },
        };
        proof {
            lemma_records_fit(storage@.last(), 0);
        }
        let compact_record_count = threshold_of(&storage);
        Ok(KvStore { storage, index, compact_record_count })
    }

    /// Sets the value of `key`, whether the key had a value or not.
    ///
    /// Fails with `InvalidKey` where the key is empty, and with `Serde` where
    /// the record does not read back from its text; neither touches the
    /// store.
    pub fn set(&mut self, key: String, value: String) -> (r: Result<(), Error>)
        requires
            old(self).wf(),
        ensures
            final(self).wf(),
            done(r) == set_outcome(key@, value@),
            final(self)@ == after_set(old(self)@, key@, value@),
            r is Err ==> *final(self) == *old(self),
            r is Ok ==> {
                let text = record_text(RecordView::Put(key@, value@)).unwrap();
                final(self).follows(
                    old(self),
                    text,
                    old(self).index().insert(key@, next_position(old(self).log(), text.len())),
                )
            },
    {
        if key.as_str().is_empty() {
            return Err(Error::InvalidKey(key));
        }
        let name = key.clone();
        let record = Record::Put(key, value);
        let bytes = match record.encode() {
            Ok(bytes) => bytes,
            Err(e) => {
                return Err(e);
            },
        };
        proof {
            lemma_put_appended(self.log(), self.index(), bytes@, key@, value@);
        }
        let position = self.storage.write_record(bytes.as_slice());
        self.index.insert(name, position);
        self.settle();
        Ok(())
    }

    /// The value of `key`, or `None` where the key has none.
    ///
    /// Fails with `InvalidKey` where the key is empty.
    pub fn get(&mut self, key: String) -> (r: Result<Option<String>, Error>)
        requires
            old(self).wf(),
        ensures
            *final(self) == *old(self),
            found(r) == get_outcome(old(self)@, key@),
    {
        if key.as_str().is_empty() {
            return Err(Error::InvalidKey(key));
        }
        let position = match self.index.get(key.as_str()) {
            Some(position) => position,
            None => {
                return Ok(None);
            },
        };
        proof {
            lemma_replayed_sound(self.log());
            assert(self.index().map.contains_key(key@));
            assert(points_at(self.log(), key@, position));
        }
        let bytes = match self.storage.read_record(&position) {
            Ok(bytes) => bytes,
            Err(e) => {
                return Err(e);
            },
        };
        assert(bytes@ == payload_of(self.log(), position));
        match Record::decode(bytes.as_slice()) {
            Ok(Record::Put(_, value)) => Ok(Some(value)),
            Ok(Record::Remove(_)) => Ok(None),
            Err(e) => Err(e),
        }
    }

    /// Takes the value of `key` away.
    ///
    /// Fails with `InvalidKey` where the key is empty, with `KeyNotFound`
    /// where the key has no value, and with `Serde` where the record does not
    /// read back from its text; none of them touches the store.
    pub fn remove(&mut self, key: String) -> (r: Result<(), Error>)
        requires
            old(self).wf(),
        ensures
            final(self).wf(),
            done(r) == remove_outcome(old(self)@, key@),
            final(self)@ == after_remove(old(self)@, key@),
            r is Err ==> *final(self) == *old(self),
            r is Ok ==> {
                let text = record_text(RecordView::Remove(key@)).unwrap();
                final(self).follows(old(self), text, old(self).index().remove(key@))
            },
    {
        if key.as_str().is_empty() {
            return Err(Error::InvalidKey(key));
        }
        if !self.index.contains_key(key.as_str()) {
            return Err(Error::KeyNotFound(key));
        }
        let record = Record::Remove(key);
        let bytes = match record.encode() {
            Ok(bytes) => bytes,
            Err(e) => {
                return Err(e);
            },
        };
        proof {
            lemma_remove_appended(self.log(), self.index(), bytes@, key@);
        }
        self.storage.write_record(bytes.as_slice());
        self.index.remove(record.key().as_str());
        self.settle();
        Ok(())
    }

    /// Compacts the store where the count has reached the threshold.
    fn settle(&mut self)
        requires
            old(self).wf(),
        ensures
            final(self).wf(),
            final(self)@ == old(self)@,
            if old(self).count() >= old(self).threshold() {
                &&& final(self).log() == compaction(old(self).log(), old(self).index()).0
                &&& final(self).index() == compaction(old(self).log(), old(self).index()).1
                &&& final(self).compacted()
                &&& final(self).index().map.dom() == old(self).index().map.dom()
            } else {
                *final(self) == *old(self)
            },
    {
        if self.storage.record_count() >= self.compact_record_count {
            self.compact();
        }
    }

    /// Copies the record of every key to a fresh log, in the order of the
    /// journal, and puts that log and its index in the place of the old ones.
    /// The contents stay as they are; the log then holds one record for each
    /// key, and the threshold is set for its count.
    pub fn compact(&mut self)
        requires
            old(self).wf(),
        ensures
            final(self).wf(),
            final(self).log() == compaction(old(self).log(), old(self).index()).0,
            final(self).index() == compaction(old(self).log(), old(self).index()).1,
            final(self).compacted(),
            final(self).index().map.dom() == old(self).index().map.dom(),
            final(self)@ == old(self)@,
    {
        proof {
            lemma_empty_log();
            lemma_replayed_sound(self.log());
        }
        // One empty segment replays without an error.
        let (mut storage, mut index) = match Storage::init(Vec::new(), Index::new()) {
            Ok(pair) => pair,
            Err(_) => {
                return ;
            },
        };
        let keys = self.index.keys();
        let mut i: usize = 0;
        while i < keys.len()
            invariant
                i <= keys@.len(),
                self.wf(),
                names(keys@) == self.index().journal,
                storage.wf(),
                index.wf(),
                carried(self.log(), self.index().map, storage@, index@),
                (storage@, index@) == copied(self.log(), self.index(), i as int),
                forall|j: int|
                    0 <= j < i && self.index().map.contains_key(#[trigger] names(keys@)[j])
                        ==> index@.map.contains_key(names(keys@)[j]),
            decreases keys@.len() - i,
        {
            assert(names(keys@)[i as int] == keys@[i as int]@);
            self.copy_live(&keys[i], &mut storage, &mut index);
            i = i + 1;
        }
        proof {
            assert forall|key: Seq<char>|
                self.index().map.contains_key(key) implies index@.map.contains_key(key) by {
                assert(self.index().journal.contains(key));
                let j = choose|j: int|
                    0 <= j < self.index().journal.len() && self.index().journal[j] == key;
                assert(names(keys@)[j] == key);
            }
            assert(index@.map.dom() =~= self.index().map.dom());
            assert(contents(storage@, index@.map) =~= contents(self.log(), self.index().map));
            lemma_records_fit(storage@.last(), 0);
        }
        let compact_record_count = threshold_of(&storage);
        self.storage.replace(storage);
        self.index = index;
        self.compact_record_count = compact_record_count;
    }

    /// Copies the record of `key` to the fresh log, where the key is live and
    /// was not copied yet.
    fn copy_live(&self, key: &String, storage: &mut Storage, index: &mut Index)
        requires
            self.wf(),
            old(storage).wf(),
            old(index).wf(),
            carried(self.log(), self.index().map, old(storage)@, old(index)@),
        ensures
            final(storage).wf(),
            final(index).wf(),
            carried(self.log(), self.index().map, final(storage)@, final(index)@),
            (final(storage)@, final(index)@) == copy_step(
                self.log(),
                self.index().map,
                key@,
                old(storage)@,
                old(index)@,
            ),
            self.index().map.contains_key(key@) ==> final(index)@.map.contains_key(key@),
            forall|other: Seq<char>| #[trigger]
                old(index)@.map.contains_key(other) ==> final(index)@.map.contains_key(other),
    {
        let position = match self.index.get(key.as_str()) {
            Some(position) => position,
            None => {
                return ;
            },
        };
        if index.contains_key(key.as_str()) {
            return ;
        }
        proof {
            lemma_replayed_sound(self.log());
            assert(points_at(self.log(), key@, position));
        }
        match self.storage.read_record(&position) {
            Ok(bytes) => {
                proof {
                    lemma_copy_step(self.log(), self.index().map, storage@, index@, key@, bytes@);
                }
                let copied = storage.write_record(bytes.as_slice());
                index.insert(key.clone(), copied);
            },
            Err(_) => {},
        }
    }

    /// Whether the next record that is appended brings the count to the
    /// threshold, so that the `set` or `remove` that appends it compacts.
    pub fn compaction_due(&self) -> (due: bool)
        ensures
            due == (count_after(self.count()) >= self.threshold()),
    {
        let count: usize = self.storage.record_count();
        let next: usize = if count >= MAX_RECORDS_COUNT_PER_FILE - 1 {
            0
        } else {
            count + 1
        };
        next >= self.compact_record_count
    }

    /// The count from which on the store compacts.
    pub fn compact_record_count(&self) -> (n: usize)
        ensures
            n == self.threshold(),
    {
        self.compact_record_count
    }

    /// The number of records in the last segment of the log.
    pub fn record_count(&self) -> (n: usize)
        ensures
            n == self.count(),
    {
        self.storage.record_count()
    }

    /// The bytes of the segments of the log, in order.
    pub fn segments(&self) -> (segments: &Vec<Vec<u8>>)
        ensures
            bytes_of(segments@) == self.log(),
    {
        let segments = self.storage.segments();
        assert(bytes_of(segments@) =~= self.log());
        segments
    }
}

/// The threshold for the count of `storage`.
fn threshold_of(storage: &Storage) -> (n: usize)
    requires
        storage.wf(),
        8 * storage.count() <= usize::MAX,
    ensures
        n == threshold_for(storage.count()),
{
    storage.record_count() * 2 + COMPACT_MARGIN
}

/// The log of one empty segment replays to the empty index.
pub proof fn lemma_empty_log()
    ensures
        opened(bytes_of(Seq::<Vec<u8>>::empty())) == seq![Seq::<u8>::empty()],
        replayed(seq![Seq::<u8>::empty()]) == Ok::<IndexView, ErrorView>(IndexView::empty()),
        log_total(seq![Seq::<u8>::empty()]) == 0,
{
    let log = seq![Seq::<u8>::empty()];
    assert(bytes_of(Seq::<Vec<u8>>::empty()).len() == 0);
    assert(replay_segment::<Index>(IndexView::empty(), log[0], 0, 0) == Ok::<IndexView, ErrorView>(
        IndexView::empty(),
    ));
    assert(replay_log::<Index>(IndexView::empty(), log, 1) == Ok::<IndexView, ErrorView>(
        IndexView::empty(),
    ));
    assert(log.drop_last() =~= Seq::<Seq<u8>>::empty());
    assert(log_total(log.drop_last()) == 0);
    assert(records_from(Seq::<u8>::empty(), 0) == Some(0nat));
}

/// A replay of one segment keeps the index sound.
pub proof fn lemma_replay_segment_sound(
    state: IndexView,
    segments: Seq<Seq<u8>>,
    file: usize,
    cursor: int,
)
    requires
        file < segments.len(),
        sized(segments),
        sound(segments, state.map),
        replay_segment::<Index>(state, segments[file as int], file, cursor) is Ok,
    ensures
        sound(
            segments,
            replay_segment::<Index>(state, segments[file as int], file, cursor)->Ok_0.map,
        ),
    decreases segments[file as int].len() - cursor,
{
    let bytes = segments[file as int];
    if cursor != bytes.len() {
        let position = ValuePosition {
            file,
            offset: cursor as u64,
            length: length_at(bytes, cursor) as usize,
        };
        match index_step(state, payload_at(bytes, cursor), position) {
            Ok(next) => {
                assert(holds_record(segments, position));
                assert(payload_of(segments, position) == payload_at(bytes, cursor));
                assert(sound(segments, next.map));
                lemma_replay_segment_sound(next, segments, file, next_record(bytes, cursor));
            },
            Err(_) => {},
        }
    }
}

/// A replay of the segments from `from` on keeps the index sound.
pub proof fn lemma_replay_log_sound(state: IndexView, segments: Seq<Seq<u8>>, from: int)
    requires
        0 <= from,
        sized(segments),
        sound(segments, state.map),
        replay_log::<Index>(state, segments, from) is Ok,
    ensures
        sound(segments, replay_log::<Index>(state, segments, from)->Ok_0.map),
    decreases segments.len() - from,
{
    if from < segments.len() {
        match replay_segment::<Index>(state, segments[from], from as usize, 0) {
            Ok(next) => {
                lemma_replay_segment_sound(state, segments, from as usize, 0);
                lemma_replay_log_sound(next, segments, from + 1);
            },
            Err(_) => {},
        }
    }
}

/// The index that a replay gives holds every key with the position of a `Put`
/// record of that key.
pub proof fn lemma_replayed_sound(segments: Seq<Seq<u8>>)
    requires
        sized(segments),
        replayed(segments) is Ok,
    ensures
        sound(segments, replayed(segments)->Ok_0.map),
{
    lemma_replay_log_sound(IndexView::empty(), segments, 0);
}

/// A record of the segments is the same record after an append.
pub proof fn lemma_append_keeps(
    segments: Seq<Seq<u8>>,
    payload: Seq<u8>,
    position: ValuePosition,
)
    requires
        segments.len() >= 1,
        holds_record(segments, position),
    ensures
        holds_record(appended(segments, payload), position),
        payload_of(appended(segments, payload), position) == payload_of(segments, position),
{
    let last = segments.len() - 1;
    if position.file == last {
        lemma_record_kept(segments[last], framed(payload), position.offset as int);
    } else {
        assert(appended(segments, payload)[position.file as int] == segments[position.file as int]);
    }
}

/// Appending a `Put` record and entering its key gives the contents with the
/// key set to the record's value.
pub proof fn lemma_put_appended(
    segments: Seq<Seq<u8>>,
    index: IndexView,
    payload: Seq<u8>,
    key: Seq<char>,
    value: Seq<char>,
)
    requires
        segments.len() >= 1,
        sized(segments),
        well_framed(segments),
        replayed(segments) == Ok::<IndexView, ErrorView>(index),
        payload.len() <= usize::MAX,
        record_of(payload) == Some(RecordView::Put(key, value)),
    ensures
        replayed(appended(segments, payload)) == Ok::<IndexView, ErrorView>(
            index.insert(key, next_position(segments, payload.len())),
        ),
        contents(
            appended(segments, payload),
            index.insert(key, next_position(segments, payload.len())).map,
        ) == contents(segments, index.map).insert(key, value),
{
    let position = next_position(segments, payload.len());
    let after = appended(segments, payload);
    lemma_replay_log_appended::<Index>(IndexView::empty(), segments, 0, payload);
    lemma_replayed_sound(segments);
    lemma_new_record(segments, payload);
    assert forall|other: Seq<char>| #[trigger] index.map.contains_key(other) implies value_at(
        after,
        index.map[other],
    ) == value_at(segments, index.map[other]) by {
        lemma_append_keeps(segments, payload, index.map[other]);
    }
    assert(contents(after, index.insert(key, position).map) =~= contents(
        segments,
        index.map,
    ).insert(key, value));
}

/// Appending a `Remove` record and erasing its key gives the contents without
/// the key.
pub proof fn lemma_remove_appended(
    segments: Seq<Seq<u8>>,
    index: IndexView,
    payload: Seq<u8>,
    key: Seq<char>,
)
    requires
        segments.len() >= 1,
        sized(segments),
        well_framed(segments),
        replayed(segments) == Ok::<IndexView, ErrorView>(index),
        payload.len() <= usize::MAX,
        record_of(payload) == Some(RecordView::Remove(key)),
    ensures
        replayed(appended(segments, payload)) == Ok::<IndexView, ErrorView>(index.remove(key)),
        contents(appended(segments, payload), index.remove(key).map) == contents(
            segments,
            index.map,
        ).remove(key),
{
    let after = appended(segments, payload);
    lemma_replay_log_appended::<Index>(IndexView::empty(), segments, 0, payload);
    lemma_replayed_sound(segments);
    assert forall|other: Seq<char>| #[trigger] index.map.contains_key(other) implies value_at(
        after,
        index.map[other],
    ) == value_at(segments, index.map[other]) by {
        lemma_append_keeps(segments, payload, index.map[other]);
    }
    assert(contents(after, index.remove(key).map) =~= contents(segments, index.map).remove(key));
}

/// The appended record stands at the position that was announced for it.
pub proof fn lemma_new_record(segments: Seq<Seq<u8>>, payload: Seq<u8>)
    requires
        segments.len() >= 1,
        sized(segments),
        payload.len() <= usize::MAX,
    ensures
        holds_record(appended(segments, payload), next_position(segments, payload.len())),
        payload_of(appended(segments, payload), next_position(segments, payload.len()))
            == payload,
{
    let last = segments.len() - 1;
    assert(segments[last].len() <= usize::MAX);
    lemma_record_appended(segments[last], payload);
}

} // verus!
