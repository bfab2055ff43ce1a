//! What holds of the store and the log whatever the keys, values and records.

use vstd::prelude::*;
use crate::error::ErrorView;
use crate::index::IndexView;
use crate::kv::{
    after_remove,
    after_set,
    contents,
    get_outcome,
    lemma_append_keeps,
    lemma_new_record,
    lemma_put_appended,
    live,
    remove_outcome,
    replayed,
    set_outcome,
    Contents,
    KvStore,
};
use crate::record::{reads_back, record_text, RecordView};
use crate::storages::{
    appended,
    count_after,
    holds_record,
    lemma_log_appended,
    log_total,
    next_position,
    opened,
    payload_of,
    record_total,
    records_from,
    sized,
    well_framed,
    MAX_RECORDS_COUNT_PER_FILE,
};

verus! {

/// After `set` has entered a value for a key, `get` of the key returns that
/// value.  `set` enters the value for every key that is not empty and every
/// value whose record reads back from its text.
pub proof fn law_get_after_set(store: Contents, key: Seq<char>, value: Seq<char>)
    requires
        key.len() > 0,
        reads_back(RecordView::Put(key, value)),
    ensures
        set_outcome(key, value) is Ok,
        get_outcome(after_set(store, key, value), key) == Ok::<Option<Seq<char>>, ErrorView>(
            Some(value),
        ),
{
}

/// `set` changes the value of no other key.
pub proof fn law_set_keeps_other_keys(
    store: Contents,
    key: Seq<char>,
    value: Seq<char>,
    other: Seq<char>,
)
    requires
        other != key,
    ensures
        get_outcome(after_set(store, key, value), other) == get_outcome(store, other),
{
}

/// After two `set`s of one key, `get` returns the second value.
pub proof fn law_get_after_overwrite(
    store: Contents,
    key: Seq<char>,
    first: Seq<char>,
    second: Seq<char>,
)
    requires
        key.len() > 0,
        reads_back(RecordView::Put(key, first)),
        reads_back(RecordView::Put(key, second)),
    ensures
        get_outcome(after_set(after_set(store, key, first), key, second), key) == Ok::<
            Option<Seq<char>>,
            ErrorView,
        >(Some(second)),
{
}

/// After two `Put` records of one key were appended, the log holds both, each
/// at the position that was announced for it, and a replay gives the key the
/// position of the second.
pub proof fn law_overwrite_keeps_both_records(
    segments: Seq<Seq<u8>>,
    index: IndexView,
    key: Seq<char>,
    first: Seq<char>,
    second: Seq<char>,
)
    requires
        segments.len() >= 1,
        sized(segments),
        well_framed(segments),
        replayed(segments) == Ok::<IndexView, ErrorView>(index),
        reads_back(RecordView::Put(key, first)),
        reads_back(RecordView::Put(key, second)),
        record_text(RecordView::Put(key, first)).unwrap().len() <= usize::MAX,
        record_text(RecordView::Put(key, second)).unwrap().len() <= usize::MAX,
        sized(appended(segments, record_text(RecordView::Put(key, first)).unwrap())),
    ensures
        ({
            let one = record_text(RecordView::Put(key, first)).unwrap();
            let two = record_text(RecordView::Put(key, second)).unwrap();
            let middle = appended(segments, one);
            let after = appended(middle, two);
            let at_one = next_position(segments, one.len());
            let at_two = next_position(middle, two.len());
            &&& holds_record(after, at_one) && payload_of(after, at_one) == one
            &&& holds_record(after, at_two) && payload_of(after, at_two) == two
            &&& at_one != at_two
            &&& log_total(after) == log_total(segments) + 2
            &&& replayed(after) == Ok::<IndexView, ErrorView>(index.insert(key, at_two))
            &&& contents(after, index.insert(key, at_two).map) == contents(
                segments,
                index.map,
            ).insert(key, second)
        }),
{
    let one = record_text(RecordView::Put(key, first)).unwrap();
    let two = record_text(RecordView::Put(key, second)).unwrap();
    let middle = appended(segments, one);
    let after = appended(middle, two);
    let at_one = next_position(segments, one.len());
    let at_two = next_position(middle, two.len());
    let once = index.insert(key, at_one);
    let twice = once.insert(key, at_two);
    assert(replayed(middle) == Ok::<IndexView, ErrorView>(once) && contents(middle, once.map)
        == contents(segments, index.map).insert(key, first) && well_framed(middle) && log_total(
        middle,
    ) == log_total(segments) + 1 && holds_record(middle, at_one) && payload_of(middle, at_one)
        == one) by {
        lemma_put_appended(segments, index, one, key, first);
        lemma_log_appended(segments, one);
        lemma_new_record(segments, one);
    }
    assert(replayed(after) == Ok::<IndexView, ErrorView>(twice) && contents(after, twice.map)
        == contents(middle, once.map).insert(key, second) && log_total(after) == log_total(middle)
        + 1 && holds_record(after, at_two) && payload_of(after, at_two) == two) by {
        lemma_put_appended(middle, once, two, key, second);
        lemma_log_appended(middle, two);
        lemma_new_record(middle, two);
    }
    assert(holds_record(after, at_one) && payload_of(after, at_one) == one) by {
        lemma_append_keeps(middle, two, at_one);
    }
    assert(twice == index.insert(key, at_two)) by {
        assert(twice.map =~= index.insert(key, at_two).map);
        assert(twice.journal =~= index.insert(key, at_two).journal);
    }
    assert(contents(segments, index.map).insert(key, first).insert(key, second) =~= contents(
        segments,
        index.map,
    ).insert(key, second));
    assert(at_one != at_two) by {
        if at_one.file == at_two.file {
            assert(middle[at_one.file as int].len() > segments[at_one.file as int].len());
        }
    }
}

/// After `set` and `remove` of a key, `get` of the key returns `None`, and a
/// second `remove` fails with `KeyNotFound` and changes nothing.
pub proof fn law_remove_after_set(store: Contents, key: Seq<char>, value: Seq<char>)
    requires
        key.len() > 0,
        reads_back(RecordView::Put(key, value)),
        reads_back(RecordView::Remove(key)),
    ensures
        ({
            let removed = after_remove(after_set(store, key, value), key);
            &&& remove_outcome(after_set(store, key, value), key) is Ok
            &&& get_outcome(removed, key) == Ok::<Option<Seq<char>>, ErrorView>(None)
            &&& remove_outcome(removed, key) == Err::<(), ErrorView>(ErrorView::KeyNotFound(key))
            &&& after_remove(removed, key) == removed
        }),
{
}

/// `remove` changes the value of no other key.
pub proof fn law_remove_keeps_other_keys(store: Contents, key: Seq<char>, other: Seq<char>)
    requires
        other != key,
    ensures
        get_outcome(after_remove(store, key), other) == get_outcome(store, other),
{
}

/// The empty key is refused by `set`, `get` and `remove` with `InvalidKey`,
/// and the contents stay as they are.
pub proof fn law_empty_key_is_refused(store: Contents, value: Seq<char>)
    ensures
        ({
            let key = Seq::<char>::empty();
            &&& set_outcome(key, value) == Err::<(), ErrorView>(ErrorView::InvalidKey(key))
            &&& get_outcome(store, key) == Err::<Option<Seq<char>>, ErrorView>(
                ErrorView::InvalidKey(key),
            )
            &&& remove_outcome(store, key) == Err::<(), ErrorView>(ErrorView::InvalidKey(key))
            &&& after_set(store, key, value) == store
            &&& after_remove(store, key) == store
        }),
{
}

/// A store that is opened over the segments of another has the contents of
/// that store: the segments are taken as they are, and their replay gives
/// the index and the contents that the store had.
pub proof fn law_reopen_gives_the_same_contents(store: &KvStore)
    requires
        store.wf(),
    ensures
        opened(store.log()) == store.log(),
        replayed(opened(store.log())) == Ok::<IndexView, ErrorView>(store.index()),
        live(opened(store.log())) == Some(store@),
{
}

/// Whether compaction was due or not after an append, the contents are those
/// of the appended log under the updated index; and where it was due, the log
/// holds one record for each key.
pub proof fn law_compaction_keeps_contents(
    before: &KvStore,
    after: &KvStore,
    payload: Seq<u8>,
    index: IndexView,
)
    requires
        after.follows(before, payload, index),
    ensures
        after@ == contents(appended(before.log(), payload), index.map),
        after.index().map.dom() == index.map.dom(),
        count_after(before.count()) >= before.threshold() ==> log_total(after.log())
            == after.index().map.dom().len(),
{
}

/// The segments after the payloads were appended one after the other.
pub open spec fn appended_all(segments: Seq<Seq<u8>>, payloads: Seq<Seq<u8>>) -> Seq<Seq<u8>>
    decreases payloads.len(),
{
    if payloads.len() == 0 {
        segments
    } else {
        appended(appended_all(segments, payloads.drop_last()), payloads.last())
    }
}

/// An append changes the last segment only: every segment before it stays as
/// it is.
pub proof fn law_closed_segments_stay(segments: Seq<Seq<u8>>, payload: Seq<u8>, i: int)
    requires
        0 <= i < segments.len() - 1,
    ensures
        appended(segments, payload).len() >= segments.len(),
        appended(segments, payload)[i] == segments[i],
{
}

/// The append that fills the last segment opens an empty segment behind it.
pub proof fn law_full_segment_is_closed(segments: Seq<Seq<u8>>, payload: Seq<u8>)
    requires
        segments.len() >= 1,
        well_framed(segments),
        payload.len() <= u64::MAX,
        record_total(segments.last()) + 1 >= MAX_RECORDS_COUNT_PER_FILE,
    ensures
        appended(segments, payload).len() == segments.len() + 1,
        appended(segments, payload).last() == Seq::<u8>::empty(),
        record_total(appended(segments, payload).last()) == 0,
{
    assert(records_from(Seq::<u8>::empty(), 0) == Some(0nat));
}

/// Appends never take a segment away, keep the segments whole, and leave
/// fewer than the full number of records in the last segment.
pub proof fn lemma_appended_all(segments: Seq<Seq<u8>>, payloads: Seq<Seq<u8>>)
    requires
        segments.len() >= 1,
        well_framed(segments),
        forall|i: int| 0 <= i < payloads.len() ==> (#[trigger] payloads[i]).len() <= u64::MAX,
    ensures
        well_framed(appended_all(segments, payloads)),
        appended_all(segments, payloads).len() >= segments.len(),
        payloads.len() > 0 ==> record_total(appended_all(segments, payloads).last())
            < MAX_RECORDS_COUNT_PER_FILE,
        appended_all(segments, payloads).len() == segments.len() ==> record_total(
            appended_all(segments, payloads).last(),
        ) == record_total(segments.last()) + payloads.len(),
    decreases payloads.len(),
{
    if payloads.len() > 0 {
        let before = appended_all(segments, payloads.drop_last());
        lemma_appended_all(segments, payloads.drop_last());
        lemma_log_appended(before, payloads.last());
    }
}

/// A thousand appends or more, to whatever log, open at least one new
/// segment: the log then has two segments or more.
pub proof fn law_many_appends_open_a_segment(segments: Seq<Seq<u8>>, payloads: Seq<Seq<u8>>)
    requires
        segments.len() >= 1,
        well_framed(segments),
        forall|i: int| 0 <= i < payloads.len() ==> (#[trigger] payloads[i]).len() <= u64::MAX,
        payloads.len() >= MAX_RECORDS_COUNT_PER_FILE,
    ensures
        appended_all(segments, payloads).len() >= segments.len() + 1,
        appended_all(segments, payloads).len() >= 2,
{
    lemma_appended_all(segments, payloads);
}

} // verus!
