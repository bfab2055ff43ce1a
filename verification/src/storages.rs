//! The segment log: an ordered sequence of append-only segments.
//!
//! A segment is a run of records, each written as a length prefix of eight
//! bytes followed by that many bytes of payload.  Only the last segment takes
//! appends.  The log holds the segments' bytes; it never looks inside a
//! payload.

use vstd::prelude::*;
use crate::error::{Error, ErrorView};
use crate::prefix::{
    lemma_prefix_round_trip,
    prefix_bytes,
    prefix_value,
    read_prefix,
    write_prefix,
    PREFIX_WIDTH,
};

verus! {

/// Where one record stands: the segment, the index of the first byte of its
/// length prefix, and the number of bytes of its payload.
#[derive(Debug, Clone, Copy, PartialEq, Eq, Structural)]
pub struct ValuePosition {
    pub file: usize,
    pub offset: u64,
    pub length: usize,
}

/// The number of records after which a segment is closed and the next opened.
pub const MAX_RECORDS_COUNT_PER_FILE: usize = 1000;

/// A record as it stands in a segment: the length prefix, then the payload.
pub open spec fn framed(payload: Seq<u8>) -> Seq<u8> {
    prefix_bytes(payload.len() as u64) + payload
}

/// The payload length that the prefix at `cursor` announces.
pub open spec fn length_at(bytes: Seq<u8>, cursor: int) -> int {
    prefix_value(bytes.subrange(cursor, cursor + 8)) as int
}

/// Whether a whole record, prefix and payload, starts at `cursor`.
pub open spec fn record_at(bytes: Seq<u8>, cursor: int) -> bool {
    0 <= cursor && cursor + 8 <= bytes.len() && cursor + 8 + length_at(bytes, cursor)
        <= bytes.len()
}

/// The payload of the record that starts at `cursor`.
pub open spec fn payload_at(bytes: Seq<u8>, cursor: int) -> Seq<u8> {
    bytes.subrange(cursor + 8, cursor + 8 + length_at(bytes, cursor))
}

/// The index just past the record that starts at `cursor`.
pub open spec fn next_record(bytes: Seq<u8>, cursor: int) -> int {
    cursor + 8 + length_at(bytes, cursor)
}

/// The number of records from `cursor` to the end of the segment, or `None`
/// where the bytes from `cursor` on are not a run of whole records.
pub open spec fn records_from(bytes: Seq<u8>, cursor: int) -> Option<nat>
    decreases bytes.len() - cursor,
{
    if cursor == bytes.len() {
        Some(0)
    } else if record_at(bytes, cursor) {
        match records_from(bytes, next_record(bytes, cursor)) {
            Some(n) => Some(n + 1),
            None => None,
        }
    } else {
        None
    }
}

/// The number of records of a segment made of whole records.
pub open spec fn record_total(bytes: Seq<u8>) -> nat {
    match records_from(bytes, 0) {
        Some(n) => n,
        None => 0,
    }
}

/// Whether every segment is a run of whole records.
pub open spec fn well_framed(segments: Seq<Seq<u8>>) -> bool {
    forall|i: int| 0 <= i < segments.len() ==> (#[trigger] records_from(segments[i], 0)) is Some
}

/// Whether a machine word holds the number of segments and the length of
/// each.
pub open spec fn sized(segments: Seq<Seq<u8>>) -> bool {
    &&& segments.len() <= usize::MAX
    &&& forall|i: int| 0 <= i < segments.len() ==> (#[trigger] segments[i]).len() <= usize::MAX
}

/// The number of records of all segments together.
pub open spec fn log_total(segments: Seq<Seq<u8>>) -> nat
    decreases segments.len(),
{
    if segments.len() == 0 {
        0
    } else {
        log_total(segments.drop_last()) + record_total(segments.last())
    }
}

/// Whether `position` names a record of the segments: a segment that exists,
/// and in it a whole record of the stated length at the stated offset.
pub open spec fn holds_record(segments: Seq<Seq<u8>>, position: ValuePosition) -> bool {
    &&& position.file < segments.len()
    &&& record_at(segments[position.file as int], position.offset as int)
    &&& length_at(segments[position.file as int], position.offset as int) == position.length
}

/// The payload of the record that `position` names.
pub open spec fn payload_of(segments: Seq<Seq<u8>>, position: ValuePosition) -> Seq<u8> {
    payload_at(segments[position.file as int], position.offset as int)
}

/// The bytes of each of the segments.
pub open spec fn bytes_of(segments: Seq<Vec<u8>>) -> Seq<Seq<u8>> {
    Seq::new(segments.len(), |i: int| segments[i]@)
}

/// The segments that a log starts from: those given, or one empty segment
/// where none is given.
pub open spec fn opened(segments: Seq<Seq<u8>>) -> Seq<Seq<u8>> {
    if segments.len() == 0 {
        seq![Seq::<u8>::empty()]
    } else {
        segments
    }
}

/// The position that the next appended record of `length` bytes gets.
pub open spec fn next_position(segments: Seq<Seq<u8>>, length: nat) -> ValuePosition {
    ValuePosition {
        file: (segments.len() - 1) as usize,
        offset: segments.last().len() as u64,
        length: length as usize,
    }
}

/// The count after one more record, when the count was `count`: one more, or
/// zero where that fills the segment and the next one is opened.
pub open spec fn count_after(count: nat) -> nat {
    if count + 1 >= MAX_RECORDS_COUNT_PER_FILE {
        0
    } else {
        count + 1
    }
}

/// The segments after a record with `payload` was appended: the last segment
/// grows by the framed record, and where it then holds the full number of
/// records, an empty segment follows it.
pub open spec fn appended(segments: Seq<Seq<u8>>, payload: Seq<u8>) -> Seq<Seq<u8>> {
    let last = segments.len() - 1;
    let grown = segments.update(last, segments[last] + framed(payload));
    if record_total(segments[last]) + 1 >= MAX_RECORDS_COUNT_PER_FILE {
        grown.push(Seq::<u8>::empty())
    } else {
        grown
    }
}

/// What is shown each record of a log, in log order, while the log is opened.
///
/// A visitor has a state, which `visit` moves by `step`; `step` may refuse a
/// record with an error, which ends the replay.
pub trait RecordVisitor: Sized {
    /// The visitor's state, as contracts see it.
    type State;

    /// What `visit` asks of the visitor and keeps.
    spec fn inv(&self) -> bool;

    /// The state that the visitor is in.
    spec fn state(&self) -> Self::State;

    /// The state after a record with `payload` at `position` was seen in
    /// `state`, or the error with which it is refused.
    spec fn step(state: Self::State, payload: Seq<u8>, position: ValuePosition) -> Result<
        Self::State,
        ErrorView,
    >;

    /// Shows the visitor one record.
    fn visit(&mut self, payload: &[u8], position: ValuePosition) -> (r: Result<(), Error>)
        requires
            old(self).inv(),
        ensures
            final(self).inv(),
            match Self::step(old(self).state(), payload@, position) {
                Ok(next) => r is Ok && final(self).state() == next,
                Err(e) => r matches Err(x) && x@ == e,
            },
    ;
}

/// The outcome of showing `V` the records of one segment from `cursor` on,
/// starting in `state`: the state after the last record, the error of the
/// first record that `V` refuses, or `ParseLengthError` where the segment ends
/// inside a record before that.
pub open spec fn replay_segment<V: RecordVisitor>(
    state: V::State,
    bytes: Seq<u8>,
    file: usize,
    cursor: int,
) -> Result<V::State, ErrorView>
    decreases bytes.len() - cursor,
{
    if cursor == bytes.len() {
        Ok(state)
    } else if record_at(bytes, cursor) {
        let position = ValuePosition {
            file,
            offset: cursor as u64,
            length: length_at(bytes, cursor) as usize,
        };
        match V::step(state, payload_at(bytes, cursor), position) {
            Ok(next) => replay_segment::<V>(next, bytes, file, next_record(bytes, cursor)),
            Err(e) => Err(e),
        }
    } else {
        Err(ErrorView::ParseLengthError)
    }
}

/// The outcome of showing `V` the records of the segments from segment `from`
/// on, in order, starting in `state`.
pub open spec fn replay_log<V: RecordVisitor>(
    state: V::State,
    segments: Seq<Seq<u8>>,
    from: int,
) -> Result<V::State, ErrorView>
    decreases segments.len() - from,
{
    if from < 0 || from >= segments.len() {
        Ok(state)
    } else {
        match replay_segment::<V>(state, segments[from], from as usize, 0) {
            Ok(next) => replay_log::<V>(next, segments, from + 1),
            Err(e) => Err(e),
        }
    }
}

/// Whether a read at `position` stays inside a segment: the segment exists
/// and holds `length` bytes behind the eight bytes at `offset`.
pub open spec fn readable(segments: Seq<Seq<u8>>, position: ValuePosition) -> bool {
    &&& position.file < segments.len()
    &&& position.offset + 8 + position.length <= segments[position.file as int].len()
}

/// The bytes that a read at `position` gives: `length` bytes, starting eight
/// bytes behind `offset`.
pub open spec fn read_of(segments: Seq<Seq<u8>>, position: ValuePosition) -> Seq<u8> {
    segments[position.file as int].subrange(
        position.offset + 8,
        position.offset + 8 + position.length,
    )
}

/// A run of `n` whole records takes at least eight bytes for each.
pub proof fn lemma_records_fit(bytes: Seq<u8>, cursor: int)
    requires
        records_from(bytes, cursor) is Some,
    ensures
        0 <= cursor <= bytes.len(),
        cursor + 8 * records_from(bytes, cursor).unwrap() <= bytes.len(),
    decreases bytes.len() - cursor,
{
    if cursor != bytes.len() {
        lemma_records_fit(bytes, next_record(bytes, cursor));
    }
}

/// A record of `bytes` is the same record in `bytes + extra`.
pub proof fn lemma_record_kept(bytes: Seq<u8>, extra: Seq<u8>, cursor: int)
    requires
        record_at(bytes, cursor),
    ensures
        record_at(bytes + extra, cursor),
        length_at(bytes + extra, cursor) == length_at(bytes, cursor),
        payload_at(bytes + extra, cursor) == payload_at(bytes, cursor),
{
    let more = bytes + extra;
    assert(more.subrange(cursor, cursor + 8) =~= bytes.subrange(cursor, cursor + 8));
    assert(payload_at(more, cursor) =~= payload_at(bytes, cursor));
}

/// The record that was appended to `bytes` stands at its old end.
pub proof fn lemma_record_appended(bytes: Seq<u8>, payload: Seq<u8>)
    requires
        payload.len() <= u64::MAX,
    ensures
        record_at(bytes + framed(payload), bytes.len() as int),
        length_at(bytes + framed(payload), bytes.len() as int) == payload.len(),
        payload_at(bytes + framed(payload), bytes.len() as int) == payload,
        next_record(bytes + framed(payload), bytes.len() as int) == (bytes + framed(
            payload,
        )).len(),
{
    let more = bytes + framed(payload);
    let at = bytes.len() as int;
    lemma_prefix_round_trip(payload.len() as u64);
    assert(more.subrange(at, at + 8) =~= prefix_bytes(payload.len() as u64));
    assert(more.subrange(at + 8, at + 8 + payload.len()) =~= payload);
}

/// Appending a record to a run of whole records gives a run of one more.
pub proof fn lemma_records_appended(bytes: Seq<u8>, cursor: int, payload: Seq<u8>)
    requires
        records_from(bytes, cursor) is Some,
        payload.len() <= u64::MAX,
    ensures
        records_from(bytes + framed(payload), cursor) == Some(
            (records_from(bytes, cursor).unwrap() + 1) as nat,
        ),
    decreases bytes.len() - cursor,
{
    let more = bytes + framed(payload);
    if cursor == bytes.len() {
        lemma_record_appended(bytes, payload);
        assert(records_from(more, more.len() as int) == Some(0nat));
    } else {
        lemma_record_kept(bytes, framed(payload), cursor);
        lemma_records_appended(bytes, next_record(bytes, cursor), payload);
    }
}

/// Replaying a run of whole records with one more appended is replaying the
/// run and then taking the step for the appended record.
pub proof fn lemma_replay_appended<V: RecordVisitor>(
    state: V::State,
    bytes: Seq<u8>,
    file: usize,
    cursor: int,
    payload: Seq<u8>,
)
    requires
        records_from(bytes, cursor) is Some,
        payload.len() <= usize::MAX,
        bytes.len() <= u64::MAX,
    ensures
        replay_segment::<V>(state, bytes + framed(payload), file, cursor) == match replay_segment::<
            V,
        >(state, bytes, file, cursor) {
            Ok(before) => V::step(
                before,
                payload,
                ValuePosition { file, offset: bytes.len() as u64, length: payload.len() as usize },
            ),
            Err(e) => Err(e),
        },
    decreases bytes.len() - cursor,
{
    let more = bytes + framed(payload);
    if cursor == bytes.len() {
        lemma_record_appended(bytes, payload);
        let position = ValuePosition {
            file,
            offset: bytes.len() as u64,
            length: payload.len() as usize,
        };
        match V::step(state, payload, position) {
            Ok(next) => {
                assert(replay_segment::<V>(next, more, file, more.len() as int) == Ok::<
                    V::State,
                    ErrorView,
                >(next));
            },
            Err(_) => {},
        }
    } else {
        lemma_record_kept(bytes, framed(payload), cursor);
        let position = ValuePosition {
            file,
            offset: cursor as u64,
            length: length_at(bytes, cursor) as usize,
        };
        match V::step(state, payload_at(bytes, cursor), position) {
            Ok(next) => {
                lemma_replay_appended::<V>(next, bytes, file, next_record(bytes, cursor), payload);
            },
            Err(_) => {},
        }
    }
}

/// Appending a record keeps the segments whole and adds one to their records.
pub proof fn lemma_log_appended(segments: Seq<Seq<u8>>, payload: Seq<u8>)
    requires
        segments.len() >= 1,
        well_framed(segments),
        payload.len() <= u64::MAX,
    ensures
        well_framed(appended(segments, payload)),
        log_total(appended(segments, payload)) == log_total(segments) + 1,
        record_total(appended(segments, payload).last()) == count_after(
            record_total(segments.last()),
        ),
{
    let last = segments.len() - 1;
    let grown = segments.update(last, segments[last] + framed(payload));
    let after = appended(segments, payload);
    assert(records_from(segments[last], 0) is Some);
    lemma_records_appended(segments[last], 0, payload);
    lemma_record_appended(segments[last], payload);
    assert(grown.drop_last() =~= segments.drop_last());
    assert(log_total(grown) == log_total(segments) + 1);
    assert(records_from(Seq::<u8>::empty(), 0) == Some(0nat));
    if after != grown {
        assert(after.drop_last() =~= grown);
    }
    assert forall|i: int| 0 <= i < after.len() implies (#[trigger] records_from(after[i], 0)) is Some by {
        if i < last {
            assert(after[i] == segments[i]);
            assert(records_from(segments[i], 0) is Some);
        }
    }
}

/// Replaying the segments with one more record appended is replaying the
/// segments and then taking the step for the appended record.
pub proof fn lemma_replay_log_appended<V: RecordVisitor>(
    state: V::State,
    segments: Seq<Seq<u8>>,
    from: int,
    payload: Seq<u8>,
)
    requires
        0 <= from < segments.len(),
        well_framed(segments),
        sized(segments),
        payload.len() <= usize::MAX,
    ensures
        replay_log::<V>(state, appended(segments, payload), from) == match replay_log::<V>(
            state,
            segments,
            from,
        ) {
            Ok(before) => V::step(before, payload, next_position(segments, payload.len())),
            Err(e) => Err(e),
        },
    decreases segments.len() - from,
{
    let last = segments.len() - 1;
    let after = appended(segments, payload);
    assert(records_from(segments[last], 0) is Some);
    assert(segments[last].len() <= usize::MAX);
    if from < last {
        assert(after[from] == segments[from]);
        match replay_segment::<V>(state, segments[from], from as usize, 0) {
            Ok(next) => {
                lemma_replay_log_appended::<V>(next, segments, from + 1, payload);
            },
            Err(_) => {},
        }
    } else {
        lemma_replay_appended::<V>(state, segments[last], last as usize, 0, payload);
        assert(after[last] == segments[last] + framed(payload));
        match replay_segment::<V>(state, segments[last], last as usize, 0) {
            Ok(before) => {
                assert(replay_log::<V>(before, segments, last + 1) == Ok::<V::State, ErrorView>(
                    before,
                ));
                match V::step(before, payload, next_position(segments, payload.len())) {
                    Ok(next) => {
                        if after.len() > segments.len() {
                            assert(after[last + 1] == Seq::<u8>::empty());
                            assert(replay_segment::<V>(next, after[last + 1], (last + 1) as usize, 0)
                                == Ok::<V::State, ErrorView>(next));
                            assert(replay_log::<V>(next, after, last + 2) == Ok::<
                                V::State,
                                ErrorView,
                            >(next));
                        }
                        assert(replay_log::<V>(next, after, last + 1) == Ok::<V::State, ErrorView>(
                            next,
                        ));
                    },
                    Err(_) => {},
                }
            },
            Err(_) => {},
        }
    }
}

/// The segment log.
pub struct Storage {
    files: Vec<Vec<u8>>,
    record_count: usize,
}

impl View for Storage {
    type V = Seq<Seq<u8>>;

    /// The bytes of the segments, in order.
    closed spec fn view(&self) -> Seq<Seq<u8>> {
        bytes_of(self.files@)
    }
}

impl Storage {
    /// The count that `record_count` returns.
    pub closed spec fn count(&self) -> nat {
        self.record_count as nat
    }

    /// The log holds at least one segment, every segment is a run of whole
    /// records of a length that a machine word holds, and the count is the
    /// number of records of the last segment.
    pub open spec fn wf(&self) -> bool {
        &&& self@.len() >= 1
        &&& sized(self@)
        &&& well_framed(self@)
        &&& self.count() == record_total(self@.last())
    }

    /// The number of records in the last segment, the one that takes appends.
    pub fn record_count(&self) -> (n: usize)
        ensures
            n == self.count(),
    {
        self.record_count
    }

    /// The segments' bytes, in order.
    pub fn segments(&self) -> (segments: &Vec<Vec<u8>>)
        ensures
            segments@.len() == self@.len(),
            forall|i: int| 0 <= i < segments@.len() ==> (#[trigger] segments@[i])@ == self@[i],
    {
        &self.files
    }

    /// Opens a log over the given segments, or over one empty segment where
    /// none is given, and shows `de` every record in log order.
    ///
    /// Fails with `ParseLengthError` where a segment ends inside a record, and
    /// with the visitor's error where the visitor refuses a record, whichever
    /// the replay meets first.
    pub fn init<V: RecordVisitor>(segments: Vec<Vec<u8>>, de: V) -> (r: Result<(Storage, V), Error>)
        requires
            de.inv(),
        ensures
            match replay_log::<V>(de.state(), opened(bytes_of(segments@)), 0) {
                Ok(state) => r matches Ok((storage, visitor)) && storage.wf() && storage@
                    == opened(bytes_of(segments@)) && visitor.inv() && visitor.state() == state,
                Err(e) => r matches Err(x) && x@ == e,
            },
    {
        let mut files = segments;
        if files.len() == 0 {
            files.push(Vec::new());
        }
        let ghost log = bytes_of(files@);
        assert(log =~~= opened(bytes_of(segments@)));
        let mut visitor = de;
        let mut record_count: usize = 0;
        let mut i: usize = 0;
        while i < files.len()
            invariant
                i <= files@.len(),
                files@.len() >= 1,
                log == bytes_of(files@),
                log == opened(bytes_of(segments@)),
                visitor.inv(),
                replay_log::<V>(de.state(), log, 0) == replay_log::<V>(visitor.state(), log, i as int),
                forall|j: int| 0 <= j < i ==> (#[trigger] records_from(log[j], 0)) is Some,
                i > 0 ==> record_count == record_total(log[i - 1]),
            decreases files@.len() - i,
        {
            let bytes = &files[i];
            let ghost start = visitor.state();
            assert(bytes@ == log[i as int]);
            let mut count: usize = 0;
            let mut cursor: usize = 0;
            while cursor < bytes.len()
                invariant
                    cursor <= bytes@.len(),
                    i < log.len(),
                    bytes@ == log[i as int],
                    log == opened(bytes_of(segments@)),
                    visitor.inv(),
                    replay_log::<V>(de.state(), log, 0) == replay_log::<V>(start, log, i as int),
                    replay_segment::<V>(start, bytes@, i, 0) == replay_segment::<V>(
                        visitor.state(),
                        bytes@,
                        i,
                        cursor as int,
                    ),
                    match records_from(bytes@, cursor as int) {
                        Some(n) => records_from(bytes@, 0) == Some((n + count) as nat),
                        None => records_from(bytes@, 0) is None,
                    },
                    8 * count <= cursor,
                decreases bytes@.len() - cursor,
            {
                if bytes.len() - cursor < PREFIX_WIDTH {
                    return Err(Error::ParseLengthError);
                }
                let announced: u64 = read_prefix(bytes.as_slice(), cursor);
                let start_of_payload: usize = cursor + PREFIX_WIDTH;
                if announced > (bytes.len() - start_of_payload) as u64 {
                    return Err(Error::ParseLengthError);
                }
                let length: usize = announced as usize;
                let position = ValuePosition { file: i, offset: cursor as u64, length };
                let payload = slice_of(bytes, start_of_payload, start_of_payload + length);
                assert(payload@ == payload_at(bytes@, cursor as int));
                match visitor.visit(payload, position) {
                    Ok(()) => {},
                    Err(e) => {
                        return Err(e);
                    },
                }
                cursor = start_of_payload + length;
                count = count + 1;
            }
            record_count = count;
            i = i + 1;
        }
        let storage = Storage { files, record_count };
        assert(storage@ =~= log);
        assert forall|j: int| 0 <= j < log.len() implies (#[trigger] log[j]).len()
            <= usize::MAX by {
            assert(files@[j].len() == files@[j]@.len());
        }
        Ok((storage, visitor))
    }

    /// Appends a record with the payload `bytes` to the last segment and
    /// returns where it stands.  Where the last segment then holds
    /// `MAX_RECORDS_COUNT_PER_FILE` records or more, an empty segment is
    /// opened behind it and takes the appends from then on.
    pub fn write_record(&mut self, bytes: &[u8]) -> (position: ValuePosition)
        requires
            old(self).wf(),
        ensures
            final(self).wf(),
            final(self)@ == appended(old(self)@, bytes@),
            final(self).count() == count_after(old(self).count()),
            position == next_position(old(self)@, bytes@.len()),
            holds_record(final(self)@, position),
            payload_of(final(self)@, position) == bytes@,
    {
        let last: usize = self.files.len() - 1;
        let ghost before = self.files@[last as int]@;
        assert(before == self@.last());
        let offset: u64 = self.files[last].len() as u64;
        let length: usize = bytes.len();
        write_prefix(&mut self.files[last], length as u64);
        self.files[last].extend_from_slice(bytes);
        let grown_length: usize = self.files[last].len();
        proof {
            let grown = before + framed(bytes@);
            assert(self.files@[last as int]@ =~= grown);
            lemma_records_appended(before, 0, bytes@);
            lemma_records_fit(grown, 0);
            lemma_record_appended(before, bytes@);
        }
        self.record_count = self.record_count + 1;
        if self.record_count >= MAX_RECORDS_COUNT_PER_FILE {
            self.files.push(Vec::new());
            self.record_count = 0;
            assert(records_from(Seq::<u8>::empty(), 0) == Some(0nat));
        }
        proof {
            assert(self.files.len() == self.files@.len());
            assert(self@ =~= appended(old(self)@, bytes@));
            assert forall|i: int| 0 <= i < self@.len() implies (#[trigger] records_from(
                self@[i],
                0,
            )) is Some by {
                if i < last {
                    assert(self@[i] == old(self)@[i]);
                    assert(records_from(old(self)@[i], 0) is Some);
                }
            }
        }
        ValuePosition { file: last, offset, length }
    }

    /// Reads the `length` bytes that stand eight bytes behind `offset` in the
    /// segment `file`.  Fails with `Error::Io` exactly where the segment does
    /// not exist or ends before the last of those bytes.
    pub fn read_record(&self, position: &ValuePosition) -> (r: Result<Vec<u8>, Error>)
        ensures
            match r {
                Ok(bytes) => readable(self@, *position) && bytes@ == read_of(self@, *position),
                Err(e) => e@ == ErrorView::Io && !readable(self@, *position),
            },
    {
        if position.file >= self.files.len() {
            return Err(Error::Io);
        }
        let bytes = &self.files[position.file];
        assert(bytes@ == self@[position.file as int]);
        if position.offset > bytes.len() as u64 {
            return Err(Error::Io);
        }
        let offset: usize = position.offset as usize;
        if bytes.len() - offset < PREFIX_WIDTH {
            return Err(Error::Io);
        }
        let start: usize = offset + PREFIX_WIDTH;
        if bytes.len() - start < position.length {
            return Err(Error::Io);
        }
        let mut out: Vec<u8> = Vec::new();
        out.extend_from_slice(slice_of(bytes, start, start + position.length));
        Ok(out)
    }

    /// Puts the segments of `storage` in the place of this log's segments and
    /// takes over its count.  The steps in which the files of the two logs
    /// follow are those of `ReplaceStep`.
    pub fn replace(&mut self, storage: Storage)
        requires
            storage.wf(),
        ensures
            final(self).wf(),
            final(self)@ == storage@,
            final(self).count() == storage.count(),
    {
        self.files = storage.files;
        self.record_count = storage.record_count;
    }
}

/// The bytes of `bytes` from `from` up to `to`.
fn slice_of(bytes: &Vec<u8>, from: usize, to: usize) -> (r: &[u8])
    requires
        from <= to <= bytes@.len(),
    ensures
        r@ == bytes@.subrange(from as int, to as int),
{
    &bytes[from..to]
}

} // verus!
