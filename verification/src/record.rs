//! Records and their encoding.
//!
//! A record is written as the JSON text `{"Set":["key","value"]}` or
//! `{"Remove":"key"}`, without white space.  The two strings inside are
//! written and read by `serde_json`; the frame around them is written and read
//! here.  `encode` hands out only bytes that `decode` reads back as the same
//! record, so whoever logs an encoded record knows what a later read gives.

use vstd::prelude::*;
use crate::error::{Error, ErrorView};
use crate::json::{from_json_text, json_string_text, json_string_value, to_json_text};

verus! {

/// One entry of the log.  `Put` is written with the tag `Set`.
#[derive(Debug, PartialEq, Eq)]
pub enum Record {
    /// The key has the value from here on.
    Put(String, String),
    /// The key has no value from here on.
    Remove(String),
}

/// A [`Record`] with its strings as sequences of characters.
pub enum RecordView {
    Put(Seq<char>, Seq<char>),
    Remove(Seq<char>),
}

impl View for Record {
    type V = RecordView;

    open spec fn view(&self) -> RecordView {
        match self {
            Record::Put(key, value) => RecordView::Put(key@, value@),
            Record::Remove(key) => RecordView::Remove(key@),
        }
    }
}

impl RecordView {
    /// The key that the record speaks of.
    pub open spec fn key(self) -> Seq<char> {
        match self {
            RecordView::Put(key, _) => key,
            RecordView::Remove(key) => key,
        }
    }
}

/// The byte `"`, which opens and closes a string literal.
pub const QUOTE: u8 = 0x22;

/// The byte `\`, which makes the byte after it part of the literal.
pub const BACKSLASH: u8 = 0x5c;

/// The byte `,`, which stands between key and value.
pub const COMMA: u8 = 0x2c;

/// The bytes `{"Set":[`.
pub open spec fn set_open() -> Seq<u8> {
    seq![0x7bu8, 0x22u8, 0x53u8, 0x65u8, 0x74u8, 0x22u8, 0x3au8, 0x5bu8]
}

/// The bytes `]}`.
pub open spec fn set_close() -> Seq<u8> {
    seq![0x5du8, 0x7du8]
}

/// The bytes `{"Remove":`.
pub open spec fn remove_open() -> Seq<u8> {
    seq![0x7bu8, 0x22u8, 0x52u8, 0x65u8, 0x6du8, 0x6fu8, 0x76u8, 0x65u8, 0x22u8, 0x3au8]
}

/// The byte `}`.
pub open spec fn remove_close() -> Seq<u8> {
    seq![0x7du8]
}

/// The text of a record: the frame of its variant around the JSON text of its
/// strings.  `None` where one of the strings has no JSON text.
pub open spec fn record_text(record: RecordView) -> Option<Seq<u8>> {
    match record {
        RecordView::Put(key, value) => match (json_string_text(key), json_string_text(value)) {
            (Some(k), Some(v)) => Some(set_open() + k + seq![COMMA] + v + set_close()),
            _ => None,
        },
        RecordView::Remove(key) => match json_string_text(key) {
            Some(k) => Some(remove_open() + k + remove_close()),
            None => None,
        },
    }
}

/// Whether `pattern` stands in `bytes` at index `at`.
pub open spec fn stands_at(bytes: Seq<u8>, at: int, pattern: Seq<u8>) -> bool {
    0 <= at && at + pattern.len() <= bytes.len() && bytes.subrange(at, at + pattern.len())
        == pattern
}

/// The index just past the first quote at or after `at` that no backslash
/// precedes, walking from `at`: a backslash takes the byte after it along.
pub open spec fn closing_quote(bytes: Seq<u8>, at: int) -> Option<int>
    decreases bytes.len() - at,
{
    if at < 0 || at >= bytes.len() {
        None
    } else if bytes[at] == QUOTE {
        Some(at + 1)
    } else if bytes[at] == BACKSLASH {
        if at + 1 < bytes.len() {
            closing_quote(bytes, at + 2)
        } else {
            None
        }
    } else {
        closing_quote(bytes, at + 1)
    }
}

/// The index just past the string literal that opens at `from`, where one
/// opens there and is closed.
pub open spec fn literal_end(bytes: Seq<u8>, from: int) -> Option<int> {
    if 0 <= from < bytes.len() && bytes[from] == QUOTE {
        closing_quote(bytes, from + 1)
    } else {
        None
    }
}

/// The `Put` record that `bytes` are the text of, if any.
pub open spec fn set_record_of(bytes: Seq<u8>) -> Option<RecordView> {
    let start = set_open().len() as int;
    match literal_end(bytes, start) {
        Some(middle) => if middle < bytes.len() && bytes[middle] == COMMA {
            match literal_end(bytes, middle + 1) {
                Some(end) => if stands_at(bytes, end, set_close()) && end + set_close().len()
                    == bytes.len() {
                    match (
                        json_string_value(bytes.subrange(start, middle)),
                        json_string_value(bytes.subrange(middle + 1, end)),
                    ) {
                        (Some(key), Some(value)) => Some(RecordView::Put(key, value)),
                        _ => None,
                    }
                } else {
                    None
                },
                None => None,
            }
        } else {
            None
        },
        None => None,
    }
}

/// The `Remove` record that `bytes` are the text of, if any.
pub open spec fn remove_record_of(bytes: Seq<u8>) -> Option<RecordView> {
    let start = remove_open().len() as int;
    match literal_end(bytes, start) {
        Some(end) => if stands_at(bytes, end, remove_close()) && end + remove_close().len()
            == bytes.len() {
            match json_string_value(bytes.subrange(start, end)) {
                Some(key) => Some(RecordView::Remove(key)),
                None => None,
            }
        } else {
            None
        },
        None => None,
    }
}

/// The record that `bytes` are the text of, if any.
pub open spec fn record_of(bytes: Seq<u8>) -> Option<RecordView> {
    if stands_at(bytes, 0, set_open()) {
        set_record_of(bytes)
    } else if stands_at(bytes, 0, remove_open()) {
        remove_record_of(bytes)
    } else {
        None
    }
}

/// Whether the record has a text and that text is read as the record again.
pub open spec fn reads_back(record: RecordView) -> bool {
    match record_text(record) {
        Some(text) => record_of(text) == Some(record),
        None => false,
    }
}

fn set_open_bytes() -> (r: Vec<u8>)
    ensures
        r@ == set_open(),
{
    let r: Vec<u8> = vec![0x7bu8, 0x22u8, 0x53u8, 0x65u8, 0x74u8, 0x22u8, 0x3au8, 0x5bu8];
    assert(r@ =~= set_open());
    r
}

fn set_close_bytes() -> (r: Vec<u8>)
    ensures
        r@ == set_close(),
{
    let r: Vec<u8> = vec![0x5du8, 0x7du8];
    assert(r@ =~= set_close());
    r
}

fn remove_open_bytes() -> (r: Vec<u8>)
    ensures
        r@ == remove_open(),
{
    let r: Vec<u8> = vec![
        0x7bu8,
        0x22u8,
        0x52u8,
        0x65u8,
        0x6du8,
        0x6fu8,
        0x76u8,
        0x65u8,
        0x22u8,
        0x3au8,
    ];
    assert(r@ =~= remove_open());
    r
}

fn remove_close_bytes() -> (r: Vec<u8>)
    ensures
        r@ == remove_close(),
{
    let r: Vec<u8> = vec![0x7du8];
    assert(r@ =~= remove_close());
    r
}

/// Tests whether `pattern` stands in `bytes` at index `at`.
fn pattern_at(bytes: &[u8], at: usize, pattern: &[u8]) -> (r: bool)
    ensures
        r == stands_at(bytes@, at as int, pattern@),
{
    if pattern.len() > bytes.len() || at > bytes.len() - pattern.len() {
        return false;
    }
    let mut i: usize = 0;
    while i < pattern.len()
        invariant
            i <= pattern@.len(),
            at + pattern@.len() <= bytes@.len() <= usize::MAX,
            forall|j: int| 0 <= j < i ==> bytes@[at + j] == pattern@[j],
        decreases pattern@.len() - i,
    {
        if bytes[at + i] != pattern[i] {
            assert(bytes@.subrange(at as int, at + pattern@.len())[i as int] != pattern@[i as int]);
            return false;
        }
        i = i + 1;
    }
    assert(bytes@.subrange(at as int, at + pattern@.len()) =~= pattern@);
    true
}

/// Finds the end of the string literal that opens at `from`.
fn find_literal_end(bytes: &[u8], from: usize) -> (r: Option<usize>)
    ensures
        match r {
            Some(end) => literal_end(bytes@, from as int) == Some(end as int) && from < end
                <= bytes@.len(),
            None => literal_end(bytes@, from as int) is None,
        },
{
    if from >= bytes.len() || bytes[from] != QUOTE {
        return None;
    }
    let mut at: usize = from + 1;
    while at < bytes.len()
        invariant
            from < at,
            from < bytes@.len(),
            bytes@[from as int] == QUOTE,
            closing_quote(bytes@, at as int) == closing_quote(bytes@, from + 1),
        decreases bytes@.len() - at,
    {
        let byte: u8 = bytes[at];
        if byte == QUOTE {
            return Some(at + 1);
        }
        if byte == BACKSLASH {
            if at + 1 >= bytes.len() {
                return None;
            }
            at = at + 2;
        } else {
            at = at + 1;
        }
    }
    None
}

/// Reads the string whose JSON text is `bytes[from..to]`.
fn read_string(bytes: &[u8], from: usize, to: usize) -> (r: Option<String>)
    requires
        from <= to <= bytes@.len(),
    ensures
        match r {
            Some(s) => json_string_value(bytes@.subrange(from as int, to as int)) == Some(s@),
            None => json_string_value(bytes@.subrange(from as int, to as int)) is None,
        },
{
    from_json_text(&bytes[from..to])
}

fn decode_set(bytes: &[u8]) -> (r: Option<Record>)
    ensures
        match r {
            Some(record) => set_record_of(bytes@) == Some(record@),
            None => set_record_of(bytes@) is None,
        },
{
    let close = set_close_bytes();
    let start: usize = 8;
    let middle: usize = match find_literal_end(bytes, start) {
        Some(middle) => middle,
        None => { return None; },
    };
    if middle >= bytes.len() || bytes[middle] != COMMA {
        return None;
    }
    let end: usize = match find_literal_end(bytes, middle + 1) {
        Some(end) => end,
        None => { return None; },
    };
    if !pattern_at(bytes, end, close.as_slice()) || bytes.len() - end != 2 {
        return None;
    }
    let key = match read_string(bytes, start, middle) {
        Some(key) => key,
        None => { return None; },
    };
    let value = match read_string(bytes, middle + 1, end) {
        Some(value) => value,
        None => { return None; },
    };
    Some(Record::Put(key, value))
}

fn decode_remove(bytes: &[u8]) -> (r: Option<Record>)
    ensures
        match r {
            Some(record) => remove_record_of(bytes@) == Some(record@),
            None => remove_record_of(bytes@) is None,
        },
{
    let close = remove_close_bytes();
    let start: usize = 10;
    let end: usize = match find_literal_end(bytes, start) {
        Some(end) => end,
        None => { return None; },
    };
    if !pattern_at(bytes, end, close.as_slice()) || bytes.len() - end != 1 {
        return None;
    }
    match read_string(bytes, start, end) {
        Some(key) => Some(Record::Remove(key)),
        None => None,
    }
}

impl Record {
    /// The key that the record speaks of.
    pub fn key(&self) -> (key: &String)
        ensures
            key@ == self@.key(),
    {
        match self {
            Record::Put(key, _) => key,
            Record::Remove(key) => key,
        }
    }

    /// Whether two records are the same variant with the same strings.
    pub fn same(&self, other: &Record) -> (r: bool)
        ensures
            r == (self@ == other@),
    {
        match self {
            Record::Put(k1, v1) => match other {
                Record::Put(k2, v2) => *k1 == *k2 && *v1 == *v2,
                Record::Remove(_) => false,
            },
            Record::Remove(k1) => match other {
                Record::Put(_, _) => false,
                Record::Remove(k2) => *k1 == *k2,
            },
        }
    }

    /// Reads a record from its text.  Fails with `Error::Serde` exactly where
    /// the bytes are not the text of a record.
    pub fn decode(bytes: &[u8]) -> (r: Result<Record, Error>)
        ensures
            match r {
                Ok(record) => record_of(bytes@) == Some(record@),
                Err(e) => e@ == ErrorView::Serde && record_of(bytes@) is None,
            },
    {
        let set = set_open_bytes();
        let remove = remove_open_bytes();
        let found = if pattern_at(bytes, 0, set.as_slice()) {
            decode_set(bytes)
        } else if pattern_at(bytes, 0, remove.as_slice()) {
            decode_remove(bytes)
        } else {
            None
        };
        match found {
            Some(record) => Ok(record),
            None => Err(Error::Serde),
        }
    }

    /// Writes the text of the record, without testing that it reads back.
    fn text(&self) -> (r: Option<Vec<u8>>)
        ensures
            match r {
                Some(bytes) => record_text(self@) == Some(bytes@),
                None => record_text(self@) is None,
            },
    {
        match self {
            Record::Put(key, value) => {
                let k = match to_json_text(key.as_str()) {
                    Some(k) => k,
                    None => { return None; },
                };
                let v = match to_json_text(value.as_str()) {
                    Some(v) => v,
                    None => { return None; },
                };
                let mut out = set_open_bytes();
                out.extend_from_slice(k.as_slice());
                out.push(COMMA);
                out.extend_from_slice(v.as_slice());
                let close = set_close_bytes();
                out.extend_from_slice(close.as_slice());
                assert(out@ =~= set_open() + k@ + seq![COMMA] + v@ + set_close());
                Some(out)
            },
            Record::Remove(key) => {
                let k = match to_json_text(key.as_str()) {
                    Some(k) => k,
                    None => { return None; },
                };
                let mut out = remove_open_bytes();
                out.extend_from_slice(k.as_slice());
                let close = remove_close_bytes();
                out.extend_from_slice(close.as_slice());
                Some(out)
            },
        }
    }

    /// Writes the text of the record and reads it again.  Returns the text
    /// exactly where the record reads back from it, and `Error::Serde`
    /// otherwise.
    pub fn encode(&self) -> (r: Result<Vec<u8>, Error>)
        ensures
            match r {
                Ok(bytes) => reads_back(self@) && record_text(self@) == Some(bytes@),
                Err(e) => e@ == ErrorView::Serde && !reads_back(self@),
            },
    {
        let bytes = match self.text() {
            Some(bytes) => bytes,
            None => { return Err(Error::Serde); },
        };
        match Record::decode(bytes.as_slice()) {
            Ok(read) => {
                if read.same(self) {
                    Ok(bytes)
                } else {
                    Err(Error::Serde)
                }
            },
            Err(_) => Err(Error::Serde),
        }
    }
}

} // verus!
