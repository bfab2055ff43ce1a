use kvs::error::Error;
use kvs::index::Index;
use kvs::prefix::{read_prefix, write_prefix};
use kvs::record::Record;
use kvs::storages::{Storage, ValuePosition};

fn empty_log() -> Storage {
    Storage::init(Vec::new(), Index::new()).unwrap().0
}

#[test]
fn prefix_is_eight_bytes_most_significant_first() {
    let mut out: Vec<u8> = vec![9];
    write_prefix(&mut out, 0x0102030405060708);
    assert_eq!(out, vec![9, 1, 2, 3, 4, 5, 6, 7, 8]);
    assert_eq!(read_prefix(&out, 1), 0x0102030405060708);
    let mut small: Vec<u8> = Vec::new();
    write_prefix(&mut small, 300);
    assert_eq!(small, vec![0, 0, 0, 0, 0, 0, 1, 44]);
    assert_eq!(read_prefix(&small, 0), 300);
    let mut large: Vec<u8> = Vec::new();
    write_prefix(&mut large, u64::MAX);
    assert_eq!(large, vec![255; 8]);
    assert_eq!(read_prefix(&large, 0), u64::MAX);
}

#[test]
fn put_record_is_written_as_json() {
    let record = Record::Put("a".to_owned(), "1".to_owned());
    assert_eq!(record.encode().unwrap(), b"{\"Set\":[\"a\",\"1\"]}".to_vec());
}

#[test]
fn remove_record_is_written_as_json() {
    let record = Record::Remove("a".to_owned());
    assert_eq!(record.encode().unwrap(), b"{\"Remove\":\"a\"}".to_vec());
}

#[test]
fn strings_are_escaped_in_the_text_and_unescaped_on_reading() {
    let record = Record::Put("a\"b".to_owned(), "line\nbreak\\".to_owned());
    let bytes = record.encode().unwrap();
    assert_eq!(bytes, b"{\"Set\":[\"a\\\"b\",\"line\\nbreak\\\\\"]}".to_vec());
    assert_eq!(Record::decode(&bytes).unwrap(), record);
}

#[test]
fn decode_reads_both_variants() {
    assert_eq!(
        Record::decode(b"{\"Set\":[\"k\",\"v\"]}").unwrap(),
        Record::Put("k".to_owned(), "v".to_owned())
    );
    assert_eq!(
        Record::decode(b"{\"Remove\":\"k\"}").unwrap(),
        Record::Remove("k".to_owned())
    );
    assert_eq!(
        Record::decode(b"{\"Set\":[\"\\u0041\",\"\\t\"]}").unwrap(),
        Record::Put("A".to_owned(), "\t".to_owned())
    );
}

#[test]
fn decode_refuses_what_is_no_record() {
    let bad: Vec<&[u8]> = vec![
        b"",
        b"hello",
        b"{}",
        b"{\"Set\":[\"k\",\"v\"]",
        b"{\"Set\":[\"k\",\"v\"]} ",
        b"{\"Set\":[\"k\"]}",
        b"{\"Set\":[\"k\",\"v\",\"w\"]}",
        b"{\"Set\":[\"k\",1]}",
        b"{\"Set\":[\"k\",\"v]}",
        b"{\"Set\":[\"k\",\"bad \\q escape\"]}",
        b"{\"Set\":[\"k\",\"v\\",
        b"{\"Remove\":\"k\"",
        b"{\"Remove\":\"k\"}}",
        b"{\"Remove\":k}",
        b"{\"Remove\":[\"k\",\"v\"]}",
        b"{\"Other\":\"k\"}",
    ];
    for bytes in bad {
        assert_eq!(Record::decode(bytes), Err(Error::Serde));
    }
}

#[test]
fn key_and_same() {
    let put = Record::Put("k".to_owned(), "v".to_owned());
    let remove = Record::Remove("k".to_owned());
    assert_eq!(put.key(), "k");
    assert_eq!(remove.key(), "k");
    assert!(put.same(&Record::Put("k".to_owned(), "v".to_owned())));
    assert!(!put.same(&Record::Put("k".to_owned(), "w".to_owned())));
    assert!(!put.same(&Record::Put("j".to_owned(), "v".to_owned())));
    assert!(!put.same(&remove));
    assert!(remove.same(&Record::Remove("k".to_owned())));
    assert!(!remove.same(&Record::Remove("j".to_owned())));
}

#[test]
fn init_without_segments_opens_one_empty_segment() {
    let log = empty_log();
    assert_eq!(log.segments().len(), 1);
    assert!(log.segments()[0].is_empty());
    assert_eq!(log.record_count(), 0);
}

#[test]
fn write_record_returns_where_the_record_stands() {
    let mut log = empty_log();
    let first = log.write_record(b"abc");
    assert_eq!(first, ValuePosition { file: 0, offset: 0, length: 3 });
    let second = log.write_record(b"");
    assert_eq!(second, ValuePosition { file: 0, offset: 11, length: 0 });
    let third = log.write_record(b"hello");
    assert_eq!(third, ValuePosition { file: 0, offset: 19, length: 5 });
    assert_eq!(log.record_count(), 3);
    assert_eq!(
        log.segments()[0],
        vec![
            0, 0, 0, 0, 0, 0, 0, 3, 97, 98, 99, 0, 0, 0, 0, 0, 0, 0, 0, 0, 0, 0, 0, 0, 0, 0, 5,
            104, 101, 108, 108, 111
        ]
    );
    assert_eq!(log.read_record(&first).unwrap(), b"abc".to_vec());
    assert_eq!(log.read_record(&second).unwrap(), Vec::<u8>::new());
    assert_eq!(log.read_record(&third).unwrap(), b"hello".to_vec());
}

#[test]
fn read_record_outside_the_log_is_an_io_failure() {
    let mut log = empty_log();
    log.write_record(b"abc");
    assert_eq!(
        log.read_record(&ValuePosition { file: 1, offset: 0, length: 3 }),
        Err(Error::Io)
    );
    assert_eq!(
        log.read_record(&ValuePosition { file: 0, offset: 0, length: 4 }),
        Err(Error::Io)
    );
    assert_eq!(
        log.read_record(&ValuePosition { file: 0, offset: 4, length: 0 }),
        Err(Error::Io)
    );
    assert_eq!(
        log.read_record(&ValuePosition { file: 0, offset: 12, length: 0 }),
        Err(Error::Io)
    );
    assert_eq!(
        log.read_record(&ValuePosition { file: 0, offset: u64::MAX, length: usize::MAX }),
        Err(Error::Io)
    );
    assert_eq!(
        log.read_record(&ValuePosition { file: 0, offset: 3, length: 0 }).unwrap(),
        Vec::<u8>::new()
    );
    assert_eq!(
        log.read_record(&ValuePosition { file: 0, offset: 1, length: 2 }).unwrap(),
        vec![98, 99]
    );
}

#[test]
fn the_thousandth_record_opens_the_next_segment() {
    let mut log = empty_log();
    for _ in 0..999 {
        log.write_record(b"x");
    }
    assert_eq!(log.record_count(), 999);
    assert_eq!(log.segments().len(), 1);
    let last = log.write_record(b"y");
    assert_eq!(last, ValuePosition { file: 0, offset: 999 * 9, length: 1 });
    assert_eq!(log.segments().len(), 2);
    assert_eq!(log.record_count(), 0);
    let next = log.write_record(b"z");
    assert_eq!(next, ValuePosition { file: 1, offset: 0, length: 1 });
    assert_eq!(log.record_count(), 1);
    assert_eq!(log.segments()[0].len(), 9000);
    assert_eq!(log.read_record(&last).unwrap(), b"y".to_vec());
    assert_eq!(log.read_record(&next).unwrap(), b"z".to_vec());
}

#[test]
fn init_shows_the_visitor_every_record_in_order() {
    let mut written = empty_log();
    written.write_record(b"{\"Set\":[\"a\",\"1\"]}");
    written.write_record(b"{\"Set\":[\"b\",\"2\"]}");
    let mut second = empty_log();
    second.write_record(b"{\"Remove\":\"a\"}");
    let third = second.write_record(b"{\"Set\":[\"b\",\"3\"]}");
    let segments = vec![written.segments()[0].clone(), second.segments()[0].clone()];
    let (log, index) = Storage::init(segments, Index::new()).unwrap();
    assert_eq!(log.record_count(), 2);
    assert_eq!(log.segments().len(), 2);
    assert_eq!(index.len(), 1);
    assert_eq!(index.get("a"), None);
    assert_eq!(
        index.get("b"),
        Some(ValuePosition { file: 1, offset: third.offset, length: third.length })
    );
    assert!(index.contains_key("b"));
    assert!(!index.contains_key("a"));
}

#[test]
fn init_fails_on_a_broken_segment() {
    assert!(matches!(
        Storage::init(vec![vec![0u8; 7]], Index::new()),
        Err(Error::ParseLengthError)
    ));
    assert!(matches!(
        Storage::init(vec![vec![0, 0, 0, 0, 0, 0, 0, 2, 1]], Index::new()),
        Err(Error::ParseLengthError)
    ));
    assert!(matches!(
        Storage::init(vec![vec![255, 255, 255, 255, 255, 255, 255, 255, 1]], Index::new()),
        Err(Error::ParseLengthError)
    ));
    assert!(matches!(
        Storage::init(vec![vec![0, 0, 0, 0, 0, 0, 0, 1, 1]], Index::new()),
        Err(Error::Serde)
    ));
}

#[test]
fn replace_takes_over_segments_and_count() {
    let mut log = empty_log();
    log.write_record(b"old");
    log.write_record(b"older");
    let mut other = empty_log();
    let position = other.write_record(b"new");
    let expected = other.segments().clone();
    log.replace(other);
    assert_eq!(log.record_count(), 1);
    assert_eq!(log.segments(), &expected);
    assert_eq!(log.read_record(&position).unwrap(), b"new".to_vec());
}

#[test]
fn index_enters_and_erases_keys() {
    let mut index = Index::new();
    assert_eq!(index.len(), 0);
    index.insert("a".to_owned(), ValuePosition { file: 0, offset: 0, length: 1 });
    index.insert("b".to_owned(), ValuePosition { file: 0, offset: 9, length: 2 });
    index.insert("a".to_owned(), ValuePosition { file: 1, offset: 4, length: 3 });
    assert_eq!(index.len(), 2);
    assert_eq!(index.get("a"), Some(ValuePosition { file: 1, offset: 4, length: 3 }));
    index.remove("a");
    index.remove("missing");
    assert_eq!(index.len(), 1);
    assert_eq!(index.get("a"), None);
    assert_eq!(index.get("b"), Some(ValuePosition { file: 0, offset: 9, length: 2 }));
    assert_eq!(index.keys(), &vec!["a".to_owned(), "b".to_owned()]);
}
