use kvs::{Error, KvStore};
use std::collections::HashMap;

fn text(s: &str) -> String {
    s.to_owned()
}

fn fresh() -> KvStore {
    KvStore::open(Vec::new()).unwrap()
}

fn reopened(store: &KvStore) -> KvStore {
    KvStore::open(store.segments().clone()).unwrap()
}

#[test]
fn set_then_get_returns_the_value() {
    let mut store = fresh();
    store.set(text("key"), text("value")).unwrap();
    assert_eq!(store.get(text("key")).unwrap(), Some(text("value")));
}

#[test]
fn values_with_quotes_backslashes_and_other_scripts_round_trip() {
    let pairs = vec![
        ("plain", "value"),
        ("quote\"inside", "say \"hi\""),
        ("back\\slash", "a\\b\\\\c"),
        ("ends with backslash\\", "\\"),
        ("new\nline", "tab\there\r\n"),
        ("control\u{0001}", "\u{0000}\u{001f}"),
        ("clé", "värde"),
        ("鍵", "値と絵文字😀"),
        ("empty value", ""),
        ("]}", "{\"Set\":[\"x\",\"y\"]}"),
        (",", "\",\""),
    ];
    let mut store = fresh();
    for (key, value) in pairs.iter() {
        store.set(text(key), text(value)).unwrap();
    }
    for (key, value) in pairs.iter() {
        assert_eq!(store.get(text(key)).unwrap(), Some(text(value)));
    }
    let mut again = reopened(&store);
    for (key, value) in pairs.iter() {
        assert_eq!(again.get(text(key)).unwrap(), Some(text(value)));
    }
}

#[test]
fn get_of_a_key_never_set_is_none() {
    let mut store = fresh();
    assert_eq!(store.get(text("missing")).unwrap(), None);
}

#[test]
fn overwrite_keeps_both_records_and_returns_the_latter() {
    let mut store = fresh();
    store.set(text("k"), text("a")).unwrap();
    store.set(text("k"), text("b")).unwrap();
    assert_eq!(store.get(text("k")).unwrap(), Some(text("b")));
    assert_eq!(store.record_count(), 2);
    let mut expected: Vec<u8> = Vec::new();
    expected.extend_from_slice(&[0, 0, 0, 0, 0, 0, 0, 17]);
    expected.extend_from_slice(b"{\"Set\":[\"k\",\"a\"]}");
    expected.extend_from_slice(&[0, 0, 0, 0, 0, 0, 0, 17]);
    expected.extend_from_slice(b"{\"Set\":[\"k\",\"b\"]}");
    assert_eq!(store.segments(), &vec![expected]);
}

#[test]
fn remove_then_get_is_none_and_second_remove_fails() {
    let mut store = fresh();
    store.set(text("k"), text("v")).unwrap();
    store.remove(text("k")).unwrap();
    assert_eq!(store.get(text("k")).unwrap(), None);
    assert_eq!(store.remove(text("k")), Err(Error::KeyNotFound(text("k"))));
    assert_eq!(store.record_count(), 2);
}

#[test]
fn remove_of_a_key_never_set_fails() {
    let mut store = fresh();
    assert_eq!(store.remove(text("nothing")), Err(Error::KeyNotFound(text("nothing"))));
    assert_eq!(store.record_count(), 0);
}

#[test]
fn remove_writes_a_remove_record() {
    let mut store = fresh();
    store.set(text("k"), text("v")).unwrap();
    store.remove(text("k")).unwrap();
    let mut expected: Vec<u8> = Vec::new();
    expected.extend_from_slice(&[0, 0, 0, 0, 0, 0, 0, 17]);
    expected.extend_from_slice(b"{\"Set\":[\"k\",\"v\"]}");
    expected.extend_from_slice(&[0, 0, 0, 0, 0, 0, 0, 14]);
    expected.extend_from_slice(b"{\"Remove\":\"k\"}");
    assert_eq!(store.segments(), &vec![expected]);
}

#[test]
fn empty_key_is_refused_and_nothing_is_written() {
    let mut store = fresh();
    store.set(text("a"), text("1")).unwrap();
    let before = store.segments().clone();
    assert_eq!(store.set(text(""), text("v")), Err(Error::InvalidKey(text(""))));
    assert_eq!(store.get(text("")), Err(Error::InvalidKey(text(""))));
    assert_eq!(store.remove(text("")), Err(Error::InvalidKey(text(""))));
    assert_eq!(store.segments(), &before);
    assert_eq!(store.record_count(), 1);
    assert_eq!(store.get(text("a")).unwrap(), Some(text("1")));
}

#[test]
fn reopening_gives_the_last_values_and_forgets_removed_keys() {
    let mut store = fresh();
    for i in 0..100 {
        store.set(format!("key{}", i), format!("first{}", i)).unwrap();
    }
    for i in 0..100 {
        if i % 3 == 0 {
            store.set(format!("key{}", i), format!("second{}", i)).unwrap();
        }
        if i % 5 == 1 {
            store.remove(format!("key{}", i)).unwrap();
        }
    }
    let mut again = reopened(&store);
    for i in 0..100 {
        let expected = if i % 5 == 1 {
            None
        } else if i % 3 == 0 {
            Some(format!("second{}", i))
        } else {
            Some(format!("first{}", i))
        };
        assert_eq!(again.get(format!("key{}", i)).unwrap(), expected);
        assert_eq!(store.get(format!("key{}", i)).unwrap(), expected);
    }
    assert_eq!(again.record_count(), store.record_count());
    assert_eq!(again.segments(), store.segments());
}

#[test]
fn the_scenario_of_two_keys() {
    let mut store = fresh();
    store.set(text("a"), text("1")).unwrap();
    store.set(text("b"), text("2")).unwrap();
    store.set(text("a"), text("3")).unwrap();
    store.remove(text("b")).unwrap();
    assert_eq!(store.get(text("a")).unwrap(), Some(text("3")));
    assert_eq!(store.get(text("b")).unwrap(), None);
    let mut again = reopened(&store);
    assert_eq!(again.get(text("a")).unwrap(), Some(text("3")));
    assert_eq!(again.get(text("b")).unwrap(), None);
}

#[test]
fn threshold_of_an_empty_store_is_the_margin() {
    let store = fresh();
    assert_eq!(store.record_count(), 0);
    assert_eq!(store.compact_record_count(), 371);
    assert_eq!(store.segments().len(), 1);
    assert!(store.segments()[0].is_empty());
}

#[test]
fn threshold_at_open_is_twice_the_count_plus_the_margin() {
    let mut store = fresh();
    store.set(text("a"), text("1")).unwrap();
    store.set(text("b"), text("2")).unwrap();
    store.set(text("a"), text("3")).unwrap();
    assert_eq!(store.compact_record_count(), 371);
    let again = reopened(&store);
    assert_eq!(again.record_count(), 3);
    assert_eq!(again.compact_record_count(), 377);
}

#[test]
fn compaction_fires_at_the_threshold_and_keeps_the_live_values() {
    let mut store = fresh();
    store.set(text("kept"), text("yes")).unwrap();
    store.set(text("gone"), text("soon")).unwrap();
    store.remove(text("gone")).unwrap();
    for i in 3..370 {
        store.set(text("counter"), format!("{}", i)).unwrap();
    }
    assert_eq!(store.record_count(), 370);
    assert_eq!(store.compact_record_count(), 371);
    store.set(text("counter"), text("last")).unwrap();
    assert_eq!(store.record_count(), 2);
    assert_eq!(store.compact_record_count(), 375);
    assert_eq!(store.segments().len(), 1);
    assert_eq!(store.get(text("kept")).unwrap(), Some(text("yes")));
    assert_eq!(store.get(text("gone")).unwrap(), None);
    assert_eq!(store.get(text("counter")).unwrap(), Some(text("last")));
    let mut expected: Vec<u8> = Vec::new();
    expected.extend_from_slice(&[0, 0, 0, 0, 0, 0, 0, 22]);
    expected.extend_from_slice(b"{\"Set\":[\"kept\",\"yes\"]}");
    expected.extend_from_slice(&[0, 0, 0, 0, 0, 0, 0, 26]);
    expected.extend_from_slice(b"{\"Set\":[\"counter\",\"last\"]}");
    assert_eq!(store.segments(), &vec![expected]);
    let mut again = reopened(&store);
    assert_eq!(again.get(text("kept")).unwrap(), Some(text("yes")));
    assert_eq!(again.get(text("gone")).unwrap(), None);
    assert_eq!(again.get(text("counter")).unwrap(), Some(text("last")));
}

#[test]
fn compaction_after_a_remove_that_reaches_the_threshold() {
    let mut store = fresh();
    store.set(text("a"), text("1")).unwrap();
    for i in 1..370 {
        store.set(text("b"), format!("{}", i)).unwrap();
    }
    assert_eq!(store.record_count(), 370);
    store.remove(text("b")).unwrap();
    assert_eq!(store.record_count(), 1);
    assert_eq!(store.compact_record_count(), 373);
    assert_eq!(store.get(text("a")).unwrap(), Some(text("1")));
    assert_eq!(store.get(text("b")).unwrap(), None);
}

#[test]
fn compaction_is_announced_for_the_write_that_reaches_the_threshold() {
    let mut store = fresh();
    assert!(!store.compaction_due());
    for i in 0..369 {
        store.set(text("k"), format!("{}", i)).unwrap();
        assert!(!store.compaction_due());
    }
    store.set(text("k"), text("369")).unwrap();
    assert_eq!(store.record_count(), 370);
    assert!(store.compaction_due());
    store.set(text("k"), text("370")).unwrap();
    assert_eq!(store.record_count(), 1);
    assert!(!store.compaction_due());
}

#[test]
fn compact_on_request_drops_superseded_records() {
    let mut store = fresh();
    for i in 0..10 {
        store.set(text("a"), format!("{}", i)).unwrap();
        store.set(format!("k{}", i), text("v")).unwrap();
    }
    store.remove(text("k3")).unwrap();
    assert_eq!(store.record_count(), 21);
    store.compact();
    assert_eq!(store.record_count(), 10);
    assert_eq!(store.compact_record_count(), 391);
    assert_eq!(store.get(text("a")).unwrap(), Some(text("9")));
    assert_eq!(store.get(text("k3")).unwrap(), None);
    assert_eq!(store.get(text("k4")).unwrap(), Some(text("v")));
}

#[test]
fn a_thousand_records_close_the_segment() {
    let mut store = fresh();
    for i in 0..371 {
        store.set(format!("key{}", i), text("v")).unwrap();
    }
    assert_eq!(store.record_count(), 371);
    assert_eq!(store.compact_record_count(), 1113);
    for i in 371..999 {
        store.set(format!("key{}", i), text("v")).unwrap();
    }
    assert_eq!(store.record_count(), 999);
    assert_eq!(store.segments().len(), 1);
    store.set(text("key999"), text("v")).unwrap();
    assert_eq!(store.segments().len(), 2);
    assert_eq!(store.record_count(), 0);
    assert!(store.segments()[1].is_empty());
    let closed = store.segments()[0].clone();
    store.set(text("after"), text("rollover")).unwrap();
    assert_eq!(store.segments().len(), 2);
    assert_eq!(store.segments()[0], closed);
    assert_eq!(store.record_count(), 1);
    assert_eq!(store.get(text("after")).unwrap(), Some(text("rollover")));
    assert_eq!(store.get(text("key0")).unwrap(), Some(text("v")));
    assert_eq!(store.get(text("key999")).unwrap(), Some(text("v")));
    let mut again = reopened(&store);
    assert_eq!(again.record_count(), 1);
    assert_eq!(again.compact_record_count(), 373);
    assert_eq!(again.get(text("key500")).unwrap(), Some(text("v")));
    assert_eq!(again.get(text("after")).unwrap(), Some(text("rollover")));
}

#[test]
fn open_counts_only_the_last_segment() {
    let mut first = fresh();
    first.set(text("a"), text("1")).unwrap();
    first.set(text("b"), text("2")).unwrap();
    let mut second = fresh();
    second.set(text("a"), text("3")).unwrap();
    let segments = vec![first.segments()[0].clone(), second.segments()[0].clone()];
    let mut store = KvStore::open(segments).unwrap();
    assert_eq!(store.record_count(), 1);
    assert_eq!(store.compact_record_count(), 373);
    assert_eq!(store.get(text("a")).unwrap(), Some(text("3")));
    assert_eq!(store.get(text("b")).unwrap(), Some(text("2")));
}

#[test]
fn open_fails_on_a_segment_that_ends_inside_a_prefix() {
    let segments = vec![vec![0u8, 0, 0]];
    assert!(matches!(KvStore::open(segments), Err(Error::ParseLengthError)));
}

#[test]
fn open_fails_on_a_segment_that_ends_inside_a_payload() {
    let mut segment: Vec<u8> = vec![0, 0, 0, 0, 0, 0, 0, 17];
    segment.extend_from_slice(b"{\"Set\":[\"k\",\"a\"]");
    assert!(matches!(KvStore::open(vec![segment]), Err(Error::ParseLengthError)));
}

#[test]
fn open_fails_on_a_payload_that_is_no_record() {
    let mut segment: Vec<u8> = vec![0, 0, 0, 0, 0, 0, 0, 5];
    segment.extend_from_slice(b"hello");
    assert!(matches!(KvStore::open(vec![segment]), Err(Error::Serde)));
}

#[test]
fn open_reports_the_failure_that_comes_first_in_the_log() {
    let mut segment: Vec<u8> = vec![0, 0, 0, 0, 0, 0, 0, 5];
    segment.extend_from_slice(b"hello");
    segment.extend_from_slice(&[0, 0]);
    assert!(matches!(KvStore::open(vec![segment]), Err(Error::Serde)));
    let mut good: Vec<u8> = vec![0, 0, 0, 0, 0, 0, 0, 17];
    good.extend_from_slice(b"{\"Set\":[\"k\",\"a\"]}");
    good.extend_from_slice(&[0, 0]);
    assert!(matches!(KvStore::open(vec![good]), Err(Error::ParseLengthError)));
}

#[test]
fn a_long_run_agrees_with_a_map() {
    let mut store = fresh();
    let mut model: HashMap<String, String> = HashMap::new();
    let mut state: u64 = 0x2545f4914f6cdd1d;
    for round in 0..6000u32 {
        state = state
            .wrapping_mul(6364136223846793005)
            .wrapping_add(1442695040888963407);
        let key = format!("key{}", (state >> 33) % 700);
        let choice = (state >> 20) % 10;
        if choice < 6 {
            let value = format!("value \"{}\" of round {}", state >> 40, round);
            store.set(key.clone(), value.clone()).unwrap();
            model.insert(key, value);
        } else if choice < 8 {
            let expected = match model.remove(&key) {
                Some(_) => Ok(()),
                None => Err(Error::KeyNotFound(key.clone())),
            };
            assert_eq!(store.remove(key), expected);
        } else {
            assert_eq!(store.get(key.clone()).unwrap(), model.get(&key).cloned());
        }
        if round % 1500 == 1499 {
            let mut again = reopened(&store);
            for id in 0..700 {
                let key = format!("key{}", id);
                assert_eq!(again.get(key.clone()).unwrap(), model.get(&key).cloned());
            }
            assert_eq!(again.record_count(), store.record_count());
        }
    }
    for id in 0..700 {
        let key = format!("key{}", id);
        assert_eq!(store.get(key.clone()).unwrap(), model.get(&key).cloned());
    }
}
